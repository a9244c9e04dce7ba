use polytype::{apply, instantiate, unify, Context, Source, Substitution, Ty, TypeContext, UnificationError, Variable};
use typed_arena::Arena;

fn con(ctx: &mut TypeContext, name: &str, args: &[Ty]) -> Ty {
    let head = ctx.intern_name(name);
    ctx.intern_tcon(head, args)
}

#[test]
fn test_unify_one_side_polymorphic() {
    let (a, b, c, d) = (Arena::new(), Arena::new(), Arena::new(), Arena::new());
    let mut ctx = TypeContext::new(Context::new(&a, &b, &c, &d));
    let int = con(&mut ctx, "int", &[]);
    let boolean = con(&mut ctx, "bool", &[]);
    let int_to_bool = ctx.arrow_slice(&[int, boolean]);
    let left = con(&mut ctx, "list", &[int_to_bool]);
    let t0 = ctx.intern_tvar(Variable(0));
    let right = con(&mut ctx, "list", &[t0]);
    let mut sub = Substitution::with_capacity(1);
    unify(left, right, &mut sub, &ctx).expect("one side polymorphic");
    assert_eq!(sub.get(Variable(0)), Some(int_to_bool));
    assert_eq!(sub.len(), 1);
}

#[test]
fn test_unify_one_side_polymorphic_fail() {
    let (a, b, c, d) = (Arena::new(), Arena::new(), Arena::new(), Arena::new());
    let mut ctx = TypeContext::new(Context::new(&a, &b, &c, &d));
    let int = con(&mut ctx, "int", &[]);
    let boolean = con(&mut ctx, "bool", &[]);
    let left = ctx.arrow_slice(&[int, boolean]);
    let t0 = ctx.intern_tvar(Variable(0));
    let right = con(&mut ctx, "list", &[t0]);
    let mut sub = Substitution::with_capacity(1);
    let err = unify(left, right, &mut sub, &ctx).expect_err("incompatible types");
    assert_eq!(err, UnificationError::Mismatch(left, right));
    assert!(sub.is_empty());
}

#[test]
fn test_unify_both_sides_polymorphic() {
    let (a, b, c, d) = (Arena::new(), Arena::new(), Arena::new(), Arena::new());
    let mut ctx = TypeContext::new(Context::new(&a, &b, &c, &d));
    let int = con(&mut ctx, "int", &[]);
    let boolean = con(&mut ctx, "bool", &[]);
    let t0 = ctx.intern_tvar(Variable(0));
    let t1 = ctx.intern_tvar(Variable(1));
    let int_to_t0 = ctx.arrow_slice(&[int, t0]);
    let t1_to_bool = ctx.arrow_slice(&[t1, boolean]);
    let left = con(&mut ctx, "list", &[int_to_t0]);
    let right = con(&mut ctx, "list", &[t1_to_bool]);
    let mut sub = Substitution::with_capacity(2);
    unify(left, right, &mut sub, &ctx).expect("both sides polymorphic");
    assert_eq!(sub.get(Variable(0)), Some(boolean));
    assert_eq!(sub.get(Variable(1)), Some(int));
    assert_eq!(apply(left, &sub, &mut ctx), apply(right, &sub, &mut ctx));
}

#[test]
fn test_unify_both_sides_polymorphic_occurs() {
    let (a, b, c, d) = (Arena::new(), Arena::new(), Arena::new(), Arena::new());
    let mut ctx = TypeContext::new(Context::new(&a, &b, &c, &d));
    let boolean = con(&mut ctx, "bool", &[]);
    let t0 = ctx.intern_tvar(Variable(0));
    let t0_to_bool = ctx.arrow_slice(&[t0, boolean]);
    let right = con(&mut ctx, "list", &[t0_to_bool]);
    let mut sub = Substitution::with_capacity(1);
    let err = unify(t0, right, &mut sub, &ctx).expect_err("circular polymorphic types");
    assert_eq!(err, UnificationError::Occurs(Variable(0)));
    assert!(sub.is_empty());
}

#[test]
fn instantiate_then_unify_binds_the_fresh_variables() {
    let (a, b, c, d) = (Arena::new(), Arena::new(), Arena::new(), Arena::new());
    let mut ctx = TypeContext::new(Context::new(&a, &b, &c, &d));
    let mut src = Source::default();
    // forall a. forall b. (b -> a -> b) -> b -> list(a) -> b, with a = 0 and b = 1
    let va = ctx.intern_tvar(Variable(0));
    let vb = ctx.intern_tvar(Variable(1));
    let step = ctx.arrow_slice(&[vb, va, vb]);
    let list_a = con(&mut ctx, "list", &[va]);
    let body = ctx.arrow_slice(&[step, vb, list_a, vb]);
    let mono = ctx.intern_monotype(body);
    let inner = ctx.intern_polytype(Variable(1), mono);
    let schema = ctx.intern_polytype(Variable(0), inner);
    src.fresh();
    src.fresh();
    let t = instantiate(schema, &mut src, &mut ctx);
    // the fresh variables are 2 for a and 3 for b
    let fa = ctx.intern_tvar(Variable(2));
    let fb = ctx.intern_tvar(Variable(3));
    let fstep = ctx.arrow_slice(&[fb, fa, fb]);
    let flist = con(&mut ctx, "list", &[fa]);
    let expected = ctx.arrow_slice(&[fstep, fb, flist, fb]);
    assert_eq!(t, expected);
    assert_eq!(src.fresh(), 4);

    let int = con(&mut ctx, "int", &[]);
    let obj = con(&mut ctx, "obj", &[]);
    let given = ctx.arrow_slice(&[int, obj, int]);
    let x = ctx.intern_tvar(Variable(5));
    let y = ctx.intern_tvar(Variable(6));
    let z = ctx.intern_tvar(Variable(7));
    let target = ctx.arrow_slice(&[given, x, y, z]);
    let mut sub = Substitution::with_capacity(8);
    unify(t, target, &mut sub, &ctx).expect("instance against a chain of arrows");
    let resolved = apply(t, &sub, &mut ctx);
    let list_obj = con(&mut ctx, "list", &[obj]);
    let want = ctx.arrow_slice(&[given, int, list_obj, int]);
    assert_eq!(resolved, want);
    assert_eq!(apply(fa, &sub, &mut ctx), obj);
    assert_eq!(apply(fb, &sub, &mut ctx), int);
}

#[test]
fn unify_same_variable_changes_nothing() {
    let (a, b, c, d) = (Arena::new(), Arena::new(), Arena::new(), Arena::new());
    let mut ctx = TypeContext::new(Context::new(&a, &b, &c, &d));
    let t0 = ctx.intern_tvar(Variable(0));
    let mut sub = Substitution::with_capacity(1);
    assert_eq!(unify(t0, t0, &mut sub, &ctx), Ok(()));
    assert!(sub.is_empty());
}

#[test]
fn unify_binds_the_left_of_two_free_variables() {
    let (a, b, c, d) = (Arena::new(), Arena::new(), Arena::new(), Arena::new());
    let mut ctx = TypeContext::new(Context::new(&a, &b, &c, &d));
    let t0 = ctx.intern_tvar(Variable(0));
    let t1 = ctx.intern_tvar(Variable(1));
    let mut sub = Substitution::with_capacity(1);
    assert_eq!(unify(t0, t1, &mut sub, &ctx), Ok(()));
    assert_eq!(sub.as_slice(), &[(Variable(0), t1)]);
    // both now lead to t1
    assert_eq!(unify(t1, t0, &mut sub, &ctx), Ok(()));
    assert_eq!(sub.len(), 1);
}

#[test]
fn unify_sees_through_chains_of_bindings() {
    let (a, b, c, d) = (Arena::new(), Arena::new(), Arena::new(), Arena::new());
    let mut ctx = TypeContext::new(Context::new(&a, &b, &c, &d));
    let t0 = ctx.intern_tvar(Variable(0));
    let t1 = ctx.intern_tvar(Variable(1));
    let t2 = ctx.intern_tvar(Variable(2));
    let int = con(&mut ctx, "int", &[]);
    let boolean = con(&mut ctx, "bool", &[]);
    let mut sub = Substitution::with_capacity(3);
    assert_eq!(unify(t0, t1, &mut sub, &ctx), Ok(()));
    assert_eq!(unify(t1, t2, &mut sub, &ctx), Ok(()));
    assert_eq!(unify(t2, int, &mut sub, &ctx), Ok(()));
    assert_eq!(apply(t0, &sub, &mut ctx), int);
    assert_eq!(
        unify(t0, boolean, &mut sub, &ctx),
        Err(UnificationError::Mismatch(int, boolean))
    );
    assert_eq!(sub.len(), 3);
}

#[test]
fn unify_mismatch_on_the_number_of_arguments() {
    let (a, b, c, d) = (Arena::new(), Arena::new(), Arena::new(), Arena::new());
    let mut ctx = TypeContext::new(Context::new(&a, &b, &c, &d));
    let int = con(&mut ctx, "int", &[]);
    let one = con(&mut ctx, "f", &[int]);
    let two = con(&mut ctx, "f", &[int, int]);
    let mut sub = Substitution::with_capacity(0);
    assert_eq!(
        unify(one, two, &mut sub, &ctx),
        Err(UnificationError::Mismatch(one, two))
    );
    assert!(sub.is_empty());
}

#[test]
fn unify_keeps_the_bindings_made_before_a_failure() {
    let (a, b, c, d) = (Arena::new(), Arena::new(), Arena::new(), Arena::new());
    let mut ctx = TypeContext::new(Context::new(&a, &b, &c, &d));
    let int = con(&mut ctx, "int", &[]);
    let boolean = con(&mut ctx, "bool", &[]);
    let t0 = ctx.intern_tvar(Variable(0));
    let left = con(&mut ctx, "pair", &[t0, int]);
    let right = con(&mut ctx, "pair", &[int, boolean]);
    let mut sub = Substitution::with_capacity(0);
    let snap = sub.snapshot();
    assert_eq!(
        unify(left, right, &mut sub, &ctx),
        Err(UnificationError::Mismatch(int, boolean))
    );
    assert_eq!(sub.as_slice(), &[(Variable(0), int)]);
    sub.rollback(snap);
    assert!(sub.is_empty());
}

#[test]
fn unify_later_arguments_see_earlier_bindings() {
    let (a, b, c, d) = (Arena::new(), Arena::new(), Arena::new(), Arena::new());
    let mut ctx = TypeContext::new(Context::new(&a, &b, &c, &d));
    let int = con(&mut ctx, "int", &[]);
    let boolean = con(&mut ctx, "bool", &[]);
    let t0 = ctx.intern_tvar(Variable(0));
    let left = con(&mut ctx, "pair", &[t0, t0]);
    let right = con(&mut ctx, "pair", &[int, boolean]);
    let mut sub = Substitution::with_capacity(0);
    assert_eq!(
        unify(left, right, &mut sub, &ctx),
        Err(UnificationError::Mismatch(int, boolean))
    );
    let same = con(&mut ctx, "pair", &[int, int]);
    let mut sub = Substitution::with_capacity(0);
    assert_eq!(unify(left, same, &mut sub, &ctx), Ok(()));
    assert_eq!(apply(left, &sub, &mut ctx), same);
}

#[test]
fn unify_occurs_is_found_through_bindings() {
    let (a, b, c, d) = (Arena::new(), Arena::new(), Arena::new(), Arena::new());
    let mut ctx = TypeContext::new(Context::new(&a, &b, &c, &d));
    let t0 = ctx.intern_tvar(Variable(0));
    let t1 = ctx.intern_tvar(Variable(1));
    let list0 = con(&mut ctx, "list", &[t0]);
    let list1 = con(&mut ctx, "list", &[t1]);
    let mut sub = Substitution::with_capacity(0);
    assert_eq!(unify(t1, list0, &mut sub, &ctx), Ok(()));
    // t0 against list(t1), and t1 is list(t0)
    assert_eq!(
        unify(t0, list1, &mut sub, &ctx),
        Err(UnificationError::Occurs(Variable(0)))
    );
    assert_eq!(sub.len(), 1);
    assert!(polytype::occurs_check(Variable(0), list1, &sub, &ctx));
    assert!(!polytype::occurs_check(Variable(1), list1, &sub, &ctx));
    assert_eq!(polytype::shallow_resolve(t1, &sub, &ctx), list0);
}

#[test]
fn apply_twice_is_apply_once() {
    let (a, b, c, d) = (Arena::new(), Arena::new(), Arena::new(), Arena::new());
    let mut ctx = TypeContext::new(Context::new(&a, &b, &c, &d));
    let int = con(&mut ctx, "int", &[]);
    let t0 = ctx.intern_tvar(Variable(0));
    let t1 = ctx.intern_tvar(Variable(1));
    let t2 = ctx.intern_tvar(Variable(2));
    let list1 = con(&mut ctx, "list", &[t1]);
    let term = con(&mut ctx, "pair", &[t0, t2]);
    let mut sub = Substitution::with_capacity(0);
    assert_eq!(unify(t0, list1, &mut sub, &ctx), Ok(()));
    assert_eq!(unify(t1, int, &mut sub, &ctx), Ok(()));
    let once = apply(term, &sub, &mut ctx);
    let twice = apply(once, &sub, &mut ctx);
    let list_int = con(&mut ctx, "list", &[int]);
    assert_eq!(once, con(&mut ctx, "pair", &[list_int, t2]));
    assert_eq!(once, twice);
}

#[test]
fn apply_mut_resolves_a_tree_in_place() {
    let (a, b, c, d) = (Arena::new(), Arena::new(), Arena::new(), Arena::new());
    let mut ctx = TypeContext::new(Context::new(&a, &b, &c, &d));
    let int = con(&mut ctx, "int", &[]);
    let t0 = ctx.intern_tvar(Variable(0));
    let t1 = ctx.intern_tvar(Variable(1));
    let list1 = con(&mut ctx, "list", &[t1]);
    let mut sub = Substitution::with_capacity(0);
    assert_eq!(unify(t0, list1, &mut sub, &ctx), Ok(()));
    assert_eq!(unify(t1, int, &mut sub, &ctx), Ok(()));
    let mut tree = polytype::OwnedType::parse("pair(t0, t2) -> t1").expect("a type");
    polytype::apply_mut(&mut tree, &sub, &ctx);
    assert_eq!(tree.show(), "pair(list(int),t2) \u{2192} int");
    assert_eq!(polytype::resolve_owned(t0, &sub, &ctx).show(), "list(int)");
}

#[test]
fn unify_fast_unifies_trees() {
    let (a, b, c, d) = (Arena::new(), Arena::new(), Arena::new(), Arena::new());
    let mut ctx = TypeContext::new(Context::new(&a, &b, &c, &d));
    let left = polytype::OwnedType::parse("list(int -> bool)").expect("a type");
    let right = polytype::OwnedType::parse("list(t0)").expect("a type");
    let mut sub = Substitution::with_capacity(0);
    assert_eq!(polytype::unify_fast(left.clone(), right.clone(), &mut sub, &mut ctx), Ok(()));
    let mut resolved = right;
    polytype::apply_mut(&mut resolved, &sub, &ctx);
    assert_eq!(resolved, left);
    let int = con(&mut ctx, "int", &[]);
    let boolean = con(&mut ctx, "bool", &[]);
    assert_eq!(sub.get(Variable(0)), Some(ctx.arrow(int, boolean)));

    let left = polytype::OwnedType::parse("int -> bool").expect("a type");
    let right = polytype::OwnedType::parse("list(t5)").expect("a type");
    let mut sub = Substitution::with_capacity(0);
    assert!(matches!(
        polytype::unify_fast(left, right, &mut sub, &mut ctx),
        Err(UnificationError::Mismatch(_, _))
    ));
    let left = polytype::OwnedType::parse("t5").expect("a type");
    let right = polytype::OwnedType::parse("list(t5 -> bool)").expect("a type");
    assert_eq!(
        polytype::unify_fast(left, right, &mut sub, &mut ctx),
        Err(UnificationError::Occurs(Variable(5)))
    );
    assert!(sub.is_empty());
}

#[test]
fn deep_terms_take_no_deep_stack() {
    let (a, b, c, d) = (Arena::new(), Arena::new(), Arena::new(), Arena::new());
    let mut ctx = TypeContext::new(Context::new(&a, &b, &c, &d));
    let list = ctx.intern_name("list");
    let int = con(&mut ctx, "int", &[]);
    let t0 = ctx.intern_tvar(Variable(0));
    let mut ground = int;
    let mut open = t0;
    for _ in 0..200_000 {
        ground = ctx.intern_tcon(list, &[ground]);
        open = ctx.intern_tcon(list, &[open]);
    }
    let mut sub = Substitution::with_capacity(1);
    assert!(polytype::occurs_check(Variable(0), open, &sub, &ctx));
    assert!(!polytype::occurs_check(Variable(0), ground, &sub, &ctx));
    assert_eq!(unify(ground, open, &mut sub, &ctx), Ok(()));
    assert_eq!(sub.as_slice(), &[(Variable(0), int)]);
    assert_eq!(apply(open, &sub, &mut ctx), ground);
    assert_eq!(
        unify(t0, open, &mut Substitution::with_capacity(0), &ctx),
        Err(UnificationError::Occurs(Variable(0)))
    );

    let mut ours = Source::default();
    ours.fresh();
    let mut theirs = Source::default();
    theirs.fresh();
    let change = ours.merge(theirs, vec![]);
    let moved = change.reify_type(open, &mut ctx);
    let t1 = ctx.intern_tvar(Variable(1));
    let mut sub = Substitution::with_capacity(1);
    assert_eq!(unify(moved, ground, &mut sub, &ctx), Ok(()));
    assert_eq!(sub.get(Variable(1)), Some(int));
    assert_eq!(polytype::shallow_resolve(t1, &sub, &ctx), int);

    let mono = ctx.intern_monotype(open);
    let scheme = ctx.intern_polytype(Variable(0), mono);
    let instance = instantiate(scheme, &mut ours, &mut ctx);
    assert_eq!(instance, change.reify_type(moved, &mut ctx));
}
