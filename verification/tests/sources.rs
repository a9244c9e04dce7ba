use polytype::{instantiate, instantiate_owned, unify, Context, OwnedType, Source, Substitution, Ty, TypeContext, Variable};
use typed_arena::Arena;

fn con(ctx: &mut TypeContext, name: &str, args: &[Ty]) -> Ty {
    let head = ctx.intern_name(name);
    ctx.intern_tcon(head, args)
}

#[test]
fn fresh_counts_up_from_zero() {
    let mut src = Source::default();
    assert_eq!(src.fresh(), 0);
    assert_eq!(src.fresh(), 1);
    assert_eq!(src.fresh(), 2);
}

#[test]
fn merge_makes_room_for_the_whole_other_source() {
    let (a, b, c, d) = (Arena::new(), Arena::new(), Arena::new(), Arena::new());
    let mut ctx = TypeContext::new(Context::new(&a, &b, &c, &d));
    let mut ours = Source::default();
    ours.fresh();
    ours.fresh();
    ours.fresh();
    let mut theirs = Source::default();
    theirs.fresh();
    theirs.fresh();
    let change = ours.merge(theirs, vec![]);
    assert_eq!(ours.fresh(), 5);
    let t1 = ctx.intern_tvar(Variable(1));
    let moved = change.reify_type(t1, &mut ctx);
    assert_eq!(moved, ctx.intern_tvar(Variable(4)));
}

#[test]
fn reify_moves_all_but_sacred_variables() {
    let (a, b, c, d) = (Arena::new(), Arena::new(), Arena::new(), Arena::new());
    let mut ctx = TypeContext::new(Context::new(&a, &b, &c, &d));
    let mut ours = Source::default();
    for _ in 0..10 {
        ours.fresh();
    }
    let mut theirs = Source::default();
    for _ in 0..3 {
        theirs.fresh();
    }
    let change = ours.merge(theirs, vec![Variable(1)]);
    assert!(change.is_sacred(Variable(1)));
    assert!(!change.is_sacred(Variable(0)));
    let t0 = ctx.intern_tvar(Variable(0));
    let t1 = ctx.intern_tvar(Variable(1));
    let t2 = ctx.intern_tvar(Variable(2));
    let int = con(&mut ctx, "int", &[]);
    let pair = con(&mut ctx, "pair", &[t0, t1]);
    let term = ctx.arrow_slice(&[pair, int, t2]);
    let moved = change.reify_type(term, &mut ctx);
    let n0 = ctx.intern_tvar(Variable(10));
    let n2 = ctx.intern_tvar(Variable(12));
    let new_pair = con(&mut ctx, "pair", &[n0, t1]);
    let expected = ctx.arrow_slice(&[new_pair, int, n2]);
    assert_eq!(moved, expected);
    assert_eq!(change.reify_type(int, &mut ctx), int);
}

#[test]
fn reify_moves_the_quantifiers_of_a_scheme_with_its_variables() {
    let (a, b, c, d) = (Arena::new(), Arena::new(), Arena::new(), Arena::new());
    let mut ctx = TypeContext::new(Context::new(&a, &b, &c, &d));
    let mut ours = Source::default();
    for _ in 0..4 {
        ours.fresh();
    }
    let mut theirs = Source::default();
    for _ in 0..2 {
        theirs.fresh();
    }
    let change = ours.merge(theirs, vec![Variable(1)]);
    let t0 = ctx.intern_tvar(Variable(0));
    let t1 = ctx.intern_tvar(Variable(1));
    let body = ctx.arrow(t0, t1);
    let mono = ctx.intern_monotype(body);
    let inner = ctx.intern_polytype(Variable(1), mono);
    let schema = ctx.intern_polytype(Variable(0), inner);
    let moved = change.reify_typeschema(schema, &mut ctx);
    let n0 = ctx.intern_tvar(Variable(4));
    let new_body = ctx.arrow(n0, t1);
    let new_mono = ctx.intern_monotype(new_body);
    let new_inner = ctx.intern_polytype(Variable(1), new_mono);
    let expected = ctx.intern_polytype(Variable(4), new_inner);
    assert_eq!(moved, expected);
}

#[test]
fn merged_terms_do_not_meet_by_accident() {
    let (a, b, c, d) = (Arena::new(), Arena::new(), Arena::new(), Arena::new());
    let mut ctx = TypeContext::new(Context::new(&a, &b, &c, &d));
    // ours: list(t0), theirs: list(t0 -> t1), with different meanings of t0
    let mut ours = Source::default();
    let v = Variable(ours.fresh());
    let mut theirs = Source::default();
    let w0 = Variable(theirs.fresh());
    let w1 = Variable(theirs.fresh());
    let ours_t0 = ctx.intern_tvar(v);
    let our_term = con(&mut ctx, "list", &[ours_t0]);
    let their_t0 = ctx.intern_tvar(w0);
    let their_t1 = ctx.intern_tvar(w1);
    let f = ctx.arrow(their_t0, their_t1);
    let their_term = con(&mut ctx, "list", &[f]);
    // without the renaming the two cannot be unified: t0 would hold itself
    let mut sub = Substitution::with_capacity(1);
    assert!(unify(our_term, their_term, &mut sub, &ctx).is_err());
    // with it they can
    let change = ours.merge(theirs, vec![]);
    let moved = change.reify_type(their_term, &mut ctx);
    let mut sub = Substitution::with_capacity(1);
    assert!(unify(our_term, moved, &mut sub, &ctx).is_ok());
    let m0 = ctx.intern_tvar(Variable(1));
    let m1 = ctx.intern_tvar(Variable(2));
    assert_eq!(sub.get(v), Some(ctx.arrow(m0, m1)));
    assert_eq!(ours.fresh(), 3);
}

#[test]
fn instantiate_twice_gives_variables_apart() {
    let (a, b, c, d) = (Arena::new(), Arena::new(), Arena::new(), Arena::new());
    let mut ctx = TypeContext::new(Context::new(&a, &b, &c, &d));
    let mut src = Source::default();
    let t0 = ctx.intern_tvar(Variable(0));
    let t1 = ctx.intern_tvar(Variable(1));
    let body = ctx.arrow_slice(&[t0, t1, t0]);
    let mono = ctx.intern_monotype(body);
    let inner = ctx.intern_polytype(Variable(1), mono);
    let schema = ctx.intern_polytype(Variable(0), inner);
    src.fresh();
    src.fresh();
    let first = instantiate(schema, &mut src, &mut ctx);
    let second = instantiate(schema, &mut src, &mut ctx);
    let v2 = ctx.intern_tvar(Variable(2));
    let v3 = ctx.intern_tvar(Variable(3));
    let v4 = ctx.intern_tvar(Variable(4));
    let v5 = ctx.intern_tvar(Variable(5));
    assert_eq!(first, ctx.arrow_slice(&[v2, v3, v2]));
    assert_eq!(second, ctx.arrow_slice(&[v4, v5, v4]));
    assert_eq!(src.fresh(), 6);
}

#[test]
fn instantiate_keeps_free_variables_and_lets_the_inner_quantifier_count() {
    let (a, b, c, d) = (Arena::new(), Arena::new(), Arena::new(), Arena::new());
    let mut ctx = TypeContext::new(Context::new(&a, &b, &c, &d));
    let mut src = Source::default();
    for _ in 0..10 {
        src.fresh();
    }
    let t0 = ctx.intern_tvar(Variable(0));
    let t7 = ctx.intern_tvar(Variable(7));
    let body = ctx.arrow(t0, t7);
    let mono = ctx.intern_monotype(body);
    let inner = ctx.intern_polytype(Variable(0), mono);
    let schema = ctx.intern_polytype(Variable(0), inner);
    let t = instantiate(schema, &mut src, &mut ctx);
    let v11 = ctx.intern_tvar(Variable(11));
    assert_eq!(t, ctx.arrow(v11, t7));
    assert_eq!(src.fresh(), 12);
    // a scheme without quantifiers is its term
    assert_eq!(instantiate(mono, &mut src, &mut ctx), body);
    assert_eq!(src.fresh(), 13);
}

#[test]
fn instantiate_owned_gives_the_tree_of_the_instance() {
    let (a, b, c, d) = (Arena::new(), Arena::new(), Arena::new(), Arena::new());
    let mut ctx = TypeContext::new(Context::new(&a, &b, &c, &d));
    let t0 = ctx.intern_tvar(Variable(0));
    let t1 = ctx.intern_tvar(Variable(1));
    let list = con(&mut ctx, "list", &[t0]);
    let body = ctx.arrow_slice(&[t1, list, t1]);
    let mono = ctx.intern_monotype(body);
    let inner = ctx.intern_polytype(Variable(1), mono);
    let schema = ctx.intern_polytype(Variable(0), inner);
    let mut src = Source::default();
    src.fresh();
    src.fresh();
    let mut same = src;
    let tree = instantiate_owned(schema, &mut src, &ctx);
    assert_eq!(tree, OwnedType::parse("t3 -> list(t2) -> t3").expect("a type"));
    let handle = instantiate(schema, &mut same, &mut ctx);
    assert_eq!(ctx.to_owned_type(handle), tree);
    assert_eq!(src, same);
}
