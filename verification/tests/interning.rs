use polytype::{with_ctx, Context, OwnedType, Schema, Ty, Type, TypeContext, TypeSchema, Variable};
use typed_arena::Arena;

fn con(ctx: &mut TypeContext, name: &str, args: &[Ty]) -> Ty {
    let head = ctx.intern_name(name);
    ctx.intern_tcon(head, args)
}

#[test]
fn equal_terms_get_the_same_handle() {
    let (a, b, c, d) = (Arena::new(), Arena::new(), Arena::new(), Arena::new());
    let mut ctx = TypeContext::new(Context::new(&a, &b, &c, &d));
    let int1 = con(&mut ctx, "int", &[]);
    let t0 = ctx.intern_tvar(Variable(0));
    let list1 = con(&mut ctx, "list", &[int1, t0]);
    let int2 = con(&mut ctx, "int", &[]);
    let t0_again = ctx.intern_tvar(Variable(0));
    let list2 = con(&mut ctx, "list", &[int2, t0_again]);
    assert_eq!(int1, int2);
    assert_eq!(t0, t0_again);
    assert_eq!(list1, list2);
}

#[test]
fn different_terms_get_different_handles() {
    let (a, b, c, d) = (Arena::new(), Arena::new(), Arena::new(), Arena::new());
    let mut ctx = TypeContext::new(Context::new(&a, &b, &c, &d));
    let int = con(&mut ctx, "int", &[]);
    let boolean = con(&mut ctx, "bool", &[]);
    let t0 = ctx.intern_tvar(Variable(0));
    let t1 = ctx.intern_tvar(Variable(1));
    let l1 = con(&mut ctx, "list", &[int]);
    let l2 = con(&mut ctx, "list", &[boolean]);
    let l3 = con(&mut ctx, "list", &[int, int]);
    let l4 = con(&mut ctx, "set", &[int]);
    let all = [int, boolean, t0, t1, l1, l2, l3, l4];
    for i in 0..all.len() {
        for j in 0..all.len() {
            assert_eq!(all[i] == all[j], i == j);
        }
    }
}

#[test]
fn names_are_kept_once() {
    let (a, b, c, d) = (Arena::new(), Arena::new(), Arena::new(), Arena::new());
    let mut ctx = TypeContext::new(Context::with_capacity(&a, &b, &c, &d, 16));
    let n1 = ctx.intern_name("list");
    let n2 = ctx.intern_name("set");
    let n3 = ctx.intern_name("list");
    assert_eq!(n1, n3);
    assert_ne!(n1, n2);
    assert_eq!(ctx.name(n1), "list");
    assert_eq!(ctx.name(n2), "set");
    assert!(ctx.contains_name(n2));
}

#[test]
fn stored_terms_can_be_read_back() {
    let (a, b, c, d) = (Arena::new(), Arena::new(), Arena::new(), Arena::new());
    let mut ctx = TypeContext::new(Context::new(&a, &b, &c, &d));
    let int = con(&mut ctx, "int", &[]);
    let t3 = ctx.intern_tvar(Variable(3));
    let head = ctx.intern_name("pair");
    let pair = ctx.intern_tcon(head, &[int, t3]);
    assert_eq!(ctx.get(t3), Type::Variable(Variable(3)));
    match ctx.get(pair) {
        Type::Constructed(h, args) => {
            assert_eq!(h, head);
            assert_eq!(ctx.args(args), &[int, t3]);
        }
        Type::Variable(_) => panic!("a constructed term was stored"),
    }
    assert!(ctx.contains_type(pair));
    assert!(!ctx.contains_type(Ty(1000)));
}

#[test]
fn argument_lists_are_kept_once() {
    let (a, b, c, d) = (Arena::new(), Arena::new(), Arena::new(), Arena::new());
    let mut ctx = TypeContext::new(Context::new(&a, &b, &c, &d));
    let int = con(&mut ctx, "int", &[]);
    let t0 = ctx.intern_tvar(Variable(0));
    let l1 = ctx.intern_args(&[int, t0]);
    let l2 = ctx.intern_args(&[t0, int]);
    let l3 = ctx.intern_args(&[int, t0]);
    let none = ctx.intern_args(&[]);
    assert_eq!(l1, l3);
    assert_ne!(l1, l2);
    assert_ne!(l1, none);
    assert_eq!(ctx.args(l2), &[t0, int]);
    assert_eq!(ctx.args(none), &[]);
}

#[test]
fn arrow_is_a_constructor_with_two_arguments() {
    let (a, b, c, d) = (Arena::new(), Arena::new(), Arena::new(), Arena::new());
    let mut ctx = TypeContext::new(Context::new(&a, &b, &c, &d));
    let int = con(&mut ctx, "int", &[]);
    let boolean = con(&mut ctx, "bool", &[]);
    let f = ctx.arrow(int, boolean);
    let g = con(&mut ctx, "\u{2192}", &[int, boolean]);
    assert_eq!(f, g);
    let h = ctx.arrow(boolean, int);
    assert_ne!(f, h);
}

#[test]
fn arrow_slice_groups_to_the_right() {
    let (a, b, c, d) = (Arena::new(), Arena::new(), Arena::new(), Arena::new());
    let mut ctx = TypeContext::new(Context::new(&a, &b, &c, &d));
    let t0 = ctx.intern_tvar(Variable(0));
    let t1 = ctx.intern_tvar(Variable(1));
    let t2 = ctx.intern_tvar(Variable(2));
    let t3 = ctx.intern_tvar(Variable(3));
    assert_eq!(ctx.arrow_slice(&[t0]), t0);
    let two = ctx.arrow_slice(&[t0, t1]);
    assert_eq!(two, ctx.arrow(t0, t1));
    let three = ctx.arrow_slice(&[t0, t1, t2]);
    let inner = ctx.arrow(t1, t2);
    assert_eq!(three, ctx.arrow(t0, inner));
    let four = ctx.arrow_slice(&[t0, t1, t2, t3]);
    let innermost = ctx.arrow(t2, t3);
    let inner = ctx.arrow(t1, innermost);
    assert_eq!(four, ctx.arrow(t0, inner));
}

#[test]
fn schemes_are_kept_once() {
    let (a, b, c, d) = (Arena::new(), Arena::new(), Arena::new(), Arena::new());
    let mut ctx = TypeContext::new(Context::new(&a, &b, &c, &d));
    let t0 = ctx.intern_tvar(Variable(0));
    let t1 = ctx.intern_tvar(Variable(1));
    let m0 = ctx.intern_monotype(t0);
    let m1 = ctx.intern_monotype(t1);
    let m0_again = ctx.intern_monotype(t0);
    assert_eq!(m0, m0_again);
    assert_ne!(m0, m1);
    let p0 = ctx.intern_polytype(Variable(0), m0);
    let p0_again = ctx.intern_polytype(Variable(0), m0);
    let p1 = ctx.intern_polytype(Variable(1), m0);
    let pp = ctx.intern_polytype(Variable(0), p0);
    assert_eq!(p0, p0_again);
    assert_ne!(p0, p1);
    assert_ne!(p0, pp);
    assert_ne!(p0, m0);
    assert_eq!(ctx.get_schema(m0), TypeSchema::Monotype(t0));
    assert_eq!(ctx.get_schema(pp), TypeSchema::Polytype(Variable(0), p0));
    assert!(ctx.contains_schema(pp));
    assert!(!ctx.contains_schema(Schema(77)));
}

#[test]
fn owned_trees_go_in_and_come_out() {
    let (a, b, c, d) = (Arena::new(), Arena::new(), Arena::new(), Arena::new());
    let mut ctx = TypeContext::new(Context::new(&a, &b, &c, &d));
    let tree = OwnedType::parse("map(str, t1 -> list(t0))").expect("a type");
    let handle = ctx.intern_owned(&tree);
    assert_eq!(ctx.to_owned_type(handle), tree);
    let str_type = con(&mut ctx, "str", &[]);
    let t0 = ctx.intern_tvar(Variable(0));
    let t1 = ctx.intern_tvar(Variable(1));
    let list = con(&mut ctx, "list", &[t0]);
    let f = ctx.arrow(t1, list);
    let by_hand = con(&mut ctx, "map", &[str_type, f]);
    assert_eq!(handle, by_hand);
}

#[test]
fn with_ctx_runs_on_a_new_context() {
    let shown = with_ctx(10, |mut ctx: TypeContext<'_>| {
        let t0 = ctx.intern_tvar(Variable(0));
        let int = con(&mut ctx, "int", &[]);
        let f = ctx.arrow_slice(&[t0, int]);
        assert_eq!(t0, Ty(0));
        ctx.to_owned_type(f).show()
    });
    assert_eq!(shown, "t0 \u{2192} int");
}

#[test]
fn test_ptp_macro() {
    let (a, b, c, d) = (Arena::new(), Arena::new(), Arena::new(), Arena::new());
    let mut ctx = TypeContext::new(Context::new(&a, &b, &c, &d));
    let boolean = con(&mut ctx, "bool", &[]);
    let mono = ctx.intern_monotype(boolean);
    assert_eq!(ctx.get_schema(mono), TypeSchema::Monotype(boolean));
    let list = con(&mut ctx, "list", &[boolean]);
    let mono = ctx.intern_monotype(list);
    assert_eq!(ctx.get_schema(mono), TypeSchema::Monotype(list));
    assert_eq!(
        ctx.to_owned_type(list),
        OwnedType::Constructed(
            "list".to_string(),
            vec![OwnedType::Constructed("bool".to_string(), vec![])]
        )
    );
    let t0 = ctx.intern_tvar(Variable(0));
    let body = ctx.intern_monotype(t0);
    let poly = ctx.intern_polytype(Variable(0), body);
    assert_eq!(ctx.get_schema(poly), TypeSchema::Polytype(Variable(0), body));
    assert_eq!(ctx.get_schema(body), TypeSchema::Monotype(t0));
    assert_eq!(ctx.get(t0), Type::Variable(Variable(0)));
    let f = ctx.arrow_slice(&[t0, t0]);
    let body = ctx.intern_monotype(f);
    let poly = ctx.intern_polytype(Variable(0), body);
    assert_eq!(ctx.get_schema(poly), TypeSchema::Polytype(Variable(0), body));
    assert_eq!(ctx.get_schema(body), TypeSchema::Monotype(f));
    assert_eq!(
        ctx.to_owned_type(f),
        OwnedType::Constructed(
            "\u{2192}".to_string(),
            vec![
                OwnedType::Variable(Variable(0)),
                OwnedType::Variable(Variable(0))
            ]
        )
    );
}

#[test]
fn an_interner_keeps_each_value_once() {
    let arena = Arena::new();
    let mut store: polytype::Interner<Type> = polytype::Interner::with_capacity(4);
    let a = store.intern(Type::Variable(Variable(5)), &arena);
    let b = store.intern(Type::Variable(Variable(6)), &arena);
    let c = store.intern(Type::Variable(Variable(5)), &arena);
    assert_eq!(a, 0);
    assert_eq!(b, 1);
    assert_eq!(c, a);
    assert_eq!(store.len(), 2);
    assert_eq!(*store.get(b), Type::Variable(Variable(6)));
    assert_eq!(arena.len(), 2);
}

#[test]
fn an_interner_of_names_goes_by_the_text() {
    let arena = Arena::new();
    let mut store: polytype::Interner<String> = Default::default();
    let a = store.intern("list".to_string(), &arena);
    let b = store.intern("\u{2192}".to_string(), &arena);
    let c = store.intern(String::from("list"), &arena);
    let d = store.intern(String::new(), &arena);
    assert_eq!((a, b, c, d), (0, 1, 0, 2));
    assert_eq!(store.get(b), "\u{2192}");
    assert_eq!(store.get(d), "");
}

#[test]
fn a_slice_interner_keeps_each_list_once() {
    let arena = Arena::new();
    let mut store = polytype::SliceInterner::with_capacity(0);
    let a = store.intern(&[Ty(1), Ty(2)], &arena);
    let b = store.intern(&[Ty(2), Ty(1)], &arena);
    let c = store.intern(&[], &arena);
    let d = store.intern(&[Ty(1), Ty(2)], &arena);
    let e = store.intern(&[Ty(1)], &arena);
    assert_eq!((a, b, c, d, e), (0, 1, 2, 0, 3));
    assert_eq!(store.get(a), &[Ty(1), Ty(2)]);
    assert_eq!(store.get(c), &[]);
    assert_eq!(store.len(), 4);
}

#[test]
fn a_capacity_above_the_limit_is_taken() {
    let (a, b, c, d) = (Arena::new(), Arena::new(), Arena::new(), Arena::new());
    let mut ctx = TypeContext::new(Context::with_capacity(&a, &b, &c, &d, usize::MAX));
    let t0 = ctx.intern_tvar(Variable(0));
    assert_eq!(t0, Ty(0));
    let sub = polytype::Substitution::with_capacity(usize::MAX);
    assert!(sub.is_empty());
    let n = with_ctx(usize::MAX, |mut ctx: TypeContext<'_>| ctx.intern_tvar(Variable(3)).0);
    assert_eq!(n, 0);
}
