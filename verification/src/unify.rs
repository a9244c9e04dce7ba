use crate::bindings::{
    acyclic, binds, depth, lemma_depth_bound, lemma_lookup, lemma_resolve_con, lemma_resolve_var,
    lemma_total_parts, lemma_weight_con, lemma_weight_positive, lemma_weight_var,
    lemma_weight_walk, occurs, resolve, resolve_all, single, starts, total, walk,
};
use crate::context::TypeContext;
use crate::outcome::{
    arg_pairs, bind_step, lemma_stack_args, lemma_stack_step, lemma_unified, lemma_unify_complete,
    lemma_unify_decides, lemma_unify_sound, unified, unify_stack, unify_steps, Failure,
};
use crate::solutions::{equalizes, solves, unifiable};
use crate::rebuild::{rebuild, Leaf};
use crate::substitution::Substitution;
use crate::term::{lemma_has_var_con, Term};
use crate::types::{Ty, Type, UnificationError, Variable};
use vstd::prelude::*;

verus! {

/// Whether the substitution `sub` may be used with the context `ctx`: it
/// binds variables to terms of `ctx`, no variable twice, and not in a circle.
pub open spec fn usable(sub: Seq<(Variable, Ty)>, ctx: &TypeContext) -> bool {
    &&& single(sub)
    &&& ctx.has_bindings(sub)
    &&& acyclic(ctx.bindings(sub))
}

/// The substitution that binds nothing may be used with every context.
pub proof fn lemma_usable_empty(ctx: &TypeContext)
    ensures
        usable(Seq::empty(), ctx),
{
    ctx.lemma_no_bindings();
    crate::bindings::lemma_empty_acyclic();
}

/// A substitution that may be used with a context may be used with every
/// context that grew out of it.
pub proof fn lemma_usable_extends(sub: Seq<(Variable, Ty)>, ctx: &TypeContext, before: &TypeContext)
    requires
        before.closed_under_parts(),
        ctx.extends(before),
        usable(sub, before),
    ensures
        usable(sub, ctx),
        ctx.bindings(sub) == before.bindings(sub),
{
    ctx.lemma_extends_bindings(before, sub);
}

/// A substitution that may be used with a context may still be used when
/// it is cut back to a checkpoint.
pub proof fn lemma_usable_rollback(sub: Seq<(Variable, Ty)>, n: nat, ctx: &TypeContext)
    requires
        usable(sub, ctx),
    ensures
        usable(crate::bindings::rolled_back(sub, n), ctx),
{
    let cut = crate::bindings::rolled_back(sub, n);
    crate::bindings::lemma_rollback_acyclic(ctx.bindings(sub), n);
    assert(ctx.bindings(cut) =~= crate::bindings::rolled_back(ctx.bindings(sub), n));
    assert forall|i: int| 0 <= i < cut.len() implies ctx.has_type((#[trigger] cut[i]).1) by {
        assert(cut[i] == sub[i]);
    }
    assert forall|i: int, j: int|
        0 <= i < cut.len() && 0 <= j < cut.len() && (#[trigger] cut[i]).0 == (#[trigger] cut[j]).0 implies i
        == j by {
        assert(cut[i] == sub[i]);
        assert(cut[j] == sub[j]);
    }
}

/// A substitution that may be used with a context may still be used when a
/// free variable is bound to a term of the context in which it does not occur.
pub proof fn lemma_usable_bind(sub: Seq<(Variable, Ty)>, v: Variable, t: Ty, ctx: &TypeContext)
    requires
        usable(sub, ctx),
        ctx.has_type(t),
        !binds(sub, v),
        !occurs(ctx.bindings(sub), v, ctx.term(t)),
    ensures
        usable(sub.push((v, t)), ctx),
{
    let s0 = ctx.bindings(sub);
    ctx.lemma_bindings_single(sub);
    ctx.lemma_bindings_lookup(sub, v);
    crate::bindings::lemma_bind_acyclic(s0, v, ctx.term(t));
    assert(ctx.bindings(sub.push((v, t))) =~= s0.push((v, ctx.term(t))));
    ctx.lemma_bindings_single(sub.push((v, t)));
}

/// Follows the bindings of `sub` from `t` until a free variable or a
/// constructed term is reached.
pub fn shallow_resolve(t: Ty, sub: &Substitution, ctx: &TypeContext) -> (r: Ty)
    requires
        ctx.wf(),
        usable(sub@, ctx),
        ctx.has_type(t),
    ensures
        ctx.has_type(r),
        ctx.term(r) == walk(ctx.bindings(sub@), ctx.term(t)),
        depth(ctx.bindings(sub@), ctx.term(r)) <= depth(ctx.bindings(sub@), ctx.term(t)),
        ctx.node(r) is Variable ==> !binds(sub@, ctx.node(r)->Variable_0),
{
    let ghost s = ctx.bindings(sub@);
    let mut cur = t;
    loop
        invariant
            ctx.wf(),
            usable(sub@, ctx),
            s == ctx.bindings(sub@),
            ctx.has_type(cur),
            walk(s, ctx.term(cur)) == walk(s, ctx.term(t)),
            depth(s, ctx.term(cur)) <= depth(s, ctx.term(t)),
        decreases depth(s, ctx.term(cur)),
    {
        match ctx.get(cur) {
            Type::Variable(v) => {
                proof {
                    ctx.lemma_bindings_lookup(sub@, v);
                    lemma_lookup(sub@, v);
                }
                match sub.get(v) {
                    Some(u) => {
                        proof {
                            lemma_depth_bound(s, v);
                        }
                        cur = u;
                    },
                    None => {
                        return cur;
                    },
                }
            },
            Type::Constructed(_, _) => {
                proof {
                    ctx.lemma_term_con(cur);
                }
                return cur;
            },
        }
    }
}

/// Whether the variable `v` stands in the term `t` once `t` is resolved
/// through `sub`. The terms still to be looked at are kept on a list, so
/// that a deep term takes no deep stack.
pub fn occurs_check(v: Variable, t: Ty, sub: &Substitution, ctx: &TypeContext) -> (found: bool)
    requires
        ctx.wf(),
        usable(sub@, ctx),
        ctx.has_type(t),
    ensures
        found == occurs(ctx.bindings(sub@), v, ctx.term(t)),
{
    let ghost s = ctx.bindings(sub@);
    let mut work: Vec<Ty> = Vec::new();
    work.push(t);
    assert(work@[0] == t);
    while work.len() > 0
        invariant
            ctx.wf(),
            usable(sub@, ctx),
            s == ctx.bindings(sub@),
            ctx.has_types(work@),
            occurs(s, v, ctx.term(t)) == exists|i: int|
                0 <= i < work@.len() && occurs(s, v, ctx.term(#[trigger] work@[i])),
        decreases total(s, ctx.terms(work@)),
    {
        let ghost before = work@;
        let cur = work.pop().unwrap();
        let ghost rest = work@;
        proof {
            assert(before =~= rest.push(cur));
            assert(ctx.terms(before).drop_last() =~= ctx.terms(rest));
            assert forall|i: int| 0 <= i < rest.len() implies ctx.has_type(#[trigger] rest[i]) by {
                assert(rest[i] == before[i]);
            }
            assert(cur == before[before.len() - 1]);
        }
        match ctx.get(cur) {
            Type::Variable(w) => {
                proof {
                    ctx.lemma_bindings_lookup(sub@, w);
                    lemma_resolve_var(s, w);
                    lemma_weight_var(s, w);
                }
                match sub.get(w) {
                    Some(u) => {
                        work.push(u);
                        proof {
                            assert(ctx.terms(work@).drop_last() =~= ctx.terms(rest));
                            assert(work@ =~= before.drop_last() + seq![u]);
                            assert(seq![u][0] == u);
                            lemma_pending(ctx, s, v, before, work@, cur, seq![u]);
                        }
                    },
                    None => {
                        if w == v {
                            return true;
                        }
                        proof {
                            assert(work@ =~= before.drop_last() + Seq::<Ty>::empty());
                            lemma_pending(ctx, s, v, before, work@, cur, Seq::empty());
                        }
                    },
                }
            },
            Type::Constructed(head, a) => {
                proof {
                    ctx.lemma_term_con(cur);
                }
                let args = ctx.args(a);
                let ghost terms = ctx.terms(args@);
                let mut j: usize = 0;
                proof {
                    assert(rest + args@.take(0) =~= rest);
                }
                while j < args.len()
                    invariant
                        j <= args.len(),
                        ctx.has_types(args@),
                        ctx.has_types(rest),
                        work@ == rest + args@.take(j as int),
                    decreases args.len() - j,
                {
                    work.push(args[j]);
                    j += 1;
                    proof {
                        assert(work@ =~= rest + args@.take(j as int));
                    }
                }
                proof {
                    assert(args@.take(j as int) =~= args@);
                    lemma_resolve_con(s, ctx.name_text(head), terms);
                    lemma_has_var_con(ctx.name_text(head), resolve_all(s, terms), v);
                    lemma_weight_con(s, ctx.name_text(head), terms);
                    assert(ctx.terms(work@) =~= ctx.terms(rest) + terms);
                    lemma_total_parts(s, ctx.terms(rest), terms);
                    if occurs(s, v, ctx.term(cur)) {
                        let k = choose|k: int|
                            0 <= k < terms.len() && (#[trigger] resolve_all(s, terms)[k]).has_var(v);
                        assert(occurs(s, v, ctx.term(args@[k])));
                    }
                    assert forall|k: int| 0 <= k < args@.len() && occurs(
                        s,
                        v,
                        ctx.term(#[trigger] args@[k]),
                    ) implies occurs(s, v, ctx.term(cur)) by {
                        assert(resolve_all(s, terms)[k].has_var(v));
                    }
                    assert(work@ =~= before.drop_last() + args@);
                    lemma_pending(ctx, s, v, before, work@, cur, args@);
                }
            },
        }
    }
    false
}

/// Replacing the last term of a list by terms of which one holds the
/// variable exactly when it does leaves the list with a term that holds
/// the variable exactly when it had one.
proof fn lemma_pending(
    ctx: &TypeContext,
    s: Seq<(Variable, Term)>,
    v: Variable,
    before: Seq<Ty>,
    after: Seq<Ty>,
    cur: Ty,
    parts: Seq<Ty>,
)
    requires
        before.len() > 0,
        cur == before.last(),
        after == before.drop_last() + parts,
        occurs(s, v, ctx.term(cur)) == exists|k: int|
            0 <= k < parts.len() && occurs(s, v, ctx.term(#[trigger] parts[k])),
        ctx.has_types(before),
        ctx.has_types(parts),
    ensures
        ctx.has_types(after),
        (exists|i: int| 0 <= i < before.len() && occurs(s, v, ctx.term(#[trigger] before[i])))
            == (exists|i: int| 0 <= i < after.len() && occurs(s, v, ctx.term(#[trigger] after[i]))),
{
    let rest = before.drop_last();
    assert forall|i: int| 0 <= i < after.len() implies ctx.has_type(#[trigger] after[i]) by {
        if i < rest.len() {
            assert(after[i] == before[i]);
        } else {
            assert(after[i] == parts[i - rest.len()]);
        }
    }
    if exists|i: int| 0 <= i < before.len() && occurs(s, v, ctx.term(#[trigger] before[i])) {
        let i = choose|i: int| 0 <= i < before.len() && occurs(s, v, ctx.term(#[trigger] before[i]));
        if i < rest.len() {
            assert(after[i] == before[i]);
        } else {
            let k = choose|k: int|
                0 <= k < parts.len() && occurs(s, v, ctx.term(#[trigger] parts[k]));
            assert(after[rest.len() + k] == parts[k]);
        }
    }
    if exists|i: int| 0 <= i < after.len() && occurs(s, v, ctx.term(#[trigger] after[i])) {
        let i = choose|i: int| 0 <= i < after.len() && occurs(s, v, ctx.term(#[trigger] after[i]));
        if i < rest.len() {
            assert(after[i] == before[i]);
        } else {
            assert(after[i] == parts[i - rest.len()]);
            assert(occurs(s, v, ctx.term(cur)));
            assert(before[before.len() - 1] == cur);
        }
    }
}

/// The handle of the term `t` resolved through `sub`: every bound variable
/// replaced by what it is bound to, until only free variables are left.
pub fn apply(t: Ty, sub: &Substitution, ctx: &mut TypeContext) -> (r: Ty)
    requires
        old(ctx).wf(),
        usable(sub@, old(ctx)),
        old(ctx).has_type(t),
    ensures
        final(ctx).wf(),
        final(ctx).extends(old(ctx)),
        final(ctx).has_type(r),
        final(ctx).term(r) == resolve(old(ctx).bindings(sub@), old(ctx).term(t)),
        final(ctx).scheme_nodes() == old(ctx).scheme_nodes(),
{
    rebuild(t, &Leaf::Resolve(sub), ctx)
}

/// The failure of a result, with the terms that its handles stand for.
pub open spec fn failure(ctx: &TypeContext, res: Result<(), UnificationError>) -> Option<Failure> {
    match res {
        Ok(_) => None,
        Err(UnificationError::Occurs(v)) => Some(Failure::Occurs(v)),
        Err(UnificationError::Mismatch(a, b)) => Some(Failure::Mismatch(ctx.term(a), ctx.term(b))),
    }
}

/// The places of the variables of `ctx` that `s` leaves free.
pub open spec fn free_nodes(ctx: &TypeContext, s: Seq<(Variable, Ty)>) -> Set<int> {
    Set::new(
        |i: int|
            0 <= i < ctx.nodes().len() && ctx.nodes()[i] is Variable && !binds(
                s,
                ctx.nodes()[i]->Variable_0,
            ),
    )
}

/// A longer list of bindings leaves no more variables free.
pub proof fn lemma_free_nodes_starts(ctx: &TypeContext, long: Seq<(Variable, Ty)>, s: Seq<(Variable, Ty)>)
    requires
        starts(long, s),
    ensures
        free_nodes(ctx, s).finite(),
        free_nodes(ctx, long).len() <= free_nodes(ctx, s).len(),
{
    let range = vstd::set_lib::set_int_range(0, ctx.nodes().len() as int);
    vstd::set_lib::lemma_int_range(0, ctx.nodes().len() as int);
    assert(free_nodes(ctx, s).subset_of(range));
    vstd::set_lib::lemma_len_subset(free_nodes(ctx, s), range);
    assert forall|i: int| free_nodes(ctx, long).contains(i) implies free_nodes(ctx, s).contains(
        i,
    ) by {
        let v = ctx.nodes()[i]->Variable_0;
        if binds(s, v) {
            let k = choose|k: int| 0 <= k < s.len() && (#[trigger] s[k]).0 == v;
            assert(long[k].0 == v);
        }
    }
    vstd::set_lib::lemma_len_subset(free_nodes(ctx, long), free_nodes(ctx, s));
}

/// Binding a free variable of the context leaves fewer variables free.
pub proof fn lemma_free_nodes_bind(
    ctx: &TypeContext,
    s: Seq<(Variable, Ty)>,
    v: Variable,
    t: Ty,
    at: Ty,
)
    requires
        ctx.has_type(at),
        ctx.node(at) == Type::Variable(v),
        !binds(s, v),
    ensures
        free_nodes(ctx, s.push((v, t))).len() < free_nodes(ctx, s).len(),
{
    let long = s.push((v, t));
    lemma_free_nodes_starts(ctx, long, s);
    let fewer = free_nodes(ctx, s).remove(at.0 as int);
    assert(free_nodes(ctx, s).contains(at.0 as int));
    assert forall|i: int| free_nodes(ctx, long).contains(i) implies fewer.contains(i) by {
        let w = ctx.nodes()[i]->Variable_0;
        if binds(s, w) {
            let k = choose|k: int| 0 <= k < s.len() && (#[trigger] s[k]).0 == w;
            assert(long[k].0 == w);
        }
        if i == at.0 {
            assert(long[s.len() as int].0 == v);
        }
    }
    vstd::set_lib::lemma_len_subset(free_nodes(ctx, long), fewer);
}

/// Binds the free variable `v`, which stands at `at`, to the term `t`, unless `v` occurs in `t`.
fn bind(v: Variable, at: Ty, t: Ty, sub: &mut Substitution, ctx: &TypeContext) -> (res: Result<
    (),
    UnificationError,
>)
    requires
        ctx.wf(),
        usable(old(sub)@, ctx),
        ctx.has_type(at),
        ctx.node(at) == Type::Variable(v),
        !binds(old(sub)@, v),
        ctx.has_type(t),
    ensures
        usable(final(sub)@, ctx),
        starts(final(sub)@, old(sub)@),
        final(sub)@ == old(sub)@ || free_nodes(ctx, final(sub)@).len() < free_nodes(
            ctx,
            old(sub)@,
        ).len(),
        (ctx.bindings(final(sub)@), failure(ctx, res)) == bind_step(
            ctx.bindings(old(sub)@),
            v,
            ctx.term(t),
        ),
{
    if occurs_check(v, t, sub, ctx) {
        Err(UnificationError::Occurs(v))
    } else {
        let added = sub.add(v, t);
        proof {
            let s0 = ctx.bindings(old(sub)@);
            ctx.lemma_bindings_single(old(sub)@);
            ctx.lemma_bindings_lookup(old(sub)@, v);
            crate::bindings::lemma_bind_acyclic(s0, v, ctx.term(t));
            assert(ctx.bindings(sub@) =~= s0.push((v, ctx.term(t))));
            ctx.lemma_bindings_single(sub@);
            lemma_free_nodes_bind(ctx, old(sub)@, v, t, at);
        }
        Ok(())
    }
}

/// The pairs of terms that the pairs of handles of a stack stand for.
pub open spec fn pair_terms(ctx: &TypeContext, work: Seq<(Ty, Ty)>) -> Seq<(Term, Term)> {
    Seq::new(work.len(), |i: int| (ctx.term(work[i].0), ctx.term(work[i].1)))
}

/// The terms that the left handles of a stack of pairs stand for.
pub open spec fn left_terms(ctx: &TypeContext, work: Seq<(Ty, Ty)>) -> Seq<Term> {
    Seq::new(work.len(), |i: int| ctx.term(work[i].0))
}

/// Whether every handle of a stack of pairs is the handle of a term of the context.
pub open spec fn has_pairs(ctx: &TypeContext, work: Seq<(Ty, Ty)>) -> bool {
    forall|i: int|
        0 <= i < work.len() ==> ctx.has_type((#[trigger] work[i]).0) && ctx.has_type(work[i].1)
}

/// Whether what the stack `pairs` comes to under the bindings `cur` is
/// what unifying `l` with `r` under the bindings `s` comes to.
pub open spec fn leads(
    s: Seq<(Variable, Term)>,
    l: Term,
    r: Term,
    cur: Seq<(Variable, Term)>,
    pairs: Seq<(Term, Term)>,
) -> bool {
    forall|f: nat| #[trigger]
        unify_stack(cur, pairs, f) is Some ==> exists|g: nat|
            unify_steps(s, l, r, g) == unify_stack(cur, pairs, f)
}

/// The left sides of the pairs of arguments weigh what the left arguments weigh.
proof fn lemma_arg_pairs_weight(
    s: Seq<(Variable, Term)>,
    ls: Seq<Term>,
    rs: Seq<Term>,
    i: nat,
)
    requires
        i <= ls.len(),
    ensures
        arg_pairs(ls, rs, i).len() == ls.len() - i,
        total(s, ls.take(i as int)) + total(
            s,
            Seq::new(arg_pairs(ls, rs, i).len(), |k: int| arg_pairs(ls, rs, i)[k].0),
        ) == total(s, ls),
    decreases ls.len() - i,
{
    let lefts = Seq::new(arg_pairs(ls, rs, i).len(), |k: int| arg_pairs(ls, rs, i)[k].0);
    if i >= ls.len() {
        assert(ls.take(i as int) =~= ls);
    } else {
        lemma_arg_pairs_weight(s, ls, rs, i + 1);
        let fewer = Seq::new(
            arg_pairs(ls, rs, i + 1).len(),
            |k: int| arg_pairs(ls, rs, i + 1)[k].0,
        );
        assert(lefts.drop_last() =~= fewer);
        assert(lefts.last() == ls[i as int]);
        assert(ls.take(i as int + 1).drop_last() =~= ls.take(i as int));
    }
}

/// Unifies `l` with `r`; see `unify`. The pairs still to be unified are
/// kept on a stack, so that a deep term takes no deep stack of calls.
fn unify_pairs(l: Ty, r: Ty, sub: &mut Substitution, ctx: &TypeContext) -> (res: Result<
    (),
    UnificationError,
>)
    requires
        ctx.wf(),
        usable(old(sub)@, ctx),
        ctx.has_type(l),
        ctx.has_type(r),
    ensures
        usable(final(sub)@, ctx),
        starts(final(sub)@, old(sub)@),
        exists|fuel: nat|
            unify_steps(ctx.bindings(old(sub)@), ctx.term(l), ctx.term(r), fuel) == Some(
                (ctx.bindings(final(sub)@), failure(ctx, res)),
            ),
{
    let ghost s0 = ctx.bindings(sub@);
    let ghost lt = ctx.term(l);
    let ghost rt = ctx.term(r);
    let mut work: Vec<(Ty, Ty)> = Vec::new();
    work.push((l, r));
    proof {
        assert(work@[0] == (l, r));
        assert forall|f: nat| #[trigger] unify_stack(s0, pair_terms(ctx, work@), f) is Some implies exists|
            g: nat,
        |
            unify_steps(s0, lt, rt, g) == unify_stack(s0, pair_terms(ctx, work@), f) by {
            let pairs = pair_terms(ctx, work@);
            assert(pairs.last() == (lt, rt));
            assert(pairs.drop_last() =~= Seq::<(Term, Term)>::empty());
            match unify_steps(s0, lt, rt, f) {
                Some((s1, None)) => {
                    assert(unify_stack(s1, pairs.drop_last(), f) == Some((s1, None::<Failure>)));
                },
                _ => {},
            }
            assert(unify_steps(s0, lt, rt, f) == unify_stack(s0, pairs, f));
        }
    }
    while work.len() > 0
        invariant
            ctx.wf(),
            usable(sub@, ctx),
            starts(sub@, old(sub)@),
            has_pairs(ctx, work@),
            s0 == ctx.bindings(old(sub)@),
            lt == ctx.term(l),
            rt == ctx.term(r),
            leads(s0, lt, rt, ctx.bindings(sub@), pair_terms(ctx, work@)),
        decreases
                free_nodes(ctx, sub@).len(),
                total(ctx.bindings(sub@), left_terms(ctx, work@)),
    {
        let ghost s = ctx.bindings(sub@);
        let ghost before = work@;
        let ghost at_entry = sub@;
        let (l0, r0) = work.pop().unwrap();
        let ghost rest = work@;
        let ghost pairs = pair_terms(ctx, before);
        let ghost others = pair_terms(ctx, rest);
        let ghost a0 = ctx.term(l0);
        let ghost b0 = ctx.term(r0);
        proof {
            assert(before =~= rest.push((l0, r0)));
            assert(before[before.len() - 1] == (l0, r0));
            assert(pairs =~= others.push((a0, b0)));
            assert(left_terms(ctx, before) =~= left_terms(ctx, rest).push(a0));
            assert(left_terms(ctx, before).drop_last() =~= left_terms(ctx, rest));
            assert forall|i: int| 0 <= i < rest.len() implies ctx.has_type((#[trigger] rest[i]).0)
                && ctx.has_type(rest[i].1) by {
                assert(rest[i] == before[i]);
            }
            lemma_weight_positive(s, a0);
            lemma_weight_walk(s, a0);
        }
        let a = shallow_resolve(l0, sub, ctx);
        let b = shallow_resolve(r0, sub, ctx);
        let mut same = false;
        let mut step: Option<Result<(), UnificationError>> = None;
        match ctx.get(a) {
            Type::Variable(v) => {
                match ctx.get(b) {
                    Type::Variable(w) => {
                        if v == w {
                            same = true;
                        }
                    },
                    Type::Constructed(_, _) => {
                        proof {
                            ctx.lemma_term_con(b);
                        }
                    },
                }
                if !same {
                    step = Some(bind(v, a, b, sub, ctx));
                }
            },
            Type::Constructed(h1, a1) => {
                proof {
                    ctx.lemma_term_con(a);
                }
                match ctx.get(b) {
                    Type::Variable(w) => {
                        step = Some(bind(w, b, a, sub, ctx));
                    },
                    Type::Constructed(h2, a2) => {
                        proof {
                            ctx.lemma_term_con(b);
                            ctx.lemma_names_kept_once(h1, h2);
                        }
                        let ls = ctx.args(a1);
                        let rs = ctx.args(a2);
                        let ghost lts = ctx.terms(ls@);
                        let ghost rts = ctx.terms(rs@);
                        if h1 != h2 || ls.len() != rs.len() {
                            step = Some(Err(UnificationError::Mismatch(a, b)));
                            assert(unify_steps(s, a0, b0, 1) == Some(
                                (s, Some(Failure::Mismatch(ctx.term(a), ctx.term(b)))),
                            ));
                        } else {
                            let n = ls.len();
                            let mut j: usize = n;
                            proof {
                                assert(arg_pairs(lts, rts, n as nat) =~= Seq::<(Term, Term)>::empty());
                                assert(others + arg_pairs(lts, rts, n as nat) =~= others);
                            }
                            while j > 0
                                invariant
                                    j <= n,
                                    n == ls@.len(),
                                    n == rs@.len(),
                                    ctx.has_types(ls@),
                                    ctx.has_types(rs@),
                                    lts == ctx.terms(ls@),
                                    rts == ctx.terms(rs@),
                                    others == pair_terms(ctx, rest),
                                    has_pairs(ctx, work@),
                                    work@.len() == rest.len() + (n - j),
                                    pair_terms(ctx, work@) == others + arg_pairs(lts, rts, j as nat),
                                decreases j,
                            {
                                j -= 1;
                                let ghost prev = work@;
                                work.push((ls[j], rs[j]));
                                proof {
                                    assert(arg_pairs(lts, rts, j as nat) == arg_pairs(
                                        lts,
                                        rts,
                                        (j + 1) as nat,
                                    ).push((lts[j as int], rts[j as int])));
                                    assert(pair_terms(ctx, work@) =~= pair_terms(ctx, prev).push(
                                        (lts[j as int], rts[j as int]),
                                    ));
                                    assert(pair_terms(ctx, work@) =~= others + arg_pairs(
                                        lts,
                                        rts,
                                        j as nat,
                                    ));
                                    assert forall|i: int| 0 <= i < work@.len() implies ctx.has_type(
                                        (#[trigger] work@[i]).0,
                                    ) && ctx.has_type(work@[i].1) by {
                                        if i < prev.len() {
                                            assert(work@[i] == prev[i]);
                                        }
                                    }
                                }
                            }
                            proof {
                                let now = pair_terms(ctx, work@);
                                assert forall|f: nat| #[trigger] unify_stack(s, now, f) is Some implies exists|
                                    g: nat,
                                |
                                    unify_steps(s0, lt, rt, g) == unify_stack(s, now, f) by {
                                    lemma_stack_args(s, others, a0, b0, f);
                                    assert(unify_stack(s, pairs, f + 1) is Some);
                                }
                                lemma_arg_pairs_weight(s, lts, rts, 0);
                                lemma_weight_con(s, ctx.name_text(h1), lts);
                                let lefts = Seq::new(
                                    arg_pairs(lts, rts, 0).len(),
                                    |k: int| arg_pairs(lts, rts, 0)[k].0,
                                );
                                assert(left_terms(ctx, work@) =~= left_terms(ctx, rest) + lefts) by {
                                    assert forall|i: int| 0 <= i < work@.len() implies left_terms(
                                        ctx,
                                        work@,
                                    )[i] == (left_terms(ctx, rest) + lefts)[i] by {
                                        assert(now[i] == (others + arg_pairs(lts, rts, 0))[i]);
                                    }
                                }
                                lemma_total_parts(s, left_terms(ctx, rest), lefts);
                                assert(lts.take(0) =~= Seq::<Term>::empty());
                            }
                        }
                    },
                }
            },
        }
        if same {
            proof {
                assert(unify_steps(s, a0, b0, 1) == Some((s, None::<Failure>)));
                assert forall|f: nat| #[trigger] unify_stack(s, others, f) is Some implies exists|
                    g: nat,
                |
                    unify_steps(s0, lt, rt, g) == unify_stack(s, others, f) by {
                    lemma_stack_step(s, others, a0, b0, s, f);
                    assert(unify_stack(s, pairs, f + 1) is Some);
                }
            }
        }
        match step {
            Some(res) => {
                let ghost after = ctx.bindings(sub@);
                proof {
                    assert(unify_steps(s, a0, b0, 1) == Some((after, failure(ctx, res))));
                }
                match res {
                    Err(e) => {
                        proof {
                            assert(pairs.drop_last() =~= others);
                            assert(unify_stack(s, pairs, 1) == Some((after, failure(ctx, res))));
                        }
                        return Err(e);
                    },
                    Ok(_) => {
                        proof {
                            assert forall|f: nat| #[trigger] unify_stack(after, others, f) is Some implies exists|
                                g: nat,
                            |
                                unify_steps(s0, lt, rt, g) == unify_stack(after, others, f) by {
                                lemma_stack_step(s, others, a0, b0, after, f);
                                assert(unify_stack(s, pairs, f + 1) is Some);
                            }
                            assert(after.len() == s.len() + 1);
                            assert(sub@.len() != at_entry.len());
                        }
                    },
                }
            },
            None => {},
        }
    }
    proof {
        let cur = ctx.bindings(sub@);
        let pairs = pair_terms(ctx, work@);
        assert(unify_stack(cur, pairs, 0) == Some((cur, None::<Failure>)));
    }
    Ok(())
}

/// Unifies `l` with `r`: extends `sub` so that both resolve to the same
/// term, or says why that cannot be done. Bindings that were made before a
/// failure was met stay.
pub fn unify(l: Ty, r: Ty, sub: &mut Substitution, ctx: &TypeContext) -> (res: Result<
    (),
    UnificationError,
>)
    requires
        ctx.wf(),
        usable(old(sub)@, ctx),
        ctx.has_type(l),
        ctx.has_type(r),
    ensures
        usable(final(sub)@, ctx),
        starts(final(sub)@, old(sub)@),
        (ctx.bindings(final(sub)@), failure(ctx, res)) == unified(
            ctx.bindings(old(sub)@),
            ctx.term(l),
            ctx.term(r),
        ),
        res is Ok ==> resolve(ctx.bindings(final(sub)@), ctx.term(l)) == resolve(
            ctx.bindings(final(sub)@),
            ctx.term(r),
        ),
        res is Ok <==> unifiable(ctx.bindings(old(sub)@), ctx.term(l), ctx.term(r)),
        res is Ok ==> forall|f: spec_fn(Variable) -> Term| #[trigger]
            solves(f, ctx.bindings(final(sub)@)) <==> solves(f, ctx.bindings(old(sub)@))
                && equalizes(f, ctx.term(l), ctx.term(r)),
{
    let res = unify_pairs(l, r, sub, ctx);
    proof {
        let s0 = ctx.bindings(old(sub)@);
        let out = Some((ctx.bindings(sub@), failure(ctx, res)));
        let fuel = choose|fuel: nat| unify_steps(s0, ctx.term(l), ctx.term(r), fuel) == out;
        lemma_unified(s0, ctx.term(l), ctx.term(r), fuel);
        ctx.lemma_bindings_single(old(sub)@);
        lemma_unify_sound(s0, ctx.term(l), ctx.term(r), fuel);
        lemma_unify_complete(s0, ctx.term(l), ctx.term(r), fuel);
        lemma_unify_decides(s0, ctx.term(l), ctx.term(r), fuel);
    }
    res
}

} // verus!
