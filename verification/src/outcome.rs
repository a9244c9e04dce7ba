use crate::bindings::{
    acyclic, lemma_lookup, lemma_resolve_con, lemma_resolve_more, lemma_resolve_var, lemma_walk,
    occurs, resolve, resolve_all, single, starts, walk,
};
use crate::solutions::{
    equalizes, equalizes_from, lemma_equalizes_con, lemma_resolve_solves, lemma_solution_resolve,
    lemma_solution_walk, lemma_solves_push, lemma_subst_con, lemma_subst_height, resolving,
    solves, subst, subst_all, unifiable,
};
use crate::term::Term;
use crate::types::Variable;
use vstd::prelude::*;

verus! {

/// Why two terms cannot be unified, over terms instead of handles.
pub enum Failure {
    Occurs(Variable),
    Mismatch(Term, Term),
}

/// The outcome of binding the free variable `v` to the term `t`: refused if
/// `v` occurs in `t`, else one more binding.
pub open spec fn bind_step(s: Seq<(Variable, Term)>, v: Variable, t: Term) -> (
    Seq<(Variable, Term)>,
    Option<Failure>,
) {
    if occurs(s, v, t) {
        (s, Some(Failure::Occurs(v)))
    } else {
        (s.push((v, t)), None)
    }
}

/// The outcome of unifying `l` with `r` under the bindings `s`, if it can be
/// reached without nesting argument lists deeper than `fuel`: the bindings
/// afterwards, and the failure if there was one.
pub open spec fn unify_steps(s: Seq<(Variable, Term)>, l: Term, r: Term, fuel: nat) -> Option<
    (Seq<(Variable, Term)>, Option<Failure>),
>
    decreases fuel, 0int,
{
    if fuel == 0 {
        None
    } else {
        let a = walk(s, l);
        let b = walk(s, r);
        match (a, b) {
            (Term::Var(v), Term::Var(w)) => if v == w {
                Some((s, None))
            } else {
                Some(bind_step(s, v, b))
            },
            (Term::Var(v), Term::Con(_, _)) => Some(bind_step(s, v, b)),
            (Term::Con(_, _), Term::Var(w)) => Some(bind_step(s, w, a)),
            (Term::Con(h1, a1), Term::Con(h2, a2)) => if h1 != h2 || a1.len() != a2.len() {
                Some((s, Some(Failure::Mismatch(a, b))))
            } else {
                unify_args_steps(s, a1, a2, 0, (fuel - 1) as nat)
            },
        }
    }
}

/// The outcome of unifying the arguments from place `i` on, pair by pair
/// from the left, each pair under the bindings that the pairs before it
/// left, stopping at the first failure.
pub open spec fn unify_args_steps(
    s: Seq<(Variable, Term)>,
    ls: Seq<Term>,
    rs: Seq<Term>,
    i: nat,
    fuel: nat,
) -> Option<(Seq<(Variable, Term)>, Option<Failure>)>
    decreases fuel, ls.len() - i + 1,
{
    if i >= ls.len() {
        Some((s, None))
    } else {
        match unify_steps(s, ls[i as int], rs[i as int], fuel) {
            None => None,
            Some((s1, Some(e))) => Some((s1, Some(e))),
            Some((s1, None)) => unify_args_steps(s1, ls, rs, i + 1, fuel),
        }
    }
}

/// The outcome of unifying the pairs of a stack, the last pair first, each
/// pair under the bindings that the pairs before it left, stopping at the
/// first failure.
pub open spec fn unify_stack(s: Seq<(Variable, Term)>, stack: Seq<(Term, Term)>, fuel: nat) -> Option<
    (Seq<(Variable, Term)>, Option<Failure>),
>
    decreases stack.len(),
{
    if stack.len() == 0 {
        Some((s, None))
    } else {
        match unify_steps(s, stack.last().0, stack.last().1, fuel) {
            None => None,
            Some((s1, Some(e))) => Some((s1, Some(e))),
            Some((s1, None)) => unify_stack(s1, stack.drop_last(), fuel),
        }
    }
}

/// The pairs of arguments from place `i` on as a stack: the pair at `i` last.
pub open spec fn arg_pairs(ls: Seq<Term>, rs: Seq<Term>, i: nat) -> Seq<(Term, Term)>
    decreases ls.len() - i,
{
    if i >= ls.len() {
        Seq::empty()
    } else {
        arg_pairs(ls, rs, i + 1).push((ls[i as int], rs[i as int]))
    }
}

/// Unifying a stack that ends in the pairs of arguments from place `i` on
/// is unifying those arguments and then the rest of the stack.
pub proof fn lemma_stack_of_args(
    s: Seq<(Variable, Term)>,
    rest: Seq<(Term, Term)>,
    ls: Seq<Term>,
    rs: Seq<Term>,
    i: nat,
    fuel: nat,
)
    ensures
        unify_stack(s, rest + arg_pairs(ls, rs, i), fuel) == (match unify_args_steps(
            s,
            ls,
            rs,
            i,
            fuel,
        ) {
            None => None,
            Some((s1, Some(e))) => Some((s1, Some(e))),
            Some((s1, None)) => unify_stack(s1, rest, fuel),
        }),
    decreases ls.len() - i,
{
    if i >= ls.len() {
        assert(rest + arg_pairs(ls, rs, i) =~= rest);
    } else {
        let stack = rest + arg_pairs(ls, rs, i);
        assert(stack.last() == (ls[i as int], rs[i as int]));
        assert(stack.drop_last() =~= rest + arg_pairs(ls, rs, i + 1));
        match unify_steps(s, ls[i as int], rs[i as int], fuel) {
            Some((s1, None)) => {
                lemma_stack_of_args(s1, rest, ls, rs, i + 1, fuel);
            },
            _ => {},
        }
    }
}

/// An outcome for a stack that is reached with some fuel is reached with any more fuel.
pub proof fn lemma_more_fuel_stack(
    s: Seq<(Variable, Term)>,
    stack: Seq<(Term, Term)>,
    fuel: nat,
    more: nat,
)
    requires
        unify_stack(s, stack, fuel) is Some,
        fuel <= more,
    ensures
        unify_stack(s, stack, more) == unify_stack(s, stack, fuel),
    decreases stack.len(),
{
    if stack.len() > 0 {
        lemma_more_fuel(s, stack.last().0, stack.last().1, fuel, more);
        match unify_steps(s, stack.last().0, stack.last().1, fuel) {
            Some((s1, None)) => {
                lemma_more_fuel_stack(s1, stack.drop_last(), fuel, more);
            },
            _ => {},
        }
    }
}

/// Where the pair on top of a stack is settled without looking at
/// arguments, what the rest of the stack comes to is what the stack comes to.
pub proof fn lemma_stack_step(
    s: Seq<(Variable, Term)>,
    rest: Seq<(Term, Term)>,
    l: Term,
    r: Term,
    after: Seq<(Variable, Term)>,
    fuel: nat,
)
    requires
        unify_steps(s, l, r, 1) == Some((after, None::<Failure>)),
        unify_stack(after, rest, fuel) is Some,
    ensures
        unify_stack(s, rest.push((l, r)), fuel + 1) == unify_stack(after, rest, fuel),
{
    let stack = rest.push((l, r));
    assert(stack.drop_last() =~= rest);
    lemma_more_fuel(s, l, r, 1, fuel + 1);
    lemma_more_fuel_stack(after, rest, fuel, fuel + 1);
}

/// Where the pair on top of a stack is one of constructed terms with the
/// same name and as many arguments, what the stack with the pairs of
/// arguments in place of that pair comes to is what the stack comes to.
pub proof fn lemma_stack_args(
    s: Seq<(Variable, Term)>,
    rest: Seq<(Term, Term)>,
    l: Term,
    r: Term,
    fuel: nat,
)
    requires
        walk(s, l) is Con,
        walk(s, r) is Con,
        walk(s, l)->Con_0 == walk(s, r)->Con_0,
        walk(s, l)->Con_1.len() == walk(s, r)->Con_1.len(),
        unify_stack(s, rest + arg_pairs(walk(s, l)->Con_1, walk(s, r)->Con_1, 0), fuel) is Some,
    ensures
        unify_stack(s, rest.push((l, r)), fuel + 1) == unify_stack(
            s,
            rest + arg_pairs(walk(s, l)->Con_1, walk(s, r)->Con_1, 0),
            fuel,
        ),
{
    let ls = walk(s, l)->Con_1;
    let rs = walk(s, r)->Con_1;
    let stack = rest.push((l, r));
    assert(stack.drop_last() =~= rest);
    lemma_stack_of_args(s, rest, ls, rs, 0, fuel);
    assert(unify_steps(s, l, r, fuel + 1) == unify_args_steps(s, ls, rs, 0, fuel));
    match unify_args_steps(s, ls, rs, 0, fuel) {
        Some((s1, None)) => {
            lemma_more_fuel_stack(s1, rest, fuel, fuel + 1);
        },
        _ => {},
    }
}

/// The outcome of unifying `l` with `r` under the bindings `s`.
pub open spec fn unified(s: Seq<(Variable, Term)>, l: Term, r: Term) -> (
    Seq<(Variable, Term)>,
    Option<Failure>,
) {
    let fuel = choose|fuel: nat| unify_steps(s, l, r, fuel) is Some;
    unify_steps(s, l, r, fuel)->0
}

/// An outcome that is reached with some fuel is reached with any more fuel.
pub proof fn lemma_more_fuel(s: Seq<(Variable, Term)>, l: Term, r: Term, fuel: nat, more: nat)
    requires
        unify_steps(s, l, r, fuel) is Some,
        fuel <= more,
    ensures
        unify_steps(s, l, r, more) == unify_steps(s, l, r, fuel),
    decreases fuel, 0int,
{
    let a = walk(s, l);
    let b = walk(s, r);
    match (a, b) {
        (Term::Con(h1, a1), Term::Con(h2, a2)) => {
            if !(h1 != h2 || a1.len() != a2.len()) {
                lemma_more_fuel_args(s, a1, a2, 0, (fuel - 1) as nat, (more - 1) as nat);
            }
        },
        _ => {},
    }
}

/// An outcome for a list of arguments that is reached with some fuel is
/// reached with any more fuel.
pub proof fn lemma_more_fuel_args(
    s: Seq<(Variable, Term)>,
    ls: Seq<Term>,
    rs: Seq<Term>,
    i: nat,
    fuel: nat,
    more: nat,
)
    requires
        unify_args_steps(s, ls, rs, i, fuel) is Some,
        fuel <= more,
    ensures
        unify_args_steps(s, ls, rs, i, more) == unify_args_steps(s, ls, rs, i, fuel),
    decreases fuel, ls.len() - i + 1,
{
    if i < ls.len() {
        lemma_more_fuel(s, ls[i as int], rs[i as int], fuel, more);
        match unify_steps(s, ls[i as int], rs[i as int], fuel) {
            Some((s1, None)) => {
                lemma_more_fuel_args(s1, ls, rs, i + 1, fuel, more);
            },
            _ => {},
        }
    }
}

/// The outcome that is reached with some fuel is the outcome.
pub proof fn lemma_unified(s: Seq<(Variable, Term)>, l: Term, r: Term, fuel: nat)
    requires
        unify_steps(s, l, r, fuel) is Some,
    ensures
        unified(s, l, r) == unify_steps(s, l, r, fuel)->0,
{
    let chosen = choose|fuel: nat| unify_steps(s, l, r, fuel) is Some;
    if chosen <= fuel {
        lemma_more_fuel(s, l, r, chosen, fuel);
    } else {
        lemma_more_fuel(s, l, r, fuel, chosen);
    }
}

/// Unifying a free variable with a term in which it occurs fails and
/// changes nothing; with any other term but itself it succeeds with one
/// more binding, from the variable to that term.
pub proof fn lemma_unify_variable(s: Seq<(Variable, Term)>, l: Term, r: Term, v: Variable)
    requires
        acyclic(s),
        walk(s, l) == Term::Var(v),
        walk(s, r) != Term::Var(v),
    ensures
        occurs(s, v, r) ==> unified(s, l, r) == (s, Some(Failure::Occurs(v))),
        !occurs(s, v, r) ==> unified(s, l, r) == (s.push((v, walk(s, r))), None::<Failure>),
{
    lemma_walk(s, r, s);
    assert(unify_steps(s, l, r, 1) == Some(bind_step(s, v, walk(s, r))));
    lemma_unified(s, l, r, 1);
}

/// Unifying a term with a free variable in which the variable occurs
/// fails and changes nothing; otherwise, the term being constructed, it
/// succeeds with one more binding, from the variable to the term.
pub proof fn lemma_unify_with_variable(s: Seq<(Variable, Term)>, l: Term, r: Term, v: Variable)
    requires
        acyclic(s),
        walk(s, l) is Con,
        walk(s, r) == Term::Var(v),
    ensures
        occurs(s, v, l) ==> unified(s, l, r) == (s, Some(Failure::Occurs(v))),
        !occurs(s, v, l) ==> unified(s, l, r) == (s.push((v, walk(s, l))), None::<Failure>),
{
    lemma_walk(s, l, s);
    assert(unify_steps(s, l, r, 1) == Some(bind_step(s, v, walk(s, l))));
    lemma_unified(s, l, r, 1);
}

/// Unifying two terms that lead to the same free variable succeeds and changes nothing.
pub proof fn lemma_unify_same_variable(s: Seq<(Variable, Term)>, l: Term, r: Term)
    requires
        acyclic(s),
        walk(s, l) is Var,
        walk(s, l) == walk(s, r),
    ensures
        unified(s, l, r) == (s, None::<Failure>),
{
    assert(unify_steps(s, l, r, 1) == Some((s, None::<Failure>)));
    lemma_unified(s, l, r, 1);
}

/// Unifying two constructed terms that differ in their name or in the
/// number of their arguments fails and changes nothing.
pub proof fn lemma_unify_mismatch(s: Seq<(Variable, Term)>, l: Term, r: Term)
    requires
        acyclic(s),
        walk(s, l) is Con,
        walk(s, r) is Con,
        walk(s, l)->Con_0 != walk(s, r)->Con_0 || walk(s, l)->Con_1.len() != walk(
            s,
            r,
        )->Con_1.len(),
    ensures
        unified(s, l, r) == (s, Some(Failure::Mismatch(walk(s, l), walk(s, r)))),
{
    assert(unify_steps(s, l, r, 1) == Some((s, Some(Failure::Mismatch(walk(s, l), walk(s, r))))));
    lemma_unified(s, l, r, 1);
}

/// Unifying two constructed terms with the same name and as many arguments
/// unifies the arguments pair by pair from the left, if that comes to an end.
pub proof fn lemma_unify_arguments(s: Seq<(Variable, Term)>, l: Term, r: Term, fuel: nat)
    requires
        acyclic(s),
        walk(s, l) is Con,
        walk(s, r) is Con,
        walk(s, l)->Con_0 == walk(s, r)->Con_0,
        walk(s, l)->Con_1.len() == walk(s, r)->Con_1.len(),
        unify_args_steps(s, walk(s, l)->Con_1, walk(s, r)->Con_1, 0, fuel) is Some,
    ensures
        unified(s, l, r) == unify_args_steps(s, walk(s, l)->Con_1, walk(s, r)->Con_1, 0, fuel)->0,
{
    lemma_unified(s, l, r, fuel + 1);
}

/// Whatever unifying ends with, the bindings are still acyclic, hold what
/// they held, and bind no variable twice; and if it ends without a
/// failure, both terms resolve to the same term.
pub proof fn lemma_unify_sound(s: Seq<(Variable, Term)>, l: Term, r: Term, fuel: nat)
    requires
        acyclic(s),
        single(s),
        unify_steps(s, l, r, fuel) is Some,
    ensures
        ({
            let (after, failed) = unify_steps(s, l, r, fuel)->0;
            &&& acyclic(after)
            &&& single(after)
            &&& starts(after, s)
            &&& failed is None ==> resolve(after, l) == resolve(after, r)
        }),
    decreases fuel, 0int,
{
    let a = walk(s, l);
    let b = walk(s, r);
    let out = unify_steps(s, l, r, fuel)->0;
    let s2 = out.0;
    lemma_walk(s, l, s);
    lemma_walk(s, r, s);
    match (a, b) {
        (Term::Con(h1, a1), Term::Con(h2, a2)) => {
            if !(h1 != h2 || a1.len() != a2.len()) {
                lemma_unify_args_sound(s, a1, a2, 0, (fuel - 1) as nat);
                lemma_walk(s, l, s2);
                lemma_walk(s, r, s2);
                if out.1 is None {
                    lemma_resolve_con(s2, h1, a1);
                    lemma_resolve_con(s2, h2, a2);
                    assert(resolve_all(s2, a1) =~= resolve_all(s2, a2));
                }
            }
        },
        (Term::Var(v), _) => {
            if a != b {
                lemma_bound_resolves(s, l, r, v, b);
            }
        },
        (Term::Con(_, _), Term::Var(w)) => {
            lemma_bound_resolves(s, r, l, w, a);
        },
    }
}

/// After a free variable that `l` leads to is bound to the term that `r`
/// leads to, both resolve to the same term.
proof fn lemma_bound_resolves(s: Seq<(Variable, Term)>, l: Term, r: Term, v: Variable, b: Term)
    requires
        acyclic(s),
        single(s),
        walk(s, l) == Term::Var(v),
        walk(s, r) == b,
    ensures
        !occurs(s, v, b) ==> {
            &&& acyclic(s.push((v, b)))
            &&& single(s.push((v, b)))
            &&& resolve(s.push((v, b)), l) == resolve(s.push((v, b)), r)
        },
{
    if !occurs(s, v, b) {
        let s2 = s.push((v, b));
        lemma_walk(s, l, s);
        crate::bindings::lemma_bind_acyclic(s, v, b);
        lemma_walk(s, l, s2);
        lemma_walk(s, r, s2);
        lemma_lookup(s, v);
        crate::bindings::lemma_lookup_push(s, v, b, v);
        lemma_resolve_var(s2, v);
    }
}

/// Whatever unifying the arguments from place `i` on ends with, the
/// bindings are still acyclic, hold what they held, and bind no variable
/// twice; and if it ends without a failure, the two arguments of each
/// pair from `i` on resolve to the same term.
pub proof fn lemma_unify_args_sound(
    s: Seq<(Variable, Term)>,
    ls: Seq<Term>,
    rs: Seq<Term>,
    i: nat,
    fuel: nat,
)
    requires
        acyclic(s),
        single(s),
        ls.len() == rs.len(),
        unify_args_steps(s, ls, rs, i, fuel) is Some,
    ensures
        ({
            let (after, failed) = unify_args_steps(s, ls, rs, i, fuel)->0;
            &&& acyclic(after)
            &&& single(after)
            &&& starts(after, s)
            &&& failed is None ==> forall|j: int|
                i <= j < ls.len() ==> #[trigger] resolve(after, ls[j]) == resolve(after, rs[j])
        }),
    decreases fuel, ls.len() - i + 1,
{
    if i < ls.len() {
        lemma_unify_sound(s, ls[i as int], rs[i as int], fuel);
        match unify_steps(s, ls[i as int], rs[i as int], fuel) {
            Some((s1, None)) => {
                lemma_unify_args_sound(s1, ls, rs, i + 1, fuel);
                let (s2, _) = unify_args_steps(s, ls, rs, i, fuel)->0;
                lemma_resolve_more(s1, ls[i as int], s2);
                lemma_resolve_more(s1, rs[i as int], s2);
            },
            _ => {},
        }
    }
}

/// No replacement of variables that agrees with the bindings gives a free
/// variable the same term as a constructed term in which the variable occurs.
proof fn lemma_occurs_refutes(
    f: spec_fn(Variable) -> Term,
    s: Seq<(Variable, Term)>,
    v: Variable,
    b: Term,
)
    requires
        acyclic(s),
        solves(f, s),
        walk(s, b) == b,
        b != Term::Var(v),
        occurs(s, v, b),
    ensures
        f(v) != subst(f, b),
{
    lemma_solution_resolve(f, s, b);
    lemma_walk(s, b, s);
    match b {
        Term::Var(w) => {
            lemma_lookup(s, w);
            lemma_resolve_var(s, w);
        },
        Term::Con(head, args) => {
            lemma_resolve_con(s, head, args);
            lemma_subst_height(f, resolve(s, b), v);
        },
    }
}

/// If unifying ends without a failure, the replacements of variables that
/// agree with the bindings afterwards are those that agree with the
/// bindings before and make the two terms the same; if it ends with a
/// failure, no replacement agrees with the bindings before and makes the
/// two terms the same.
pub proof fn lemma_unify_complete(s: Seq<(Variable, Term)>, l: Term, r: Term, fuel: nat)
    requires
        acyclic(s),
        single(s),
        unify_steps(s, l, r, fuel) is Some,
    ensures
        ({
            let (after, failed) = unify_steps(s, l, r, fuel)->0;
            &&& failed is None ==> forall|f: spec_fn(Variable) -> Term| #[trigger]
                solves(f, after) <==> solves(f, s) && equalizes(f, l, r)
            &&& failed is Some ==> forall|f: spec_fn(Variable) -> Term|
                !(#[trigger] solves(f, s) && equalizes(f, l, r))
        }),
    decreases fuel, 0int,
{
    let a = walk(s, l);
    let b = walk(s, r);
    let (after, failed) = unify_steps(s, l, r, fuel)->0;
    lemma_walk(s, l, s);
    lemma_walk(s, r, s);
    assert forall|f: spec_fn(Variable) -> Term| #[trigger] solves(f, s) implies equalizes(f, l, r)
        == equalizes(f, a, b) by {
        lemma_solution_walk(f, s, l);
        lemma_solution_walk(f, s, r);
    }
    crate::bindings::lemma_walk_twice(s, l);
    crate::bindings::lemma_walk_twice(s, r);
    match (a, b) {
        (Term::Con(h1, a1), Term::Con(h2, a2)) => {
            if h1 != h2 || a1.len() != a2.len() {
                assert forall|f: spec_fn(Variable) -> Term| #[trigger] solves(f, s) implies !equalizes(
                    f,
                    a,
                    b,
                ) by {
                    lemma_subst_con(f, h1, a1);
                    lemma_subst_con(f, h2, a2);
                    assert(subst_all(f, a1).len() == a1.len());
                    assert(subst_all(f, a2).len() == a2.len());
                }
            } else {
                lemma_unify_args_complete(s, a1, a2, 0, (fuel - 1) as nat);
                assert forall|f: spec_fn(Variable) -> Term| equalizes(f, a, b) == equalizes_from(
                    f,
                    a1,
                    a2,
                    0,
                ) by {
                    lemma_equalizes_con(f, h1, a1, a2);
                }
            }
        },
        (Term::Var(v), _) => {
            if a != b {
                if occurs(s, v, b) {
                    assert forall|f: spec_fn(Variable) -> Term| #[trigger] solves(f, s) implies !equalizes(
                        f,
                        a,
                        b,
                    ) by {
                        lemma_occurs_refutes(f, s, v, b);
                    }
                } else {
                    assert forall|f: spec_fn(Variable) -> Term| #[trigger]
                        solves(f, after) <==> solves(f, s) && equalizes(f, l, r) by {
                        lemma_solves_push(f, s, v, b);
                    }
                }
            }
        },
        (Term::Con(_, _), Term::Var(w)) => {
            if occurs(s, w, a) {
                assert forall|f: spec_fn(Variable) -> Term| #[trigger] solves(f, s) implies !equalizes(
                    f,
                    a,
                    b,
                ) by {
                    lemma_occurs_refutes(f, s, w, a);
                }
            } else {
                assert forall|f: spec_fn(Variable) -> Term| #[trigger]
                    solves(f, after) <==> solves(f, s) && equalizes(f, l, r) by {
                    lemma_solves_push(f, s, w, a);
                }
            }
        },
    }
}

/// If unifying the arguments from place `i` on ends without a failure, the
/// replacements of variables that agree with the bindings afterwards are
/// those that agree with the bindings before and make the two arguments of
/// each pair from `i` on the same; if it ends with a failure, there is no
/// such replacement.
pub proof fn lemma_unify_args_complete(
    s: Seq<(Variable, Term)>,
    ls: Seq<Term>,
    rs: Seq<Term>,
    i: nat,
    fuel: nat,
)
    requires
        acyclic(s),
        single(s),
        ls.len() == rs.len(),
        unify_args_steps(s, ls, rs, i, fuel) is Some,
    ensures
        ({
            let (after, failed) = unify_args_steps(s, ls, rs, i, fuel)->0;
            &&& failed is None ==> forall|f: spec_fn(Variable) -> Term| #[trigger]
                solves(f, after) <==> solves(f, s) && equalizes_from(f, ls, rs, i as int)
            &&& failed is Some ==> forall|f: spec_fn(Variable) -> Term|
                !(#[trigger] solves(f, s) && equalizes_from(f, ls, rs, i as int))
        }),
    decreases fuel, ls.len() - i + 1,
{
    if i < ls.len() {
        let (after, failed) = unify_args_steps(s, ls, rs, i, fuel)->0;
        let (s1, first) = unify_steps(s, ls[i as int], rs[i as int], fuel)->0;
        lemma_unify_complete(s, ls[i as int], rs[i as int], fuel);
        lemma_unify_sound(s, ls[i as int], rs[i as int], fuel);
        assert forall|f: spec_fn(Variable) -> Term| equalizes_from(f, ls, rs, i as int) == (
        equalizes(f, ls[i as int], rs[i as int]) && equalizes_from(f, ls, rs, i as int + 1)) by {
            if equalizes(f, ls[i as int], rs[i as int]) && equalizes_from(f, ls, rs, i as int + 1) {
                assert forall|j: int| i <= j < ls.len() implies subst(f, #[trigger] ls[j])
                    == subst(f, rs[j]) by {
                    if j > i {
                    }
                }
            }
            if equalizes_from(f, ls, rs, i as int) {
                assert(subst(f, ls[i as int]) == subst(f, rs[i as int]));
            }
        }
        if first is None {
            lemma_unify_args_complete(s1, ls, rs, i + 1, fuel);
            if failed is None {
                assert forall|f: spec_fn(Variable) -> Term| #[trigger]
                    solves(f, after) <==> solves(f, s) && equalizes_from(f, ls, rs, i as int) by {
                    assert(solves(f, after) <==> solves(f, s1) && equalizes_from(
                        f,
                        ls,
                        rs,
                        i as int + 1,
                    ));
                    assert(solves(f, s1) <==> solves(f, s) && equalizes(
                        f,
                        ls[i as int],
                        rs[i as int],
                    ));
                }
            } else {
                assert forall|f: spec_fn(Variable) -> Term|
                    !(#[trigger] solves(f, s) && equalizes_from(f, ls, rs, i as int)) by {
                    if solves(f, s) && equalizes_from(f, ls, rs, i as int) {
                        assert(solves(f, s1) <==> solves(f, s) && equalizes(
                            f,
                            ls[i as int],
                            rs[i as int],
                        ));
                        assert(!(solves(f, s1) && equalizes_from(f, ls, rs, i as int + 1)));
                    }
                }
            }
        } else {
            assert forall|f: spec_fn(Variable) -> Term|
                !(#[trigger] solves(f, s) && equalizes_from(f, ls, rs, i as int)) by {
                if solves(f, s) && equalizes_from(f, ls, rs, i as int) {
                    assert(!(solves(f, s) && equalizes(f, ls[i as int], rs[i as int])));
                }
            }
        }
    } else {
        assert forall|f: spec_fn(Variable) -> Term| equalizes_from(f, ls, rs, i as int) by {}
    }
}

/// If unifying ends without a failure, the two terms can be made the
/// same in agreement with the bindings; if it ends with a failure, they cannot.
pub proof fn lemma_unify_decides(s: Seq<(Variable, Term)>, l: Term, r: Term, fuel: nat)
    requires
        acyclic(s),
        single(s),
        unify_steps(s, l, r, fuel) is Some,
    ensures
        (unify_steps(s, l, r, fuel)->0).1 is None <==> unifiable(s, l, r),
{
    let (after, failed) = unify_steps(s, l, r, fuel)->0;
    lemma_unify_complete(s, l, r, fuel);
    lemma_unify_sound(s, l, r, fuel);
    if failed is None {
        lemma_resolve_solves(after);
        assert(solves(resolving(after), after));
        assert(solves(resolving(after), s) && equalizes(resolving(after), l, r));
    } else {
        if unifiable(s, l, r) {
            let f = choose|f: spec_fn(Variable) -> Term| solves(f, s) && equalizes(f, l, r);
            assert(!(solves(f, s) && equalizes(f, l, r)));
        }
    }
}

} // verus!
