use crate::bindings::{
    acyclic, depth, lemma_depth_arg, lemma_depth_bound, lemma_lookup, lemma_lookup_at,
    lemma_resolve_con, lemma_resolve_var, lookup, resolve, resolve_all, single, walk,
};
use crate::term::{lemma_has_var_con, lemma_height_arg, Term};
use crate::types::Variable;
use vstd::prelude::*;

verus! {

/// The term `t` with every variable `v` in it replaced by the term `f(v)`, once.
pub open spec fn subst(f: spec_fn(Variable) -> Term, t: Term) -> Term
    decreases t,
{
    match t {
        Term::Var(v) => f(v),
        Term::Con(head, args) => Term::Con(
            head,
            Seq::new(args.len(), |i: int| if 0 <= i < args.len() { subst(f, args[i]) } else { t }),
        ),
    }
}

/// Every term of the list with its variables replaced.
pub open spec fn subst_all(f: spec_fn(Variable) -> Term, ts: Seq<Term>) -> Seq<Term> {
    Seq::new(ts.len(), |i: int| subst(f, ts[i]))
}

/// Whether `f` gives every variable that `s` binds the same term as it
/// gives the term that the variable is bound to.
pub open spec fn solves(f: spec_fn(Variable) -> Term, s: Seq<(Variable, Term)>) -> bool {
    forall|i: int| 0 <= i < s.len() ==> f((#[trigger] s[i]).0) == subst(f, s[i].1)
}

/// Whether `f` makes `l` and `r` the same term.
pub open spec fn equalizes(f: spec_fn(Variable) -> Term, l: Term, r: Term) -> bool {
    subst(f, l) == subst(f, r)
}

/// Whether the terms of two lists can be made the same, pair by pair from place `i` on.
pub open spec fn equalizes_from(
    f: spec_fn(Variable) -> Term,
    ls: Seq<Term>,
    rs: Seq<Term>,
    i: int,
) -> bool {
    forall|j: int| i <= j < ls.len() ==> subst(f, #[trigger] ls[j]) == subst(f, rs[j])
}

/// Whether some replacement of variables by terms agrees with the bindings
/// `s` and makes `l` and `r` the same term.
pub open spec fn unifiable(s: Seq<(Variable, Term)>, l: Term, r: Term) -> bool {
    exists|f: spec_fn(Variable) -> Term| solves(f, s) && equalizes(f, l, r)
}

/// Replacing the variables of a constructed term replaces those of its arguments.
pub proof fn lemma_subst_con(f: spec_fn(Variable) -> Term, head: Seq<char>, args: Seq<Term>)
    ensures
        subst(f, Term::Con(head, args)) == Term::Con(head, subst_all(f, args)),
{
    assert(subst(f, Term::Con(head, args))->Con_1 =~= subst_all(f, args));
}

/// To a replacement that agrees with the bindings, a term and what
/// following the bindings at its top leads to are the same.
pub proof fn lemma_solution_walk(f: spec_fn(Variable) -> Term, s: Seq<(Variable, Term)>, t: Term)
    requires
        acyclic(s),
        solves(f, s),
    ensures
        subst(f, walk(s, t)) == subst(f, t),
    decreases depth(s, t),
{
    match t {
        Term::Var(v) => {
            lemma_lookup(s, v);
            match lookup(s, v) {
                Some(u) => {
                    lemma_depth_bound(s, v);
                    lemma_solution_walk(f, s, u);
                    let i = choose|i: int| 0 <= i < s.len() && #[trigger] s[i] == (v, u);
                    assert(f(s[i].0) == subst(f, s[i].1));
                },
                None => {},
            }
        },
        Term::Con(_, _) => {},
    }
}

/// To a replacement that agrees with the bindings, a term and its resolved form are the same.
pub proof fn lemma_solution_resolve(f: spec_fn(Variable) -> Term, s: Seq<(Variable, Term)>, t: Term)
    requires
        acyclic(s),
        solves(f, s),
    ensures
        subst(f, resolve(s, t)) == subst(f, t),
    decreases depth(s, t),
{
    match t {
        Term::Var(v) => {
            lemma_lookup(s, v);
            lemma_resolve_var(s, v);
            match lookup(s, v) {
                Some(u) => {
                    lemma_depth_bound(s, v);
                    lemma_solution_resolve(f, s, u);
                    let i = choose|i: int| 0 <= i < s.len() && #[trigger] s[i] == (v, u);
                    assert(f(s[i].0) == subst(f, s[i].1));
                },
                None => {},
            }
        },
        Term::Con(head, args) => {
            lemma_resolve_con(s, head, args);
            lemma_subst_con(f, head, args);
            lemma_subst_con(f, head, resolve_all(s, args));
            assert forall|i: int| 0 <= i < args.len() implies subst(f, resolve(s, args[i]))
                == subst(f, args[i]) by {
                lemma_depth_arg(s, head, args, i);
                lemma_solution_resolve(f, s, args[i]);
            }
            assert(subst_all(f, resolve_all(s, args)) =~= subst_all(f, args));
        },
    }
}

/// What replaces a variable is no higher than what replaces a term that
/// holds the variable, and lower if the term is constructed.
pub proof fn lemma_subst_height(f: spec_fn(Variable) -> Term, t: Term, v: Variable)
    requires
        t.has_var(v),
    ensures
        f(v).height() <= subst(f, t).height(),
        t is Con ==> f(v).height() < subst(f, t).height(),
    decreases t,
{
    match t {
        Term::Var(w) => {},
        Term::Con(head, args) => {
            lemma_has_var_con(head, args, v);
            let i = choose|i: int| 0 <= i < args.len() && (#[trigger] args[i]).has_var(v);
            lemma_subst_height(f, args[i], v);
            lemma_subst_con(f, head, args);
            lemma_height_arg(head, subst_all(f, args), i);
        },
    }
}

/// Resolving through `s`, as a replacement of variables by terms.
pub open spec fn resolving(s: Seq<(Variable, Term)>) -> spec_fn(Variable) -> Term {
    |v: Variable| resolve(s, Term::Var(v))
}

/// Resolving a term replaces each variable in it by what the variable resolves to.
pub proof fn lemma_resolve_subst(s: Seq<(Variable, Term)>, t: Term)
    requires
        acyclic(s),
    ensures
        subst(resolving(s), t) == resolve(s, t),
    decreases t,
{
    let f = resolving(s);
    match t {
        Term::Var(v) => {},
        Term::Con(head, args) => {
            lemma_resolve_con(s, head, args);
            lemma_subst_con(f, head, args);
            assert forall|i: int| 0 <= i < args.len() implies subst(f, args[i]) == resolve(
                s,
                args[i],
            ) by {
                lemma_resolve_subst(s, args[i]);
            }
            assert(subst_all(f, args) =~= resolve_all(s, args));
        },
    }
}

/// Resolving agrees with the bindings it resolves through.
pub proof fn lemma_resolve_solves(s: Seq<(Variable, Term)>)
    requires
        acyclic(s),
        single(s),
    ensures
        solves(resolving(s), s),
{
    let f = resolving(s);
    assert forall|i: int| 0 <= i < s.len() implies f((#[trigger] s[i]).0) == subst(f, s[i].1) by {
        lemma_lookup_at(s, i);
        lemma_resolve_var(s, s[i].0);
        lemma_resolve_subst(s, s[i].1);
    }
}

/// A replacement makes two constructed terms with the same name and as
/// many arguments the same exactly when it makes their arguments the same,
/// pair by pair.
pub proof fn lemma_equalizes_con(
    f: spec_fn(Variable) -> Term,
    head: Seq<char>,
    ls: Seq<Term>,
    rs: Seq<Term>,
)
    requires
        ls.len() == rs.len(),
    ensures
        equalizes(f, Term::Con(head, ls), Term::Con(head, rs)) == equalizes_from(f, ls, rs, 0),
{
    lemma_subst_con(f, head, ls);
    lemma_subst_con(f, head, rs);
    if equalizes_from(f, ls, rs, 0) {
        assert(subst_all(f, ls) =~= subst_all(f, rs));
    }
    if equalizes(f, Term::Con(head, ls), Term::Con(head, rs)) {
        assert forall|j: int| 0 <= j < ls.len() implies subst(f, #[trigger] ls[j]) == subst(
            f,
            rs[j],
        ) by {
            assert(subst_all(f, ls)[j] == subst_all(f, rs)[j]);
        }
    }
}

/// A replacement agrees with bindings and one more exactly when it agrees
/// with the bindings and gives the variable of the one more the same term
/// as the term that the variable is bound to.
pub proof fn lemma_solves_push(
    f: spec_fn(Variable) -> Term,
    s: Seq<(Variable, Term)>,
    v: Variable,
    t: Term,
)
    ensures
        solves(f, s.push((v, t))) == (solves(f, s) && f(v) == subst(f, t)),
{
    let more = s.push((v, t));
    if solves(f, more) {
        assert forall|i: int| 0 <= i < s.len() implies f((#[trigger] s[i]).0) == subst(
            f,
            s[i].1,
        ) by {
            assert(more[i] == s[i]);
        }
        assert(more[s.len() as int] == (v, t));
    }
    if solves(f, s) && f(v) == subst(f, t) {
        assert forall|i: int| 0 <= i < more.len() implies f((#[trigger] more[i]).0) == subst(
            f,
            more[i].1,
        ) by {
            if i < s.len() {
                assert(more[i] == s[i]);
            }
        }
    }
}

} // verus!
