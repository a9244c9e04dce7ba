use crate::term::{lemma_has_var_arg, lemma_height_arg, Term};
use crate::types::Variable;
use vstd::prelude::*;

verus! {

/// Whether `a` is the beginning of `b`.
pub open spec fn starts<A>(b: Seq<A>, a: Seq<A>) -> bool {
    &&& a.len() <= b.len()
    &&& forall|i: int| 0 <= i < a.len() ==> a[i] == b[i]
}

/// Whether the variable `v` is bound in the list `s`.
pub open spec fn binds<T>(s: Seq<(Variable, T)>, v: Variable) -> bool {
    exists|i: int| 0 <= i < s.len() && (#[trigger] s[i]).0 == v
}

/// Whether no variable is bound twice in the list `s`.
pub open spec fn single<T>(s: Seq<(Variable, T)>) -> bool {
    forall|i: int, j: int|
        0 <= i < s.len() && 0 <= j < s.len() && (#[trigger] s[i]).0 == (#[trigger] s[j]).0 ==> i
            == j
}

/// What the variable `v` is bound to in the list `s`: the earliest binding, if there is one.
pub open spec fn lookup<T>(s: Seq<(Variable, T)>, v: Variable) -> Option<T>
    decreases s.len(),
{
    if s.len() == 0 {
        None
    } else {
        match lookup(s.drop_last(), v) {
            Some(t) => Some(t),
            None => if s.last().0 == v {
                Some(s.last().1)
            } else {
                None
            },
        }
    }
}

/// The list `s` cut back to its first `n` bindings, or whole if it has no more than `n`.
pub open spec fn rolled_back<T>(s: Seq<T>, n: nat) -> Seq<T> {
    if n <= s.len() {
        s.take(n as int)
    } else {
        s
    }
}

/// A variable is bound exactly when looking it up finds something, and what
/// is found is what some binding of the list gives it.
pub proof fn lemma_lookup<T>(s: Seq<(Variable, T)>, v: Variable)
    ensures
        lookup(s, v) is Some <==> binds(s, v),
        lookup(s, v) is Some ==> exists|i: int|
            0 <= i < s.len() && #[trigger] s[i] == (v, lookup(s, v)->0),
    decreases s.len(),
{
    if s.len() > 0 {
        let front = s.drop_last();
        lemma_lookup(front, v);
        if lookup(front, v) is Some {
            let i = choose|i: int| 0 <= i < front.len() && #[trigger] front[i] == (v, lookup(front, v)->0);
            assert(s[i] == front[i]);
        } else if s.last().0 == v {
            assert(s[s.len() - 1] == (v, s.last().1));
        } else {
            if binds(s, v) {
                let i = choose|i: int| 0 <= i < s.len() && (#[trigger] s[i]).0 == v;
                assert(front[i] == s[i]);
            }
        }
    }
}

/// Where no variable is bound twice, looking up the variable of a binding finds that binding.
pub proof fn lemma_lookup_at<T>(s: Seq<(Variable, T)>, i: int)
    requires
        single(s),
        0 <= i < s.len(),
    ensures
        lookup(s, s[i].0) == Some(s[i].1),
{
    lemma_lookup(s, s[i].0);
    let j = choose|j: int| 0 <= j < s.len() && #[trigger] s[j] == (s[i].0, lookup(s, s[i].0)->0);
    assert(s[j].0 == s[i].0);
}

/// A new binding at the end changes what one variable is bound to, and only
/// if that variable was free.
pub proof fn lemma_lookup_push<T>(s: Seq<(Variable, T)>, v: Variable, t: T, w: Variable)
    ensures
        lookup(s.push((v, t)), w) == (if lookup(s, w) is Some {
            lookup(s, w)
        } else if w == v {
            Some(t)
        } else {
            None
        }),
{
    assert(s.push((v, t)).drop_last() =~= s);
}

/// What a list binds, every longer list binds to the same.
pub proof fn lemma_lookup_starts<T>(long: Seq<(Variable, T)>, s: Seq<(Variable, T)>, v: Variable)
    requires
        starts(long, s),
        lookup(s, v) is Some,
    ensures
        lookup(long, v) == lookup(s, v),
    decreases long.len(),
{
    if long.len() > s.len() {
        let front = long.drop_last();
        lemma_lookup_starts(front, s, v);
    } else {
        assert(long =~= s);
    }
}

/// Cutting back to the length that a list had restores that list, whatever
/// was added to it since.
pub proof fn lemma_rollback_restores<T>(before: Seq<T>, later: Seq<T>)
    requires
        starts(later, before),
    ensures
        rolled_back(later, before.len()) == before,
{
    assert(later.take(before.len() as int) =~= before);
}

/// Cutting back to a later length keeps everything that was there earlier,
/// so that cuts made in the reverse order of their checkpoints each restore
/// the list of their checkpoint.
pub proof fn lemma_rollback_keeps<T>(before: Seq<T>, later: Seq<T>, n: nat)
    requires
        starts(later, before),
        before.len() <= n,
    ensures
        starts(rolled_back(later, n), before),
{
}

/// Whether the measure `m` goes down from every constructed term to each of
/// its arguments, and from every bound variable to the term it is bound to.
pub open spec fn measures(s: Seq<(Variable, Term)>, m: spec_fn(Term) -> nat) -> bool {
    &&& forall|head: Seq<char>, args: Seq<Term>, i: int|
        #![trigger m(Term::Con(head, args)), args[i]]
        0 <= i < args.len() ==> m(args[i]) < m(Term::Con(head, args))
    &&& forall|i: int| 0 <= i < s.len() ==> m((#[trigger] s[i]).1) < m(Term::Var(s[i].0))
}

/// Whether following the bindings of `s` from any term comes to an end: no
/// variable is bound, directly or through other bindings, to a term that holds it.
pub open spec fn acyclic(s: Seq<(Variable, Term)>) -> bool {
    exists|m: spec_fn(Term) -> nat| measures(s, m)
}

/// A measure that shows that `s` is acyclic, if it is.
pub open spec fn depth(s: Seq<(Variable, Term)>, t: Term) -> nat {
    (choose|m: spec_fn(Term) -> nat| measures(s, m))(t)
}

/// The depth goes down from a constructed term to its arguments.
pub proof fn lemma_depth_arg(s: Seq<(Variable, Term)>, head: Seq<char>, args: Seq<Term>, i: int)
    requires
        acyclic(s),
        0 <= i < args.len(),
    ensures
        depth(s, args[i]) < depth(s, Term::Con(head, args)),
{
    let m = choose|m: spec_fn(Term) -> nat| measures(s, m);
    assert(measures(s, m));
    assert(m(args[i]) < m(Term::Con(head, args)));
}

/// The depth goes down from a bound variable to the term it is bound to.
pub proof fn lemma_depth_bound(s: Seq<(Variable, Term)>, v: Variable)
    requires
        acyclic(s),
        lookup(s, v) is Some,
    ensures
        depth(s, lookup(s, v)->0) < depth(s, Term::Var(v)),
{
    let m = choose|m: spec_fn(Term) -> nat| measures(s, m);
    assert(measures(s, m));
    lemma_lookup(s, v);
    let i = choose|i: int| 0 <= i < s.len() && #[trigger] s[i] == (v, lookup(s, v)->0);
    assert(m(s[i].1) < m(Term::Var(s[i].0)));
}

/// The term `t` with bound variables at its top followed until a free
/// variable or a constructed term is reached.
pub open spec fn walk(s: Seq<(Variable, Term)>, t: Term) -> Term
    decreases depth(s, t),
    when acyclic(s)
{
    match t {
        Term::Var(v) => match lookup(s, v) {
            Some(u) => {
                proof {
                    lemma_depth_bound(s, v);
                }
                walk(s, u)
            },
            None => t,
        },
        Term::Con(_, _) => t,
    }
}

/// The term `t` with every bound variable in it replaced by what it is bound
/// to, again and again, until only free variables are left.
pub open spec fn resolve(s: Seq<(Variable, Term)>, t: Term) -> Term
    decreases depth(s, t),
    when acyclic(s)
{
    match t {
        Term::Var(v) => match lookup(s, v) {
            Some(u) => {
                proof {
                    lemma_depth_bound(s, v);
                }
                resolve(s, u)
            },
            None => t,
        },
        Term::Con(head, args) => Term::Con(
            head,
            Seq::new(
                args.len(),
                |i: int|
                    if 0 <= i < args.len() {
                        proof {
                            lemma_depth_arg(s, head, args, i);
                        }
                        resolve(s, args[i])
                    } else {
                        t
                    },
            ),
        ),
    }
}

/// Every term of the list resolved.
pub open spec fn resolve_all(s: Seq<(Variable, Term)>, ts: Seq<Term>) -> Seq<Term> {
    Seq::new(ts.len(), |i: int| resolve(s, ts[i]))
}

/// Whether the variable `v` stands in `t` once `t` is resolved.
pub open spec fn occurs(s: Seq<(Variable, Term)>, v: Variable, t: Term) -> bool {
    resolve(s, t).has_var(v)
}

/// Resolving a constructed term resolves its arguments.
pub proof fn lemma_resolve_con(s: Seq<(Variable, Term)>, head: Seq<char>, args: Seq<Term>)
    requires
        acyclic(s),
    ensures
        resolve(s, Term::Con(head, args)) == Term::Con(head, resolve_all(s, args)),
{
    assert(resolve(s, Term::Con(head, args))->Con_1 =~= resolve_all(s, args));
}

/// Resolving a variable resolves what it is bound to, and leaves a free variable as it is.
pub proof fn lemma_resolve_var(s: Seq<(Variable, Term)>, v: Variable)
    requires
        acyclic(s),
    ensures
        resolve(s, Term::Var(v)) == (match lookup(s, v) {
            Some(u) => resolve(s, u),
            None => Term::Var(v),
        }),
{
}

/// The empty list of bindings is acyclic.
pub proof fn lemma_empty_acyclic()
    ensures
        acyclic(Seq::<(Variable, Term)>::empty()),
{
    let m = |t: Term| t.height();
    assert forall|head: Seq<char>, args: Seq<Term>, i: int|
        #![trigger m(Term::Con(head, args)), args[i]]
        0 <= i < args.len() implies m(args[i]) < m(Term::Con(head, args)) by {
        lemma_height_arg(head, args, i);
    }
    assert(measures(Seq::<(Variable, Term)>::empty(), m));
}

/// Binding a free variable to a term in which it does not occur keeps the
/// bindings acyclic, and no variable bound twice.
pub proof fn lemma_bind_acyclic(s: Seq<(Variable, Term)>, v: Variable, t: Term)
    requires
        acyclic(s),
        single(s),
        !binds(s, v),
        !occurs(s, v, t),
    ensures
        acyclic(s.push((v, t))),
        single(s.push((v, t))),
{
    let m = choose|m: spec_fn(Term) -> nat| measures(s, m);
    assert(measures(s, m));
    let big = m(t) + 1;
    let m2 = |x: Term| (m(x) + if occurs(s, v, x) { big } else { 0 }) as nat;
    let s2 = s.push((v, t));
    assert forall|head: Seq<char>, args: Seq<Term>, i: int|
        #![trigger m2(Term::Con(head, args)), args[i]]
        0 <= i < args.len() implies m2(args[i]) < m2(Term::Con(head, args)) by {
        lemma_resolve_con(s, head, args);
        assert(m(args[i]) < m(Term::Con(head, args)));
        if occurs(s, v, args[i]) {
            let all = resolve_all(s, args);
            assert(0 <= i < all.len() && all[i].has_var(v));
            lemma_has_var_arg(head, all, i, v);
            assert(occurs(s, v, Term::Con(head, args)));
        }
        assert(m2(args[i]) == m(args[i]) + if occurs(s, v, args[i]) { big } else { 0 });
        assert(m2(Term::Con(head, args)) == m(Term::Con(head, args)) + if occurs(
            s,
            v,
            Term::Con(head, args),
        ) { big } else { 0 });
    }
    assert forall|i: int| 0 <= i < s2.len() implies m2((#[trigger] s2[i]).1) < m2(
        Term::Var(s2[i].0),
    ) by {
        if i < s.len() {
            lemma_lookup_at(s, i);
            lemma_resolve_var(s, s[i].0);
            assert(m(s[i].1) < m(Term::Var(s[i].0)));
        } else {
            lemma_lookup(s, v);
            lemma_resolve_var(s, v);
        }
    }
    assert(measures(s2, m2));
    assert forall|i: int, j: int|
        0 <= i < s2.len() && 0 <= j < s2.len() && (#[trigger] s2[i]).0 == (#[trigger] s2[j]).0 implies i
        == j by {
        if i < s.len() && j < s.len() {
            assert(s[i].0 == s[j].0);
        }
    }
}

/// Whether no variable that stands in `t` is bound in `s`.
pub open spec fn settled(s: Seq<(Variable, Term)>, t: Term) -> bool {
    forall|v: Variable| t.has_var(v) ==> !binds(s, v)
}

/// A resolved term holds no bound variable.
pub proof fn lemma_resolve_settles(s: Seq<(Variable, Term)>, t: Term)
    requires
        acyclic(s),
    ensures
        settled(s, resolve(s, t)),
    decreases depth(s, t),
{
    match t {
        Term::Var(v) => {
            lemma_lookup(s, v);
            match lookup(s, v) {
                Some(u) => {
                    lemma_depth_bound(s, v);
                    lemma_resolve_settles(s, u);
                },
                None => {},
            }
        },
        Term::Con(head, args) => {
            lemma_resolve_con(s, head, args);
            let all = resolve_all(s, args);
            assert forall|v: Variable| Term::Con(head, all).has_var(v) implies !binds(s, v) by {
                crate::term::lemma_has_var_con(head, all, v);
                let i = choose|i: int| 0 <= i < all.len() && (#[trigger] all[i]).has_var(v);
                lemma_depth_arg(s, head, args, i);
                lemma_resolve_settles(s, args[i]);
            }
        },
    }
}

/// Resolving a term that holds no bound variable changes nothing.
pub proof fn lemma_settled_stays(s: Seq<(Variable, Term)>, t: Term)
    requires
        acyclic(s),
        settled(s, t),
    ensures
        resolve(s, t) == t,
    decreases t,
{
    match t {
        Term::Var(v) => {
            assert(t.has_var(v));
            lemma_lookup(s, v);
        },
        Term::Con(head, args) => {
            lemma_resolve_con(s, head, args);
            assert forall|i: int| 0 <= i < args.len() implies resolve(s, args[i]) == args[i] by {
                assert forall|v: Variable| args[i].has_var(v) implies !binds(s, v) by {
                    lemma_has_var_arg(head, args, i, v);
                }
                lemma_settled_stays(s, args[i]);
            }
            assert(resolve_all(s, args) =~= args);
        },
    }
}

/// Resolving twice gives what resolving once gives.
pub proof fn lemma_resolve_twice(s: Seq<(Variable, Term)>, t: Term)
    requires
        acyclic(s),
    ensures
        resolve(s, resolve(s, t)) == resolve(s, t),
{
    lemma_resolve_settles(s, t);
    lemma_settled_stays(s, resolve(s, t));
}

/// Following the bindings at the top of a term ends at a free variable or a
/// constructed term, and does not change what the term resolves to, under
/// the same bindings or under more.
pub proof fn lemma_walk(s: Seq<(Variable, Term)>, t: Term, more: Seq<(Variable, Term)>)
    requires
        acyclic(s),
        acyclic(more),
        starts(more, s),
    ensures
        walk(s, t) is Var ==> !binds(s, walk(s, t)->Var_0),
        resolve(more, walk(s, t)) == resolve(more, t),
        depth(s, walk(s, t)) <= depth(s, t),
    decreases depth(s, t),
{
    match t {
        Term::Var(v) => {
            lemma_lookup(s, v);
            match lookup(s, v) {
                Some(u) => {
                    lemma_depth_bound(s, v);
                    lemma_walk(s, u, more);
                    lemma_lookup_starts(more, s, v);
                    lemma_resolve_var(more, v);
                },
                None => {},
            }
        },
        Term::Con(_, _) => {},
    }
}

/// What a term resolves to under more bindings is what its resolved form
/// under fewer bindings resolves to under the more.
pub proof fn lemma_resolve_more(s: Seq<(Variable, Term)>, t: Term, more: Seq<(Variable, Term)>)
    requires
        acyclic(s),
        acyclic(more),
        starts(more, s),
    ensures
        resolve(more, resolve(s, t)) == resolve(more, t),
    decreases depth(s, t),
{
    match t {
        Term::Var(v) => {
            match lookup(s, v) {
                Some(u) => {
                    lemma_depth_bound(s, v);
                    lemma_resolve_more(s, u, more);
                    lemma_lookup_starts(more, s, v);
                    lemma_resolve_var(more, v);
                },
                None => {},
            }
        },
        Term::Con(head, args) => {
            lemma_resolve_con(s, head, args);
            lemma_resolve_con(more, head, args);
            lemma_resolve_con(more, head, resolve_all(s, args));
            assert forall|i: int| 0 <= i < args.len() implies resolve(more, resolve(s, args[i]))
                == resolve(more, args[i]) by {
                lemma_depth_arg(s, head, args, i);
                lemma_resolve_more(s, args[i], more);
            }
            assert(resolve_all(more, resolve_all(s, args)) =~= resolve_all(more, args));
        },
    }
}

/// Bindings cut back to a checkpoint are still acyclic, and still bind no variable twice.
pub proof fn lemma_rollback_acyclic(s: Seq<(Variable, Term)>, n: nat)
    requires
        acyclic(s),
    ensures
        acyclic(rolled_back(s, n)),
        single(s) ==> single(rolled_back(s, n)),
{
    let m = choose|m: spec_fn(Term) -> nat| measures(s, m);
    let cut = rolled_back(s, n);
    assert forall|i: int| 0 <= i < cut.len() implies m((#[trigger] cut[i]).1) < m(
        Term::Var(cut[i].0),
    ) by {
        assert(cut[i] == s[i]);
    }
    assert(measures(cut, m));
    if single(s) {
        assert forall|i: int, j: int|
            0 <= i < cut.len() && 0 <= j < cut.len() && (#[trigger] cut[i]).0 == (
            #[trigger] cut[j]).0 implies i == j by {
            assert(cut[i] == s[i]);
            assert(cut[j] == s[j]);
        }
    }
}

/// Following the bindings at the top of a term twice leads where following them once leads.
pub proof fn lemma_walk_twice(s: Seq<(Variable, Term)>, t: Term)
    requires
        acyclic(s),
    ensures
        walk(s, walk(s, t)) == walk(s, t),
{
    lemma_walk(s, t, s);
    match walk(s, t) {
        Term::Var(v) => {
            lemma_lookup(s, v);
        },
        Term::Con(_, _) => {},
    }
}

/// The number of steps that it takes to go through a term and through
/// everything that its variables are bound to, each time they are met.
pub open spec fn weight(s: Seq<(Variable, Term)>, t: Term) -> nat
    decreases depth(s, t), (if t is Con {
        t->Con_1.len() + 1
    } else {
        0
    }),
    when acyclic(s)
{
    match t {
        Term::Var(v) => match lookup(s, v) {
            Some(u) => {
                proof {
                    lemma_depth_bound(s, v);
                }
                1 + weight(s, u)
            },
            None => 1,
        },
        Term::Con(head, args) => 1 + weight_first(s, head, args, args.len()),
    }
}

/// The weights of the first `k` arguments of a constructed term, added up.
pub open spec fn weight_first(s: Seq<(Variable, Term)>, head: Seq<char>, args: Seq<Term>, k: nat) -> nat
    decreases depth(s, Term::Con(head, args)), k,
    when acyclic(s) && k <= args.len()
{
    if k == 0 {
        0
    } else {
        proof {
            lemma_depth_arg(s, head, args, k - 1);
        }
        weight_first(s, head, args, (k - 1) as nat) + weight(s, args[k - 1])
    }
}

/// The weights of the terms of a list, added up.
pub open spec fn total(s: Seq<(Variable, Term)>, ts: Seq<Term>) -> nat
    decreases ts.len(),
{
    if ts.len() == 0 {
        0
    } else {
        total(s, ts.drop_last()) + weight(s, ts.last())
    }
}

/// The weight of a list of two parts is the sum of the weights of the parts.
pub proof fn lemma_total_parts(s: Seq<(Variable, Term)>, a: Seq<Term>, b: Seq<Term>)
    ensures
        total(s, a + b) == total(s, a) + total(s, b),
    decreases b.len(),
{
    if b.len() == 0 {
        assert(a + b =~= a);
    } else {
        lemma_total_parts(s, a, b.drop_last());
        assert((a + b).drop_last() =~= a + b.drop_last());
    }
}

/// A constructed term weighs one more than its arguments together.
pub proof fn lemma_weight_con(s: Seq<(Variable, Term)>, head: Seq<char>, args: Seq<Term>)
    requires
        acyclic(s),
    ensures
        weight(s, Term::Con(head, args)) == 1 + total(s, args),
{
    lemma_weight_first(s, head, args, args.len());
    assert(args.take(args.len() as int) =~= args);
}

/// The weights of the first arguments of a constructed term are those of the list of them.
pub proof fn lemma_weight_first(s: Seq<(Variable, Term)>, head: Seq<char>, args: Seq<Term>, k: nat)
    requires
        acyclic(s),
        k <= args.len(),
    ensures
        weight_first(s, head, args, k) == total(s, args.take(k as int)),
    decreases k,
{
    if k > 0 {
        lemma_weight_first(s, head, args, (k - 1) as nat);
        assert(args.take(k as int).drop_last() =~= args.take(k - 1));
    }
}

/// A bound variable weighs one more than what it is bound to, a free variable one.
pub proof fn lemma_weight_var(s: Seq<(Variable, Term)>, v: Variable)
    requires
        acyclic(s),
    ensures
        weight(s, Term::Var(v)) == (match lookup(s, v) {
            Some(u) => 1 + weight(s, u),
            None => 1,
        }),
{
}

/// Every term weighs something.
pub proof fn lemma_weight_positive(s: Seq<(Variable, Term)>, t: Term)
    requires
        acyclic(s),
    ensures
        weight(s, t) >= 1,
{
    match t {
        Term::Var(v) => {
            lemma_weight_var(s, v);
        },
        Term::Con(head, args) => {
            lemma_weight_con(s, head, args);
        },
    }
}

/// What following the bindings at the top of a term leads to weighs no more than the term.
pub proof fn lemma_weight_walk(s: Seq<(Variable, Term)>, t: Term)
    requires
        acyclic(s),
    ensures
        weight(s, walk(s, t)) <= weight(s, t),
    decreases depth(s, t),
{
    match t {
        Term::Var(v) => {
            lemma_weight_var(s, v);
            match lookup(s, v) {
                Some(u) => {
                    lemma_depth_bound(s, v);
                    lemma_weight_walk(s, u);
                },
                None => {},
            }
        },
        Term::Con(_, _) => {},
    }
}

} // verus!
