use crate::context::TypeContext;
use crate::rebuild::{rebuild, Leaf};
use crate::source::Source;
use crate::term::{lemma_rename_vars, Scheme, Term};
use crate::types::{Schema, Ty, TypeSchema, Variable};
use vstd::prelude::*;

verus! {

/// The new name of the variable `v` under a list of pairs of an old and a
/// new name: that of the last pair for `v`, or `v` itself if there is none.
pub open spec fn pick(pairs: Seq<(Variable, Variable)>, v: Variable) -> Variable
    decreases pairs.len(),
{
    if pairs.len() == 0 {
        v
    } else if pairs.last().0 == v {
        pairs.last().1
    } else {
        pick(pairs.drop_last(), v)
    }
}

/// The renaming that a list of pairs stands for, as a function.
pub open spec fn picking(pairs: Seq<(Variable, Variable)>) -> spec_fn(Variable) -> Variable {
    |v: Variable| pick(pairs, v)
}

/// The quantified variables `q`, each paired with the fresh variable that a
/// source at `base` hands out for it: the outermost gets `base`, the next `base + 1`.
pub open spec fn fresh_pairs(q: Seq<Variable>, base: nat) -> Seq<(Variable, Variable)> {
    Seq::new(q.len(), |k: int| (q[k], Variable((base + k) as usize)))
}

/// The term that instantiating `scheme` from a source at `base` gives: the
/// term under the quantifiers, with each quantified variable replaced by its
/// fresh variable. Where a variable is quantified twice, the inner quantifier counts.
pub open spec fn instance(scheme: Scheme, base: nat) -> Term {
    scheme.body().rename(picking(fresh_pairs(scheme.quantified(), base)))
}

/// The new name of a variable is its own, if no pair names it, or the new name of a pair for it.
pub proof fn lemma_pick(pairs: Seq<(Variable, Variable)>, v: Variable)
    ensures
        (pick(pairs, v) == v && forall|k: int| 0 <= k < pairs.len() ==> (#[trigger] pairs[k]).0 != v)
            || exists|k: int| 0 <= k < pairs.len() && #[trigger] pairs[k] == (v, pick(pairs, v)),
    decreases pairs.len(),
{
    if pairs.len() > 0 {
        let front = pairs.drop_last();
        if pairs.last().0 == v {
            assert(pairs[pairs.len() - 1] == (v, pick(pairs, v)));
        } else {
            lemma_pick(front, v);
            if exists|k: int| 0 <= k < front.len() && #[trigger] front[k] == (v, pick(front, v)) {
                let k = choose|k: int| 0 <= k < front.len() && #[trigger] front[k] == (v, pick(front, v));
                assert(pairs[k] == front[k]);
            } else {
                assert forall|k: int| 0 <= k < pairs.len() implies (#[trigger] pairs[k]).0 != v by {
                    if k < front.len() {
                        assert(front[k] == pairs[k]);
                    }
                }
            }
        }
    }
}

/// Two instances of a scheme without free variables, the second drawn from
/// the same source after the first, have no variable in common.
pub proof fn lemma_instances_apart(scheme: Scheme, first: nat, second: nat, w: Variable)
    requires
        first + scheme.quantified().len() <= second,
        second + scheme.quantified().len() <= usize::MAX + 1,
        forall|v: Variable| scheme.body().has_var(v) ==> scheme.quantified().contains(v),
        instance(scheme, first).has_var(w),
    ensures
        !instance(scheme, second).has_var(w),
{
    if instance(scheme, second).has_var(w) {
        lemma_instances_share(scheme, first, second, w);
    }
}

/// A variable that two instances of a scheme have in common, the second
/// drawn from the same source after the first, is a free variable of the
/// scheme, if the source had issued every free variable of the scheme before.
pub proof fn lemma_instances_share(scheme: Scheme, first: nat, second: nat, w: Variable)
    requires
        first + scheme.quantified().len() <= second,
        second + scheme.quantified().len() <= usize::MAX + 1,
        forall|v: Variable|
            scheme.body().has_var(v) && !scheme.quantified().contains(v) ==> v.0 < first,
        instance(scheme, first).has_var(w),
        instance(scheme, second).has_var(w),
    ensures
        scheme.body().has_var(w),
        !scheme.quantified().contains(w),
{
    let q = scheme.quantified();
    let p1 = fresh_pairs(q, first);
    let p2 = fresh_pairs(q, second);
    lemma_rename_vars(scheme.body(), picking(p1), w);
    lemma_rename_vars(scheme.body(), picking(p2), w);
    let v1 = choose|v: Variable| #[trigger] scheme.body().has_var(v) && (picking(p1))(v) == w;
    let v2 = choose|v: Variable| #[trigger] scheme.body().has_var(v) && (picking(p2))(v) == w;
    lemma_pick(p1, v1);
    lemma_pick(p2, v2);
    if q.contains(v1) {
        let i = choose|i: int| 0 <= i < q.len() && q[i] == v1;
        assert(p1[i].0 == v1);
    }
    if q.contains(v2) {
        let i = choose|i: int| 0 <= i < q.len() && q[i] == v2;
        assert(p2[i].0 == v2);
    }
    if exists|k: int| 0 <= k < p1.len() && #[trigger] p1[k] == (v1, pick(p1, v1)) {
        let k = choose|k: int| 0 <= k < p1.len() && #[trigger] p1[k] == (v1, pick(p1, v1));
        assert(q[k] == v1);
    }
    if exists|k: int| 0 <= k < p2.len() && #[trigger] p2[k] == (v2, pick(p2, v2)) {
        let k = choose|k: int| 0 <= k < p2.len() && #[trigger] p2[k] == (v2, pick(p2, v2));
        assert(q[k] == v2);
    }
}

/// The new name of the variable `v` under the pairs.
pub(crate) fn pick_fresh(pairs: &[(Variable, Variable)], v: Variable) -> (r: Variable)
    ensures
        r == pick(pairs@, v),
{
    let mut i: usize = pairs.len();
    assert(pairs@.take(i as int) =~= pairs@);
    while i > 0
        invariant
            i <= pairs.len(),
            pick(pairs@.take(i as int), v) == pick(pairs@, v),
        decreases i,
    {
        i -= 1;
        assert(pairs@.take(i + 1).drop_last() =~= pairs@.take(i as int));
        if pairs[i].0 == v {
            return pairs[i].1;
        }
    }
    v
}

/// Draws a fresh variable from `source` for each quantifier of `schema`,
/// the outermost first, and returns the pairs of a quantified and its
/// fresh variable with the handle of the term under the quantifiers.
pub(crate) fn draw_fresh(schema: Schema, source: &mut Source, ctx: &TypeContext) -> (r: (
    Vec<(Variable, Variable)>,
    Ty,
))
    requires
        ctx.wf(),
        ctx.has_schema(schema),
        old(source)@ + ctx.scheme(schema).quantified().len() <= usize::MAX,
    ensures
        r.0@ == fresh_pairs(ctx.scheme(schema).quantified(), old(source)@),
        ctx.has_type(r.1),
        ctx.term(r.1) == ctx.scheme(schema).body(),
        final(source)@ == old(source)@ + ctx.scheme(schema).quantified().len(),
{
    let ghost base = source@;
    let ghost q = ctx.scheme(schema).quantified();
    let mut pairs: Vec<(Variable, Variable)> = Vec::new();
    let mut cur = schema;
    assert(Seq::<Variable>::empty() + q =~= q);
    loop
        invariant
            ctx.wf(),
            ctx.has_schema(cur),
            base == old(source)@,
            q == ctx.scheme(schema).quantified(),
            base + q.len() <= usize::MAX,
            source@ == base + pairs@.len(),
            pairs@ == fresh_pairs(q.take(pairs@.len() as int), base),
            pairs@.len() <= q.len(),
            q == q.take(pairs@.len() as int) + ctx.scheme(cur).quantified(),
            ctx.scheme(schema).body() == ctx.scheme(cur).body(),
        decreases cur.0,
    {
        assert(ctx.schema_fits(ctx.scheme_nodes()[cur.0 as int], cur.0 as int));
        match ctx.get_schema(cur) {
            TypeSchema::Polytype(v, body) => {
                let ghost k = pairs@.len() as int;
                proof {
                    assert(ctx.scheme(cur) == Scheme::Poly(v, Box::new(ctx.scheme(body))));
                    assert(ctx.scheme(cur).quantified() == seq![v] + ctx.scheme(body).quantified());
                    assert(q[k] == v);
                }
                let fresh = source.fresh();
                pairs.push((v, Variable(fresh)));
                cur = body;
                proof {
                    assert(q.take(k + 1) =~= q.take(k).push(v));
                    assert(pairs@ =~= fresh_pairs(q.take(k + 1), base));
                    assert(q =~= q.take(k + 1) + ctx.scheme(body).quantified());
                }
            },
            TypeSchema::Monotype(t) => {
                proof {
                    assert(ctx.scheme(cur) == Scheme::Mono(ctx.term(t)));
                    assert(q.take(pairs@.len() as int) =~= q);
                }
                return (pairs, t);
            },
        }
    }
}

/// Instantiates the scheme `schema`: draws a fresh variable from `source`
/// for each quantifier, the outermost first, and returns the handle of the
/// term under the quantifiers with each quantified variable replaced by its
/// fresh variable.
pub fn instantiate(schema: Schema, source: &mut Source, ctx: &mut TypeContext) -> (r: Ty)
    requires
        old(ctx).wf(),
        old(ctx).has_schema(schema),
        old(source)@ + old(ctx).scheme(schema).quantified().len() <= usize::MAX,
    ensures
        final(ctx).wf(),
        final(ctx).extends(old(ctx)),
        final(ctx).has_type(r),
        final(ctx).term(r) == instance(old(ctx).scheme(schema), old(source)@),
        final(source)@ == old(source)@ + old(ctx).scheme(schema).quantified().len(),
{
    let (pairs, body) = draw_fresh(schema, source, ctx);
    rebuild(body, &Leaf::Pick(pairs.as_slice()), ctx)
}

} // verus!
