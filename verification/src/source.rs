use crate::context::TypeContext;
use crate::rebuild::{rebuild, Leaf};
use crate::term::{
    lemma_quantify_rename, lemma_rename_vars, lemma_scheme_shape, lemma_scheme_vars, quantify,
    Scheme, Term,
};
use crate::types::{Schema, Ty, TypeSchema, Variable};
use vstd::prelude::*;

verus! {

/// A supply of fresh variables: a counter that only grows.
#[derive(Copy, Clone, Debug, PartialEq, Eq, Hash)]
pub struct Source(pub(crate) usize);

/// The renaming that carries types numbered under one [`Source`] over to
/// another: every variable that is not sacred moves up by `delta`.
pub struct SourceChange {
    pub(crate) delta: usize,
    pub(crate) sacreds: Vec<Variable>,
}

impl View for Source {
    type V = nat;

    /// The next number that `fresh` hands out; every number below it has been issued.
    closed spec fn view(&self) -> nat {
        self.0 as nat
    }
}

impl Source {
    /// Hands out the next unused number and steps the counter.
    pub fn fresh(&mut self) -> (var: usize)
        requires
            old(self)@ < usize::MAX,
        ensures
            var == old(self)@,
            final(self)@ == old(self)@ + 1,
    {
        let var = self.0;
        self.0 += 1;
        var
    }

    /// Makes room in `self` for the whole range of `other`, used or not, and
    /// returns the renaming that moves `other`'s variables into that room.
    pub fn merge(&mut self, other: Source, sacreds: Vec<Variable>) -> (change: SourceChange)
        requires
            old(self)@ + other@ <= usize::MAX,
        ensures
            final(self)@ == old(self)@ + other@,
            change.delta() == old(self)@,
            change.sacreds() == sacreds@,
    {
        let delta = self.0;
        self.0 += other.0;
        SourceChange { delta, sacreds }
    }
}

impl Default for Source {
    fn default() -> (source: Source)
        ensures
            source@ == 0,
    {
        Source(0)
    }
}

impl SourceChange {
    /// The distance by which a variable that is not sacred moves.
    pub closed spec fn delta(&self) -> nat {
        self.delta as nat
    }

    /// The variables that keep their number.
    pub closed spec fn sacreds(&self) -> Seq<Variable> {
        self.sacreds@
    }

    /// Where the renaming takes the variable `v`.
    pub open spec fn shift(&self, v: Variable) -> Variable {
        if self.sacreds().contains(v) {
            v
        } else {
            Variable((v.0 + self.delta()) as usize)
        }
    }

    /// The renaming as a function.
    pub open spec fn renaming(&self) -> spec_fn(Variable) -> Variable {
        |v: Variable| self.shift(v)
    }

    /// Whether the new number of the variable `v` is a machine number.
    pub open spec fn fits(&self, v: Variable) -> bool {
        self.sacreds().contains(v) || v.0 + self.delta() <= usize::MAX
    }

    /// Whether the variable `v` is sacred.
    pub open spec fn is_sacred_spec(&self, v: Variable) -> bool {
        self.sacreds().contains(v)
    }

    /// Whether the variable `v` is sacred.
    #[verifier::when_used_as_spec(is_sacred_spec)]
    pub fn is_sacred(&self, v: Variable) -> (b: bool)
        ensures
            b == self.sacreds().contains(v),
    {
        let mut i: usize = 0;
        while i < self.sacreds.len()
            invariant
                i <= self.sacreds.len(),
                forall|j: int| 0 <= j < i ==> self.sacreds@[j] != v,
            decreases self.sacreds.len() - i,
        {
            if self.sacreds[i] == v {
                return true;
            }
            i += 1;
        }
        false
    }

    /// Where the renaming takes the variable `v`.
    pub fn shifted(&self, v: Variable) -> (w: Variable)
        requires
            self.fits(v),
        ensures
            w == self.shift(v),
    {
        if self.is_sacred(v) {
            v
        } else {
            Variable(v.0 + self.delta)
        }
    }

    /// The handle of the term `tp` with its variables renamed: those that are
    /// not sacred move up by `delta`, the sacred ones and the constructors stay.
    pub fn reify_type(&self, tp: Ty, ctx: &mut TypeContext) -> (r: Ty)
        requires
            old(ctx).wf(),
            old(ctx).has_type(tp),
            forall|v: Variable| old(ctx).term(tp).has_var(v) ==> self.fits(v),
        ensures
            final(ctx).wf(),
            final(ctx).extends(old(ctx)),
            final(ctx).has_type(r),
            final(ctx).term(r) == old(ctx).term(tp).rename(self.renaming()),
            final(ctx).scheme_nodes() == old(ctx).scheme_nodes(),
    {
        rebuild(tp, &Leaf::Shift(self), ctx)
    }

    /// The quantified variables of `schema` under their new names, the
    /// outermost first, and the handle of the term under the quantifiers.
    fn binders(&self, schema: Schema, ctx: &TypeContext) -> (r: (Vec<Variable>, Ty))
        requires
            ctx.wf(),
            ctx.has_schema(schema),
            forall|v: Variable| ctx.scheme(schema).has_var(v) ==> self.fits(v),
        ensures
            r.0@ == Seq::new(
                ctx.scheme(schema).quantified().len(),
                |i: int| self.shift(ctx.scheme(schema).quantified()[i]),
            ),
            ctx.has_type(r.1),
            ctx.term(r.1) == ctx.scheme(schema).body(),
    {
        let ghost whole = ctx.scheme(schema);
        let ghost q = whole.quantified();
        let mut binders: Vec<Variable> = Vec::new();
        let mut cur = schema;
        assert(Seq::<Variable>::empty() + q =~= q);
        loop
            invariant
                ctx.wf(),
                ctx.has_schema(cur),
                whole == ctx.scheme(schema),
                q == whole.quantified(),
                forall|v: Variable| whole.has_var(v) ==> self.fits(v),
                binders@.len() <= q.len(),
                q == q.take(binders@.len() as int) + ctx.scheme(cur).quantified(),
                whole.body() == ctx.scheme(cur).body(),
                binders@ == Seq::new(binders@.len(), |i: int| self.shift(q[i])),
            decreases cur.0,
        {
            assert(ctx.schema_fits(ctx.scheme_nodes()[cur.0 as int], cur.0 as int));
            match ctx.get_schema(cur) {
                TypeSchema::Polytype(variable, body) => {
                    let ghost k = binders@.len() as int;
                    proof {
                        assert(ctx.scheme(cur) == Scheme::Poly(
                            variable,
                            Box::new(ctx.scheme(body)),
                        ));
                        assert(ctx.scheme(cur).quantified() == seq![variable] + ctx.scheme(
                            body,
                        ).quantified());
                        assert(q[k] == variable);
                        lemma_scheme_vars(whole, variable);
                        assert(self.fits(variable));
                    }
                    binders.push(self.shifted(variable));
                    cur = body;
                    proof {
                        assert(q.take(k + 1) =~= q.take(k).push(variable));
                        assert(q =~= q.take(k + 1) + ctx.scheme(body).quantified());
                        assert(binders@ =~= Seq::new(binders@.len(), |i: int| self.shift(q[i])));
                    }
                },
                TypeSchema::Monotype(inner) => {
                    proof {
                        assert(ctx.scheme(cur) == Scheme::Mono(ctx.term(inner)));
                        assert(q.take(binders@.len() as int) =~= q);
                    }
                    return (binders, inner);
                },
            }
        }
    }

    /// The handle of the scheme `schema` with its variables renamed, the
    /// quantified ones too: those that are not sacred move up by `delta`,
    /// the sacred ones and the constructors stay.
    pub fn reify_typeschema(&self, schema: Schema, ctx: &mut TypeContext) -> (r: Schema)
        requires
            old(ctx).wf(),
            old(ctx).has_schema(schema),
            forall|v: Variable| old(ctx).scheme(schema).has_var(v) ==> self.fits(v),
        ensures
            final(ctx).wf(),
            final(ctx).extends(old(ctx)),
            final(ctx).has_schema(r),
            final(ctx).scheme(r) == old(ctx).scheme(schema).rename(self.renaming()),
    {
        let ghost whole = ctx.scheme(schema);
        let ghost f = self.renaming();
        let (binders, inner) = self.binders(schema, ctx);
        let ghost body = Scheme::Mono(whole.body().rename(f));
        proof {
            assert forall|v: Variable| ctx.term(inner).has_var(v) implies self.fits(v) by {
                lemma_scheme_vars(whole, v);
            }
            lemma_scheme_shape(whole);
            lemma_quantify_rename(whole.quantified(), Scheme::Mono(whole.body()), f);
            assert(binders@ =~= Seq::new(
                whole.quantified().len(),
                |i: int| f(whole.quantified()[i]),
            ));
        }
        let t = self.reify_type(inner, ctx);
        let ghost mid = *ctx;
        let mut r = ctx.intern_monotype(t);
        proof {
            ctx.lemma_extends_twice(&mid, old(ctx));
            assert(binders@.take(binders@.len() as int) =~= binders@);
        }
        let mut k: usize = binders.len();
        while k > 0
            invariant
                k <= binders.len(),
                old(ctx).wf(),
                ctx.wf(),
                ctx.extends(old(ctx)),
                ctx.has_schema(r),
                quantify(binders@.take(k as int), ctx.scheme(r)) == quantify(binders@, body),
            decreases k,
        {
            k -= 1;
            let ghost mid = *ctx;
            r = ctx.intern_polytype(binders[k], r);
            proof {
                ctx.lemma_extends_twice(&mid, old(ctx));
                assert(binders@.take(k + 1).drop_last() =~= binders@.take(k as int));
            }
        }
        proof {
            assert(binders@.take(0) =~= Seq::<Variable>::empty());
        }
        r
    }

    /// After a merge, a renamed term holds only sacred variables and
    /// variables of the room that the merge made: at or above the counter
    /// that the receiving source had, and below the one it has now. So a
    /// variable that is not sacred never meets a variable that the receiving
    /// source issued before the merge, nor one that it issues after it.
    pub proof fn lemma_renamed_apart(&self, t: Term, other: nat, w: Variable)
        requires
            forall|v: Variable| t.has_var(v) ==> v.0 < other,
            self.delta() + other <= usize::MAX + 1,
            t.rename(self.renaming()).has_var(w),
        ensures
            self.sacreds().contains(w) || self.delta() <= w.0 < self.delta() + other,
    {
        lemma_rename_vars(t, self.renaming(), w);
        let v = choose|v: Variable| #[trigger] t.has_var(v) && (self.renaming())(v) == w;
        assert(v.0 < other);
    }

    /// After a merge, a term of the other source, renamed, and a term of the
    /// receiving source as it was before the merge have no variable in
    /// common but sacred ones.
    pub proof fn lemma_merge_safe(&self, before: nat, other: nat, theirs: Term, ours: Term, w: Variable)
        requires
            self.delta() == before,
            before + other <= usize::MAX + 1,
            forall|v: Variable| theirs.has_var(v) ==> v.0 < other,
            forall|v: Variable| ours.has_var(v) ==> v.0 < before,
            theirs.rename(self.renaming()).has_var(w),
            ours.has_var(w),
        ensures
            self.sacreds().contains(w),
    {
        self.lemma_renamed_apart(theirs, other, w);
    }

    /// Where every sacred variable is one of the receiving source as it was
    /// before the merge, the renaming gives no two variables the same name.
    pub proof fn lemma_shift_one_to_one(&self, v: Variable, w: Variable)
        requires
            forall|i: int|
                0 <= i < self.sacreds().len() ==> (#[trigger] self.sacreds()[i]).0 < self.delta(),
            self.fits(v),
            self.fits(w),
            self.shift(v) == self.shift(w),
        ensures
            v == w,
    {
    }
}

} // verus!
