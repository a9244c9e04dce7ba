use crate::bindings::{
    depth, lemma_depth_arg, lemma_depth_bound, lemma_resolve_con, lemma_resolve_var, resolve,
    resolve_all, starts,
};
use crate::context::TypeContext;
use crate::instantiate::{draw_fresh, instance, pick_fresh, picking};
use crate::owned::{lemma_view_con, views, OwnedType};
use crate::solutions::{equalizes, solves, unifiable};
use crate::source::Source;
use crate::substitution::Substitution;
use crate::term::{lemma_height_arg, lemma_rename_con, rename_all, Term};
use crate::types::{Schema, Ty, Type, UnificationError, Variable};
use crate::outcome::unified;
use crate::unify::{failure, unify, usable};
use vstd::prelude::*;

verus! {

impl<'ctx> TypeContext<'ctx> {
    /// The handle of the term that the tree `t` stands for.
    pub fn intern_owned(&mut self, t: &OwnedType) -> (r: Ty)
        requires
            old(self).wf(),
        ensures
            final(self).wf(),
            final(self).extends(old(self)),
            final(self).has_type(r),
            final(self).term(r) == t@,
            final(self).scheme_nodes() == old(self).scheme_nodes(),
        decreases t@.height(),
    {
        match t {
            OwnedType::Variable(v) => self.intern_tvar(*v),
            OwnedType::Constructed(name, args) => {
                proof {
                    lemma_view_con(*name, *args);
                }
                let mut handles: Vec<Ty> = Vec::with_capacity(args.len());
                let mut i: usize = 0;
                while i < args.len()
                    invariant
                        t@ == Term::Con(name@, views(args@)),
                        i <= args.len(),
                        handles@.len() == i,
                        self.wf(),
                        self.extends(old(self)),
                        self.scheme_nodes() == old(self).scheme_nodes(),
                        forall|j: int|
                            0 <= j < i ==> self.has_type(#[trigger] handles@[j]) && self.term(
                                handles@[j],
                            ) == args@[j]@,
                    decreases args.len() - i,
                {
                    let ghost mid = *self;
                    proof {
                        lemma_height_arg(name@, views(args@), i as int);
                    }
                    let h = self.intern_owned(&args[i]);
                    proof {
                        self.lemma_extends_twice(&mid, old(self));
                        assert forall|j: int| 0 <= j < i implies self.has_type(
                            #[trigger] handles@[j],
                        ) && self.term(handles@[j]) == args@[j]@ by {
                            self.lemma_extends_term(&mid, handles@[j]);
                        }
                    }
                    handles.push(h);
                    i += 1;
                }
                let ghost mid = *self;
                let head = self.intern_name(name.as_str());
                let ghost named = *self;
                proof {
                    named.lemma_extends_terms(&mid, handles@);
                }
                let r = self.intern_tcon(head, handles.as_slice());
                proof {
                    named.lemma_extends_twice(&mid, old(self));
                    self.lemma_extends_twice(&named, old(self));
                    assert(named.terms(handles@) =~= views(args@));
                }
                r
            },
        }
    }

    /// The term behind the handle `t` as a tree of its own.
    pub fn to_owned_type(&self, t: Ty) -> (r: OwnedType)
        requires
            self.wf(),
            self.has_type(t),
        ensures
            r@ == self.term(t),
        decreases t.0,
    {
        match self.get(t) {
            Type::Variable(v) => OwnedType::Variable(v),
            Type::Constructed(head, a) => {
                proof {
                    self.lemma_term_con(t);
                }
                let list = self.args(a);
                let mut args: Vec<OwnedType> = Vec::with_capacity(list.len());
                let mut i: usize = 0;
                while i < list.len()
                    invariant
                        self.wf(),
                        self.has_types(list@),
                        forall|j: int| 0 <= j < list@.len() ==> (#[trigger] list@[j]).0 < t.0,
                        i <= list.len(),
                        args@.len() == i,
                        forall|j: int| 0 <= j < i ==> (#[trigger] args@[j])@ == self.term(list@[j]),
                    decreases list.len() - i,
                {
                    args.push(self.to_owned_type(list[i]));
                    i += 1;
                }
                let name = self.name(head).to_owned();
                proof {
                    lemma_view_con(name, args);
                    assert(views(args@) =~= self.terms(list@));
                }
                OwnedType::Constructed(name, args)
            },
        }
    }
}

/// The term behind the handle `t`, resolved through `sub`, as a tree of its own.
pub fn resolve_owned(t: Ty, sub: &Substitution, ctx: &TypeContext) -> (r: OwnedType)
    requires
        ctx.wf(),
        usable(sub@, ctx),
        ctx.has_type(t),
    ensures
        r@ == resolve(ctx.bindings(sub@), ctx.term(t)),
    decreases depth(ctx.bindings(sub@), ctx.term(t)),
{
    let ghost s = ctx.bindings(sub@);
    match ctx.get(t) {
        Type::Variable(v) => {
            proof {
                ctx.lemma_bindings_lookup(sub@, v);
                lemma_resolve_var(s, v);
            }
            match sub.get(v) {
                Some(u) => {
                    proof {
                        lemma_depth_bound(s, v);
                    }
                    resolve_owned(u, sub, ctx)
                },
                None => OwnedType::Variable(v),
            }
        },
        Type::Constructed(head, a) => {
            proof {
                ctx.lemma_term_con(t);
            }
            let list = ctx.args(a);
            let ghost terms = ctx.terms(list@);
            let ghost text = ctx.name_text(head);
            let mut args: Vec<OwnedType> = Vec::with_capacity(list.len());
            let mut i: usize = 0;
            while i < list.len()
                invariant
                    ctx.wf(),
                    usable(sub@, ctx),
                    s == ctx.bindings(sub@),
                    ctx.has_types(list@),
                    terms == ctx.terms(list@),
                    ctx.term(t) == Term::Con(text, terms),
                    i <= list.len(),
                    args@.len() == i,
                    forall|j: int| 0 <= j < i ==> (#[trigger] args@[j])@ == resolve(s, terms[j]),
                decreases list.len() - i,
            {
                proof {
                    lemma_depth_arg(s, text, terms, i as int);
                }
                args.push(resolve_owned(list[i], sub, ctx));
                i += 1;
            }
            let name = ctx.name(head).to_owned();
            proof {
                lemma_view_con(name, args);
                lemma_resolve_con(s, text, terms);
                assert(views(args@) =~= resolve_all(s, terms));
            }
            OwnedType::Constructed(name, args)
        },
    }
}

/// Resolves the tree `t` through `sub` where it stands: every bound
/// variable in it is replaced by the resolved tree of what it is bound to.
pub fn apply_mut(t: &mut OwnedType, sub: &Substitution, ctx: &TypeContext)
    requires
        ctx.wf(),
        usable(sub@, ctx),
    ensures
        final(t)@ == resolve(ctx.bindings(sub@), old(t)@),
    decreases old(t)@.height(),
{
    let ghost s = ctx.bindings(sub@);
    match t {
        OwnedType::Variable(v) => {
            proof {
                ctx.lemma_bindings_lookup(sub@, *v);
                lemma_resolve_var(s, *v);
            }
            match sub.get(*v) {
                Some(u) => {
                    *t = resolve_owned(u, sub, ctx);
                },
                None => {},
            }
        },
        OwnedType::Constructed(name, args) => {
            proof {
                lemma_view_con(*name, *args);
            }
            let ghost before = args@;
            let ghost text = name@;
            let n = args.len();
            let mut i: usize = 0;
            proof {
                assert forall|j: int| 0 <= j < n implies (#[trigger] before[j])@.height()
                    < Term::Con(text, views(before)).height() by {
                    lemma_height_arg(text, views(before), j);
                }
            }
            while i < n
                invariant
                    ctx.wf(),
                    usable(sub@, ctx),
                    s == ctx.bindings(sub@),
                    old(t)@ == Term::Con(text, views(before)),
                    n == before.len(),
                    args@.len() == n,
                    i <= n,
                    forall|j: int| 0 <= j < i ==> (#[trigger] args@[j])@ == resolve(s, before[j]@),
                    forall|j: int| i <= j < n ==> #[trigger] args@[j] == before[j],
                    forall|j: int|
                        0 <= j < n ==> (#[trigger] before[j])@.height() < Term::Con(
                            text,
                            views(before),
                        ).height(),
                decreases n - i,
            {
                apply_mut(&mut args[i], sub, ctx);
                i += 1;
            }
            proof {
                lemma_resolve_con(s, text, views(before));
                assert(views(args@) =~= resolve_all(s, views(before)));
                lemma_view_con(*name, *args);
            }
        },
    }
}

/// The term behind the handle `t` with its variables renamed as the pairs say, as a tree of its own.
fn substitute_owned(t: Ty, pairs: &[(Variable, Variable)], ctx: &TypeContext) -> (r: OwnedType)
    requires
        ctx.wf(),
        ctx.has_type(t),
    ensures
        r@ == ctx.term(t).rename(picking(pairs@)),
    decreases t.0,
{
    match ctx.get(t) {
        Type::Variable(v) => OwnedType::Variable(pick_fresh(pairs, v)),
        Type::Constructed(head, a) => {
            proof {
                ctx.lemma_term_con(t);
            }
            let list = ctx.args(a);
            let ghost terms = ctx.terms(list@);
            let mut args: Vec<OwnedType> = Vec::with_capacity(list.len());
            let mut i: usize = 0;
            while i < list.len()
                invariant
                    ctx.wf(),
                    ctx.has_types(list@),
                    terms == ctx.terms(list@),
                    forall|j: int| 0 <= j < list@.len() ==> (#[trigger] list@[j]).0 < t.0,
                    i <= list.len(),
                    args@.len() == i,
                    forall|j: int|
                        0 <= j < i ==> (#[trigger] args@[j])@ == terms[j].rename(picking(pairs@)),
                decreases list.len() - i,
            {
                args.push(substitute_owned(list[i], pairs, ctx));
                i += 1;
            }
            let name = ctx.name(head).to_owned();
            proof {
                lemma_view_con(name, args);
                lemma_rename_con(ctx.name_text(head), terms, picking(pairs@));
                assert(views(args@) =~= rename_all(terms, picking(pairs@)));
            }
            OwnedType::Constructed(name, args)
        },
    }
}

/// Instantiates the scheme `schema` as `instantiate` does, but returns the
/// term as a tree of its own and leaves the context as it is.
pub fn instantiate_owned(schema: Schema, source: &mut Source, ctx: &TypeContext) -> (r: OwnedType)
    requires
        ctx.wf(),
        ctx.has_schema(schema),
        old(source)@ + ctx.scheme(schema).quantified().len() <= usize::MAX,
    ensures
        r@ == instance(ctx.scheme(schema), old(source)@),
        final(source)@ == old(source)@ + ctx.scheme(schema).quantified().len(),
{
    let (pairs, body) = draw_fresh(schema, source, ctx);
    substitute_owned(body, pairs.as_slice(), ctx)
}

/// Unifies the trees `l` and `r` as `unify` does their terms. The trees
/// are interned first, so the context may grow.
pub fn unify_fast(l: OwnedType, r: OwnedType, sub: &mut Substitution, ctx: &mut TypeContext) -> (res:
    Result<(), UnificationError>)
    requires
        old(ctx).wf(),
        usable(old(sub)@, old(ctx)),
    ensures
        final(ctx).wf(),
        final(ctx).extends(old(ctx)),
        usable(final(sub)@, final(ctx)),
        starts(final(sub)@, old(sub)@),
        (final(ctx).bindings(final(sub)@), failure(final(ctx), res)) == unified(
            old(ctx).bindings(old(sub)@),
            l@,
            r@,
        ),
        res is Ok ==> resolve(final(ctx).bindings(final(sub)@), l@) == resolve(
            final(ctx).bindings(final(sub)@),
            r@,
        ),
        res is Ok <==> unifiable(old(ctx).bindings(old(sub)@), l@, r@),
        res is Ok ==> forall|f: spec_fn(Variable) -> Term| #[trigger]
            solves(f, final(ctx).bindings(final(sub)@)) <==> solves(
                f,
                old(ctx).bindings(old(sub)@),
            ) && equalizes(f, l@, r@),
{
    let left = ctx.intern_owned(&l);
    let ghost mid = *ctx;
    let right = ctx.intern_owned(&r);
    proof {
        ctx.lemma_extends_twice(&mid, old(ctx));
        ctx.lemma_extends_term(&mid, left);
        ctx.lemma_extends_bindings(old(ctx), old(sub)@);
    }
    unify(left, right, sub, ctx)
}

} // verus!
