use crate::bindings::{
    acyclic, lemma_empty_acyclic, lemma_resolve_con, lemma_resolve_var, lemma_weight_con,
    lemma_weight_positive, lemma_weight_var, resolve, resolve_all, total, weight,
};
use crate::context::TypeContext;
use crate::instantiate::{pick_fresh, picking};
use crate::source::SourceChange;
use crate::substitution::Substitution;
use crate::term::{lemma_has_var_arg, lemma_rename_con, rename_all, Term};
use crate::types::{Name, Ty, Type, Variable};
use crate::unify::usable;
use vstd::prelude::*;
use vstd::slice::slice_subrange;

verus! {

/// What rebuilding a term does with its variables: resolve them through a
/// substitution, move them as a change of source says, or give them the
/// new names of a list of pairs.
pub enum Leaf<'a> {
    Resolve(&'a Substitution),
    Shift(&'a SourceChange),
    Pick(&'a [(Variable, Variable)]),
}

/// Resolving through `s`, as a function on terms.
pub open spec fn resolving_terms(s: Seq<(Variable, Term)>) -> spec_fn(Term) -> Term {
    |t: Term| resolve(s, t)
}

/// Renaming by `f`, as a function on terms.
pub open spec fn renaming_terms(f: spec_fn(Variable) -> Variable) -> spec_fn(Term) -> Term {
    |t: Term| t.rename(f)
}

impl<'a> Leaf<'a> {
    /// The bindings that the variables are resolved through, if they are.
    pub open spec fn bindings_in(&self, ctx: &TypeContext) -> Seq<(Variable, Term)> {
        match self {
            Leaf::Resolve(sub) => ctx.bindings(sub@),
            _ => Seq::empty(),
        }
    }

    /// What rebuilding makes of a term.
    pub open spec fn image(&self, s: Seq<(Variable, Term)>) -> spec_fn(Term) -> Term {
        match self {
            Leaf::Resolve(_) => resolving_terms(s),
            Leaf::Shift(change) => renaming_terms(change.renaming()),
            Leaf::Pick(pairs) => renaming_terms(picking(pairs@)),
        }
    }

    /// Whether the new name of the variable `v` is a machine number.
    pub open spec fn takes(&self, v: Variable) -> bool {
        match self {
            Leaf::Shift(change) => change.fits(v),
            _ => true,
        }
    }

    /// Whether the context can be used with what the variables are resolved through.
    pub open spec fn usable_in(&self, ctx: &TypeContext) -> bool {
        match self {
            Leaf::Resolve(sub) => usable(sub@, ctx),
            _ => true,
        }
    }
}

/// What rebuilding makes of a constructed term is the constructed term of
/// what it makes of the arguments.
pub proof fn lemma_image_con(leaf: Leaf, s: Seq<(Variable, Term)>, head: Seq<char>, args: Seq<Term>)
    requires
        acyclic(s),
    ensures
        (leaf.image(s))(Term::Con(head, args)) == Term::Con(
            head,
            Seq::new(args.len(), |i: int| (leaf.image(s))(args[i])),
        ),
{
    let imgs = Seq::new(args.len(), |i: int| (leaf.image(s))(args[i]));
    match leaf {
        Leaf::Resolve(_) => {
            lemma_resolve_con(s, head, args);
            assert(resolve_all(s, args) =~= imgs);
        },
        Leaf::Shift(change) => {
            lemma_rename_con(head, args, change.renaming());
            assert(rename_all(args, change.renaming()) =~= imgs);
        },
        Leaf::Pick(pairs) => {
            lemma_rename_con(head, args, picking(pairs@));
            assert(rename_all(args, picking(pairs@)) =~= imgs);
        },
    }
}

/// One thing still to do while a term is rebuilt: make the image of a
/// term, or put the last so many images under a constructor.
pub enum Step {
    Visit(Term),
    Build(Seq<char>, nat),
}

/// One thing still to do, over handles.
#[derive(Copy, Clone)]
enum Task {
    Visit(Ty),
    Build(Name, usize),
}

/// The images that are made once everything on the stack `pending` is done,
/// the last thing first, after the images `done`.
pub open spec fn run(img: spec_fn(Term) -> Term, pending: Seq<Step>, done: Seq<Term>) -> Seq<Term>
    decreases pending.len(),
{
    if pending.len() == 0 {
        done
    } else {
        match pending.last() {
            Step::Visit(t) => run(img, pending.drop_last(), done.push(img(t))),
            Step::Build(head, n) => if n <= done.len() {
                run(
                    img,
                    pending.drop_last(),
                    done.take(done.len() - n).push(Term::Con(head, done.skip(done.len() - n))),
                )
            } else {
                done
            },
        }
    }
}

/// Whether every constructor on the stack `pending` finds its arguments among
/// the images, if `k` images are made already.
pub open spec fn fits(pending: Seq<Step>, k: nat) -> bool
    decreases pending.len(),
{
    if pending.len() == 0 {
        true
    } else {
        match pending.last() {
            Step::Visit(_) => fits(pending.drop_last(), k + 1),
            Step::Build(_, n) => n <= k && fits(pending.drop_last(), (k - n + 1) as nat),
        }
    }
}

/// The number of steps that the stack `pending` still takes.
pub open spec fn cost(s: Seq<(Variable, Term)>, pending: Seq<Step>) -> nat
    decreases pending.len(),
{
    if pending.len() == 0 {
        0
    } else {
        cost(s, pending.drop_last()) + (match pending.last() {
            Step::Visit(t) => 2 * weight(s, t),
            Step::Build(_, _) => 1,
        })
    }
}

/// The arguments from place `i` on as things to do: the argument at `i` last.
pub open spec fn visits(args: Seq<Term>, i: nat) -> Seq<Step>
    decreases args.len() - i,
{
    if i >= args.len() {
        Seq::empty()
    } else {
        visits(args, i + 1).push(Step::Visit(args[i as int]))
    }
}

/// Doing the arguments from place `i` on makes their images, in order, and
/// takes twice their weight in steps.
pub proof fn lemma_visits(
    img: spec_fn(Term) -> Term,
    s: Seq<(Variable, Term)>,
    base: Seq<Step>,
    args: Seq<Term>,
    i: nat,
    done: Seq<Term>,
)
    requires
        i <= args.len(),
    ensures
        visits(args, i).len() == args.len() - i,
        run(img, base + visits(args, i), done) == run(
            img,
            base,
            done + Seq::new((args.len() - i) as nat, |k: int| img(args[i + k])),
        ),
        fits(base + visits(args, i), done.len()) == fits(
            base,
            (done.len() + args.len() - i) as nat,
        ),
        cost(s, base + visits(args, i)) + 2 * total(s, args.take(i as int)) == cost(s, base) + 2
            * total(s, args),
    decreases args.len() - i,
{
    let images = Seq::new((args.len() - i) as nat, |k: int| img(args[i + k]));
    if i >= args.len() {
        assert(base + visits(args, i) =~= base);
        assert(done + images =~= done);
        assert(args.take(i as int) =~= args);
    } else {
        let stack = base + visits(args, i);
        let next = done.push(img(args[i as int]));
        lemma_visits(img, s, base, args, i + 1, next);
        assert(stack.last() == Step::Visit(args[i as int]));
        assert(stack.drop_last() =~= base + visits(args, i + 1));
        let fewer = Seq::new((args.len() - i - 1) as nat, |k: int| img(args[i + 1 + k]));
        assert(next + fewer =~= done + images);
        assert(args.take(i as int + 1).drop_last() =~= args.take(i as int));
    }
}

/// Whether the stack of handles `pending` is the stack `steps` over terms,
/// and all its handles are those of the context.
spec fn linked(ctx: &TypeContext, pending: Seq<Task>, steps: Seq<Step>) -> bool {
    &&& pending.len() == steps.len()
    &&& forall|i: int|
        0 <= i < pending.len() ==> match #[trigger] pending[i] {
            Task::Visit(x) => ctx.has_type(x) && steps[i] == Step::Visit(ctx.term(x)),
            Task::Build(head, n) => ctx.has_name(head) && steps[i] == Step::Build(
                ctx.name_text(head),
                n as nat,
            ),
        }
}

/// Whether the new names of all variables of the terms on the stack are machine numbers.
spec fn taken(leaf: Leaf, steps: Seq<Step>) -> bool {
    forall|i: int, v: Variable|
        0 <= i < steps.len() && (#[trigger] steps[i]) is Visit && (#[trigger] steps[i]->Visit_0.has_var(
            v,
        )) ==> leaf.takes(v)
}

/// A stack and the images made stay what they are when the context grows.
proof fn lemma_grown(
    ctx: &TypeContext,
    before: &TypeContext,
    pending: Seq<Task>,
    steps: Seq<Step>,
    done: Seq<Ty>,
)
    requires
        before.wf(),
        ctx.extends(before),
        linked(before, pending, steps),
        before.has_types(done),
    ensures
        linked(ctx, pending, steps),
        ctx.has_types(done),
        ctx.terms(done) == before.terms(done),
{
    assert forall|i: int| 0 <= i < pending.len() implies match #[trigger] pending[i] {
        Task::Visit(x) => ctx.has_type(x) && steps[i] == Step::Visit(ctx.term(x)),
        Task::Build(head, n) => ctx.has_name(head) && steps[i] == Step::Build(
            ctx.name_text(head),
            n as nat,
        ),
    } by {
        match pending[i] {
            Task::Visit(x) => {
                ctx.lemma_extends_term(before, x);
            },
            Task::Build(head, n) => {},
        }
    }
    ctx.lemma_extends_terms(before, done);
}

/// The handle of the image of the term `t`. What is still to do is kept on
/// a stack, so that a deep term takes no deep stack of calls.
pub fn rebuild(t: Ty, leaf: &Leaf, ctx: &mut TypeContext) -> (r: Ty)
    requires
        old(ctx).wf(),
        old(ctx).has_type(t),
        leaf.usable_in(old(ctx)),
        forall|v: Variable| old(ctx).term(t).has_var(v) ==> leaf.takes(v),
    ensures
        final(ctx).wf(),
        final(ctx).extends(old(ctx)),
        final(ctx).has_type(r),
        final(ctx).term(r) == (leaf.image(leaf.bindings_in(old(ctx))))(old(ctx).term(t)),
        final(ctx).scheme_nodes() == old(ctx).scheme_nodes(),
{
    let ghost s = leaf.bindings_in(ctx);
    let ghost img = leaf.image(s);
    let ghost goal = img(ctx.term(t));
    let mut pending: Vec<Task> = Vec::new();
    let mut done: Vec<Ty> = Vec::new();
    pending.push(Task::Visit(t));
    let ghost mut steps: Seq<Step> = seq![Step::Visit(ctx.term(t))];
    proof {
        lemma_empty_acyclic();
        assert(pending@[0] == Task::Visit(t));
        assert(steps.drop_last() =~= Seq::<Step>::empty());
        assert(fits(steps.drop_last(), 1));
        assert(run(img, steps.drop_last(), seq![goal]) == seq![goal]);
        assert(Seq::<Term>::empty().push(goal) =~= seq![goal]);
        assert(ctx.terms(done@) =~= Seq::<Term>::empty());
    }
    while pending.len() > 0
        invariant
            old(ctx).wf(),
            ctx.wf(),
            ctx.extends(old(ctx)),
            ctx.scheme_nodes() == old(ctx).scheme_nodes(),
            leaf.usable_in(ctx),
            s == leaf.bindings_in(old(ctx)),
            s == leaf.bindings_in(ctx),
            acyclic(s),
            img == leaf.image(s),
            linked(ctx, pending@, steps),
            ctx.has_types(done@),
            fits(steps, done@.len() as nat),
            run(img, steps, ctx.terms(done@)) == seq![goal],
            taken(*leaf, steps),
        decreases cost(s, steps),
    {
        let ghost made = ctx.terms(done@);
        let ghost at_entry = steps;
        let ghost stack = pending@;
        let task = pending.pop().unwrap();
        let ghost rest = steps.drop_last();
        proof {
            assert(stack[stack.len() - 1] == task);
            assert forall|i: int| 0 <= i < pending@.len() implies match #[trigger] pending@[i] {
                Task::Visit(x) => ctx.has_type(x) && rest[i] == Step::Visit(ctx.term(x)),
                Task::Build(head, n) => ctx.has_name(head) && rest[i] == Step::Build(
                    ctx.name_text(head),
                    n as nat,
                ),
            } by {
                assert(pending@[i] == stack[i]);
            }
            assert forall|i: int, v: Variable|
                0 <= i < rest.len() && (#[trigger] rest[i]) is Visit && (
                #[trigger] rest[i]->Visit_0.has_var(v)) implies leaf.takes(v) by {
                assert(rest[i] == at_entry[i]);
            }
            steps = rest;
        }
        match task {
            Task::Visit(x) => {
                let ghost term = ctx.term(x);
                proof {
                    lemma_weight_positive(s, term);
                    assert(at_entry[at_entry.len() - 1] == Step::Visit(term));
                }
                match ctx.get(x) {
                    Type::Variable(v) => {
                        proof {
                            lemma_weight_var(s, v);
                            assert(term.has_var(v));
                        }
                        match leaf {
                            Leaf::Resolve(sub) => {
                                proof {
                                    ctx.lemma_bindings_lookup(sub@, v);
                                    lemma_resolve_var(s, v);
                                }
                                match sub.get(v) {
                                    Some(u) => {
                                        pending.push(Task::Visit(u));
                                        proof {
                                            steps = rest.push(Step::Visit(ctx.term(u)));
                                            assert(steps.drop_last() =~= rest);
                                            assert forall|i: int, w: Variable|
                                                0 <= i < steps.len() && (#[trigger] steps[i]) is Visit
                                                    && (#[trigger] steps[i]->Visit_0.has_var(
                                                    w,
                                                )) implies leaf.takes(w) by {
                                                if i < rest.len() {
                                                    assert(steps[i] == rest[i]);
                                                }
                                            }
                                        }
                                    },
                                    None => {
                                        done.push(x);
                                        proof {
                                            assert(ctx.terms(done@) =~= made.push(img(term)));
                                        }
                                    },
                                }
                            },
                            Leaf::Shift(change) => {
                                let ghost mid = *ctx;
                                proof {
                                    let top = at_entry.len() - 1;
                                    assert(at_entry[top] is Visit && at_entry[top]->Visit_0.has_var(v));
                                    assert(leaf.takes(v));
                                    assert(term.rename(change.renaming()) == Term::Var(
                                        change.shift(v),
                                    ));
                                    assert(img(term) == Term::Var(change.shift(v)));
                                }
                                let r = if change.is_sacred(v) {
                                    x
                                } else {
                                    ctx.intern_tvar(change.shifted(v))
                                };
                                proof {
                                    lemma_grown(ctx, &mid, pending@, steps, done@);
                                    ctx.lemma_extends_twice(&mid, old(ctx));
                                    if change.is_sacred_spec(v) {
                                        ctx.lemma_extends_term(&mid, x);
                                    }
                                }
                                done.push(r);
                                proof {
                                    assert(ctx.terms(done@) =~= made.push(img(term)));
                                }
                            },
                            Leaf::Pick(pairs) => {
                                let ghost mid = *ctx;
                                proof {
                                    assert(term.rename(picking(pairs@)) == Term::Var(
                                        crate::instantiate::pick(pairs@, v),
                                    ));
                                    assert(img(term) == Term::Var(crate::instantiate::pick(pairs@, v)));
                                }
                                let r = ctx.intern_tvar(pick_fresh(pairs, v));
                                proof {
                                    lemma_grown(ctx, &mid, pending@, steps, done@);
                                    ctx.lemma_extends_twice(&mid, old(ctx));
                                }
                                done.push(r);
                                proof {
                                    assert(ctx.terms(done@) =~= made.push(img(term)));
                                }
                            },
                        }
                    },
                    Type::Constructed(head, a) => {
                        proof {
                            ctx.lemma_term_con(x);
                        }
                        let args = ctx.args(a);
                        let n = args.len();
                        let ghost terms = ctx.terms(args@);
                        let ghost name = ctx.name_text(head);
                        let ghost base = rest.push(Step::Build(name, n as nat));
                        pending.push(Task::Build(head, n));
                        let mut j: usize = n;
                        proof {
                            assert(visits(terms, n as nat) =~= Seq::<Step>::empty());
                            assert(base + visits(terms, n as nat) =~= base);
                            steps = base;
                            assert forall|i: int| 0 <= i < pending@.len() implies match #[trigger] pending@[i] {
                                Task::Visit(y) => ctx.has_type(y) && steps[i] == Step::Visit(
                                    ctx.term(y),
                                ),
                                Task::Build(h, m) => ctx.has_name(h) && steps[i] == Step::Build(
                                    ctx.name_text(h),
                                    m as nat,
                                ),
                            } by {
                                if i < rest.len() {
                                    assert(pending@[i] == stack[i]);
                                }
                            }
                        }
                        while j > 0
                            invariant
                                j <= n,
                                n == args@.len(),
                                ctx.has_types(args@),
                                terms == ctx.terms(args@),
                                linked(ctx, pending@, steps),
                                steps == base + visits(terms, j as nat),
                            decreases j,
                        {
                            j -= 1;
                            let ghost prev = pending@;
                            let ghost seen = steps;
                            pending.push(Task::Visit(args[j]));
                            proof {
                                steps = seen.push(Step::Visit(terms[j as int]));
                                assert(visits(terms, j as nat) == visits(terms, (j + 1) as nat).push(
                                    Step::Visit(terms[j as int]),
                                ));
                                assert(steps =~= base + visits(terms, j as nat));
                                assert forall|i: int| 0 <= i < pending@.len() implies match #[trigger] pending@[i] {
                                    Task::Visit(y) => ctx.has_type(y) && steps[i] == Step::Visit(
                                        ctx.term(y),
                                    ),
                                    Task::Build(h, m) => ctx.has_name(h) && steps[i] == Step::Build(
                                        ctx.name_text(h),
                                        m as nat,
                                    ),
                                } by {
                                    if i < prev.len() {
                                        assert(pending@[i] == prev[i]);
                                        assert(steps[i] == seen[i]);
                                    }
                                }
                            }
                        }
                        proof {
                            let images = Seq::new(n as nat, |k: int| img(terms[0 + k]));
                            lemma_visits(img, s, base, terms, 0, made);
                            lemma_image_con(*leaf, s, name, terms);
                            assert(images =~= Seq::new(terms.len(), |i: int| img(terms[i])));
                            let all = made + images;
                            assert(base.last() == Step::Build(name, n as nat));
                            assert(base.drop_last() =~= rest);
                            assert(all.take(all.len() - n) =~= made);
                            assert(all.skip(all.len() - n) =~= images);
                            assert(run(img, base, all) == run(img, rest, made.push(img(term))));
                            lemma_weight_con(s, name, terms);
                            assert(terms.take(0) =~= Seq::<Term>::empty());
                            assert forall|i: int, w: Variable|
                                0 <= i < steps.len() && (#[trigger] steps[i]) is Visit && (
                                #[trigger] steps[i]->Visit_0.has_var(w)) implies leaf.takes(w) by {
                                if i < rest.len() {
                                    assert(steps[i] == rest[i]);
                                } else if i > rest.len() {
                                    let k = i - rest.len() - 1;
                                    lemma_visit_at(terms, 0, k);
                                    assert(steps[i] == visits(terms, 0)[k]);
                                    lemma_has_var_arg(name, terms, n - 1 - k, w);
                                }
                            }
                        }
                    },
                }
            },
            Task::Build(head, n) => {
                proof {
                    assert(at_entry[at_entry.len() - 1] == Step::Build(ctx.name_text(head), n as nat));
                }
                let at = done.len() - n;
                let ghost mid = *ctx;
                let ghost name = ctx.name_text(head);
                let ghost whole = done@;
                let parts = slice_subrange(done.as_slice(), at, done.len());
                let ghost given = parts@;
                proof {
                    assert forall|i: int| 0 <= i < given.len() implies mid.has_type(
                        #[trigger] given[i],
                    ) by {
                        assert(given[i] == whole[at + i]);
                    }
                }
                let r = ctx.intern_tcon(head, parts);
                done.truncate(at);
                proof {
                    lemma_grown(ctx, &mid, pending@, steps, done@);
                    ctx.lemma_extends_twice(&mid, old(ctx));
                    match leaf {
                        Leaf::Resolve(sub) => {
                            ctx.lemma_extends_bindings(&mid, sub@);
                        },
                        _ => {},
                    }
                    assert(mid.terms(given) =~= made.skip(made.len() - n));
                    assert(mid.terms(done@) =~= made.take(made.len() - n));
                }
                done.push(r);
                proof {
                    assert(ctx.terms(done@) =~= made.take(made.len() - n).push(
                        Term::Con(name, made.skip(made.len() - n)),
                    ));
                }
            },
        }
    }
    proof {
        assert(run(img, steps, ctx.terms(done@)) == ctx.terms(done@));
        assert(ctx.terms(done@)[0] == goal);
    }
    done[0]
}

/// The thing to do at place `k` of the arguments from place `i` on, as
/// things to do, is the argument that many places before the last.
proof fn lemma_visit_at(args: Seq<Term>, i: nat, k: int)
    requires
        i <= args.len(),
        0 <= k < args.len() - i,
    ensures
        visits(args, i).len() == args.len() - i,
        visits(args, i)[k] == Step::Visit(args[args.len() - 1 - k]),
    decreases args.len() - i,
{
    lemma_visits_len(args, i);
    lemma_visits_len(args, i + 1);
    if k < args.len() - i - 1 {
        lemma_visit_at(args, i + 1, k);
    }
}

/// There are as many things to do as arguments from place `i` on.
proof fn lemma_visits_len(args: Seq<Term>, i: nat)
    ensures
        visits(args, i).len() == (if i <= args.len() {
            args.len() - i
        } else {
            0
        }),
    decreases args.len() - i,
{
    if i < args.len() {
        lemma_visits_len(args, i + 1);
    }
}

} // verus!
