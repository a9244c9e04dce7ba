use crate::types::Variable;
use vstd::prelude::*;

verus! {

/// The mathematical value of a type term: a variable, or a named constructor
/// applied to an ordered list of terms.
pub enum Term {
    Var(Variable),
    Con(Seq<char>, Seq<Term>),
}

/// The mathematical value of a type scheme: a term under zero or more
/// quantifiers, the outermost first.
pub enum Scheme {
    Mono(Term),
    Poly(Variable, Box<Scheme>),
}

impl Term {
    /// Whether the variable `v` stands anywhere in the term.
    pub open spec fn has_var(self, v: Variable) -> bool
        decreases self,
    {
        match self {
            Term::Var(w) => w == v,
            Term::Con(_, args) => exists|i: int| 0 <= i < args.len() && (#[trigger] args[i]).has_var(v),
        }
    }

    /// The term with every variable `v` replaced by `f(v)`.
    pub open spec fn rename(self, f: spec_fn(Variable) -> Variable) -> Term
        decreases self,
    {
        match self {
            Term::Var(w) => Term::Var(f(w)),
            Term::Con(head, args) => Term::Con(
                head,
                Seq::new(args.len(), |i: int| if 0 <= i < args.len() { args[i].rename(f) } else { self }),
            ),
        }
    }
}

impl Term {
    /// The number of constructors on the longest way from the top of the term down to a leaf.
    pub open spec fn height(self) -> nat
        decreases self,
    {
        match self {
            Term::Var(_) => 0,
            Term::Con(_, args) => 1 + Term::tallest(args),
        }
    }

    /// The height of the highest term of a list, or 0 for the empty list.
    pub open spec fn tallest(ts: Seq<Term>) -> nat
        decreases ts,
    {
        if ts.len() == 0 {
            0
        } else if ts.last().height() > Term::tallest(ts.drop_last()) {
            ts.last().height()
        } else {
            Term::tallest(ts.drop_last())
        }
    }
}

/// No term of a list is higher than the highest.
pub proof fn lemma_tallest(ts: Seq<Term>, i: int)
    requires
        0 <= i < ts.len(),
    ensures
        ts[i].height() <= Term::tallest(ts),
    decreases ts.len(),
{
    if i < ts.len() - 1 {
        lemma_tallest(ts.drop_last(), i);
    }
}

/// A constructed term is higher than each of its arguments.
pub proof fn lemma_height_arg(head: Seq<char>, args: Seq<Term>, i: int)
    requires
        0 <= i < args.len(),
    ensures
        args[i].height() < Term::Con(head, args).height(),
{
    lemma_tallest(args, i);
}

/// A variable that stands in an argument stands in the constructed term.
pub proof fn lemma_has_var_arg(head: Seq<char>, args: Seq<Term>, i: int, v: Variable)
    requires
        0 <= i < args.len(),
        args[i].has_var(v),
    ensures
        Term::Con(head, args).has_var(v),
{
    let t = Term::Con(head, args);
    assert(t->Con_1 == args);
    assert(t.has_var(v) == (exists|i: int| 0 <= i < args.len() && (#[trigger] args[i]).has_var(v)));
    assert(exists|i: int| 0 <= i < args.len() && (#[trigger] args[i]).has_var(v));
}

/// A variable stands in a constructed term exactly when it stands in one of the arguments.
pub proof fn lemma_has_var_con(head: Seq<char>, args: Seq<Term>, v: Variable)
    ensures
        Term::Con(head, args).has_var(v) == (exists|i: int|
            0 <= i < args.len() && (#[trigger] args[i]).has_var(v)),
{
    let t = Term::Con(head, args);
    assert(t->Con_1 == args);
}

/// Every term of the list renamed.
pub open spec fn rename_all(ts: Seq<Term>, f: spec_fn(Variable) -> Variable) -> Seq<Term> {
    Seq::new(ts.len(), |i: int| ts[i].rename(f))
}

/// Renaming a constructed term renames its arguments.
pub proof fn lemma_rename_con(head: Seq<char>, args: Seq<Term>, f: spec_fn(Variable) -> Variable)
    ensures
        Term::Con(head, args).rename(f) == Term::Con(head, rename_all(args, f)),
{
    assert(Term::Con(head, args).rename(f)->Con_1 =~= rename_all(args, f));
}

/// The variables of a renamed term are the new names of the variables of the term.
pub proof fn lemma_rename_vars(t: Term, f: spec_fn(Variable) -> Variable, w: Variable)
    ensures
        t.rename(f).has_var(w) <==> exists|v: Variable| #[trigger] t.has_var(v) && f(v) == w,
    decreases t,
{
    match t {
        Term::Var(v) => {
            if f(v) == w {
                assert(t.has_var(v) && f(v) == w);
            }
        },
        Term::Con(head, args) => {
            lemma_rename_con(head, args, f);
            let renamed = rename_all(args, f);
            lemma_has_var_con(head, renamed, w);
            if t.rename(f).has_var(w) {
                let i = choose|i: int| 0 <= i < renamed.len() && (#[trigger] renamed[i]).has_var(w);
                lemma_rename_vars(args[i], f, w);
                let v = choose|v: Variable| #[trigger] args[i].has_var(v) && f(v) == w;
                lemma_has_var_arg(head, args, i, v);
                assert(t.has_var(v) && f(v) == w);
            }
            if exists|v: Variable| #[trigger] t.has_var(v) && f(v) == w {
                let v = choose|v: Variable| #[trigger] t.has_var(v) && f(v) == w;
                lemma_has_var_con(head, args, v);
                let i = choose|i: int| 0 <= i < args.len() && (#[trigger] args[i]).has_var(v);
                lemma_rename_vars(args[i], f, w);
                assert(args[i].has_var(v) && f(v) == w);
                assert(renamed[i].has_var(w));
            }
        },
    }
}

impl Scheme {
    /// Whether the variable `v` stands anywhere in the scheme, under a quantifier or in the term.
    pub open spec fn has_var(self, v: Variable) -> bool
        decreases self,
    {
        match self {
            Scheme::Mono(t) => t.has_var(v),
            Scheme::Poly(w, body) => w == v || body.has_var(v),
        }
    }

    /// The scheme with every variable `v`, quantified or not, replaced by `f(v)`.
    pub open spec fn rename(self, f: spec_fn(Variable) -> Variable) -> Scheme
        decreases self,
    {
        match self {
            Scheme::Mono(t) => Scheme::Mono(t.rename(f)),
            Scheme::Poly(w, body) => Scheme::Poly(f(w), Box::new(body.rename(f))),
        }
    }

    /// The quantified variables, the outermost first.
    pub open spec fn quantified(self) -> Seq<Variable>
        decreases self,
    {
        match self {
            Scheme::Mono(_) => Seq::empty(),
            Scheme::Poly(w, body) => seq![w] + body.quantified(),
        }
    }

    /// The term under the quantifiers.
    pub open spec fn body(self) -> Term
        decreases self,
    {
        match self {
            Scheme::Mono(t) => t,
            Scheme::Poly(_, body) => body.body(),
        }
    }
}

/// The scheme `body` under quantifiers for the variables `vs`, the first outermost.
pub open spec fn quantify(vs: Seq<Variable>, body: Scheme) -> Scheme
    decreases vs.len(),
{
    if vs.len() == 0 {
        body
    } else {
        quantify(vs.drop_last(), Scheme::Poly(vs.last(), Box::new(body)))
    }
}

/// Renaming a scheme under quantifiers renames the quantified variables and the scheme.
pub proof fn lemma_quantify_rename(vs: Seq<Variable>, body: Scheme, f: spec_fn(Variable) -> Variable)
    ensures
        quantify(vs, body).rename(f) == quantify(
            Seq::new(vs.len(), |i: int| f(vs[i])),
            body.rename(f),
        ),
    decreases vs.len(),
{
    let renamed = Seq::new(vs.len(), |i: int| f(vs[i]));
    if vs.len() > 0 {
        let inner = Scheme::Poly(vs.last(), Box::new(body));
        lemma_quantify_rename(vs.drop_last(), inner, f);
        let fewer = Seq::new(vs.drop_last().len(), |i: int| f(vs.drop_last()[i]));
        assert(renamed.drop_last() =~= fewer);
        assert(inner.rename(f) == Scheme::Poly(f(vs.last()), Box::new(body.rename(f))));
    }
}

/// A scheme under quantifiers is the scheme under the first quantifier of
/// the scheme under the others.
pub proof fn lemma_quantify_front(v: Variable, vs: Seq<Variable>, body: Scheme)
    ensures
        quantify(seq![v] + vs, body) == Scheme::Poly(v, Box::new(quantify(vs, body))),
    decreases vs.len(),
{
    let all = seq![v] + vs;
    if vs.len() == 0 {
        assert(all.drop_last() =~= Seq::<Variable>::empty());
        assert(all.last() == v);
        assert(quantify(all.drop_last(), Scheme::Poly(v, Box::new(body))) == Scheme::Poly(
            v,
            Box::new(body),
        ));
    } else {
        let inner = Scheme::Poly(vs.last(), Box::new(body));
        lemma_quantify_front(v, vs.drop_last(), inner);
        assert(all.drop_last() =~= seq![v] + vs.drop_last());
        assert(all.last() == vs.last());
    }
}

/// A scheme is the term under its quantifiers, under its quantifiers.
pub proof fn lemma_scheme_shape(s: Scheme)
    ensures
        s == quantify(s.quantified(), Scheme::Mono(s.body())),
    decreases s,
{
    match s {
        Scheme::Mono(_) => {},
        Scheme::Poly(v, body) => {
            lemma_scheme_shape(*body);
            lemma_quantify_front(v, body.quantified(), Scheme::Mono(body.body()));
        },
    }
}

/// The variables of a scheme are its quantified variables and those of the
/// term under the quantifiers.
pub proof fn lemma_scheme_vars(s: Scheme, v: Variable)
    ensures
        s.has_var(v) == (s.quantified().contains(v) || s.body().has_var(v)),
    decreases s,
{
    match s {
        Scheme::Mono(_) => {},
        Scheme::Poly(w, body) => {
            lemma_scheme_vars(*body, v);
            let q = s.quantified();
            if w == v {
                assert(q[0] == v);
            }
            if body.quantified().contains(v) {
                let i = choose|i: int| 0 <= i < body.quantified().len() && body.quantified()[i] == v;
                assert(q[i + 1] == v);
            }
            if q.contains(v) {
                let i = choose|i: int| 0 <= i < q.len() && q[i] == v;
                if i > 0 {
                    assert(body.quantified()[i - 1] == v);
                }
            }
        },
    }
}

} // verus!
