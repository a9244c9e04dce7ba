use crate::bindings::{binds, lemma_lookup, lookup, single, starts};
use crate::interner::{Interner, Row, SliceInterner};
use crate::table::{arena_with_capacity, CAPACITY_LIMIT};
use crate::term::{Scheme, Term};
use crate::types::{Args, Name, Schema, Ty, Type, TypeSchema, Variable};
use typed_arena::Arena;
use vstd::prelude::*;
use vstd::utf8::{encode_utf8, encode_utf8_decode_utf8};

verus! {

/// The row of numbers under which a name is looked up: its bytes in UTF-8.
pub open spec fn name_key(name: Seq<char>) -> Seq<usize> {
    Seq::new(encode_utf8(name).len(), |i: int| encode_utf8(name)[i] as usize)
}

/// The row of numbers under which a stored term is looked up.
pub open spec fn type_key(node: Type) -> Seq<usize> {
    match node {
        Type::Variable(v) => seq![0usize, v.0],
        Type::Constructed(head, args) => seq![1usize, head.0, args.0],
    }
}

/// The row of numbers under which a stored scheme is looked up.
pub open spec fn schema_key(node: TypeSchema) -> Seq<usize> {
    match node {
        TypeSchema::Monotype(inner) => seq![0usize, inner.0],
        TypeSchema::Polytype(v, body) => seq![1usize, v.0, body.0],
    }
}

/// The name of the constructor of function types.
pub open spec fn arrow_name() -> Seq<char> {
    "\u{2192}"@
}

/// The function type from `alpha` to `beta`.
pub open spec fn arrow_term(alpha: Term, beta: Term) -> Term {
    Term::Con(arrow_name(), seq![alpha, beta])
}

/// The function type that takes all terms of a non-empty list but the last,
/// one after the other, and returns the last.
pub open spec fn arrow_chain(terms: Seq<Term>) -> Term
    decreases terms.len(),
{
    if terms.len() <= 1 {
        terms[0]
    } else {
        arrow_term(terms[0], arrow_chain(terms.subrange(1, terms.len() as int)))
    }
}

impl Row for Type {
    type Model = Type;

    open spec fn model(&self) -> Type {
        *self
    }

    open spec fn row_of(m: Type) -> Seq<usize> {
        type_key(m)
    }

    fn to_row(&self) -> (row: Vec<usize>) {
        let row = match self {
            Type::Variable(v) => vec![0usize, v.0],
            Type::Constructed(head, a) => vec![1usize, head.0, a.0],
        };
        assert(row@ =~= type_key(*self));
        row
    }

    proof fn lemma_row_one_to_one(a: Type, b: Type) {
        lemma_type_key_one_to_one(a, b);
    }
}

impl Row for TypeSchema {
    type Model = TypeSchema;

    open spec fn model(&self) -> TypeSchema {
        *self
    }

    open spec fn row_of(m: TypeSchema) -> Seq<usize> {
        schema_key(m)
    }

    fn to_row(&self) -> (row: Vec<usize>) {
        let row = match self {
            TypeSchema::Monotype(inner) => vec![0usize, inner.0],
            TypeSchema::Polytype(v, body) => vec![1usize, v.0, body.0],
        };
        assert(row@ =~= schema_key(*self));
        row
    }

    proof fn lemma_row_one_to_one(a: TypeSchema, b: TypeSchema) {
        lemma_schema_key_one_to_one(a, b);
    }
}

impl Row for String {
    type Model = Seq<char>;

    open spec fn model(&self) -> Seq<char> {
        self@
    }

    open spec fn row_of(m: Seq<char>) -> Seq<usize> {
        name_key(m)
    }

    fn to_row(&self) -> (row: Vec<usize>) {
        let bytes = self.as_str().as_bytes();
        let mut row: Vec<usize> = Vec::new();
        let mut k: usize = 0;
        while k < bytes.len()
            invariant
                k <= bytes.len(),
                bytes@ == encode_utf8(self@),
                row@ == name_key(self@).take(k as int),
            decreases bytes.len() - k,
        {
            row.push(bytes[k] as usize);
            k += 1;
            assert(row@ =~= name_key(self@).take(k as int));
        }
        assert(name_key(self@).take(k as int) =~= name_key(self@));
        row
    }

    proof fn lemma_row_one_to_one(a: Seq<char>, b: Seq<char>) {
        lemma_name_key_one_to_one(a, b);
    }
}

/// The stores of one universe of types: for terms, names, argument lists
/// and schemes an arena that keeps the values and a store that finds them.
pub struct Context<'ctx> {
    schema_arena: &'ctx Arena<TypeSchema>,
    schema_map: Interner<'ctx, TypeSchema>,
    type_arena: &'ctx Arena<Type>,
    type_map: Interner<'ctx, Type>,
    name_arena: &'ctx Arena<String>,
    name_map: Interner<'ctx, String>,
    arg_arena: &'ctx Arena<Ty>,
    arg_map: SliceInterner<'ctx>,
}

/// One universe of types, and the one authority for making its terms,
/// names, argument lists and schemes. Every value is kept once; a handle
/// is the place of a value in its store.
pub struct TypeContext<'ctx> {
    ctx: Context<'ctx>,
}

impl<'ctx> Context<'ctx> {
    /// Whether nothing is stored.
    pub closed spec fn is_empty(&self) -> bool {
        &&& self.schema_map.models().len() == 0
        &&& self.type_map.models().len() == 0
        &&& self.name_map.models().len() == 0
        &&& self.arg_map.models().len() == 0
    }

    /// The invariant of the stores.
    pub closed spec fn wf(&self) -> bool {
        &&& self.schema_map.wf()
        &&& self.type_map.wf()
        &&& self.name_map.wf()
        &&& self.arg_map.wf()
    }

    /// Stores over four arenas, with nothing stored.
    pub fn new(
        schema_arena: &'ctx Arena<TypeSchema>,
        type_arena: &'ctx Arena<Type>,
        name_arena: &'ctx Arena<String>,
        arg_arena: &'ctx Arena<Ty>,
    ) -> (ctx: Self)
        ensures
            ctx.wf(),
            ctx.is_empty(),
    {
        Context {
            schema_arena,
            schema_map: Interner::default(),
            type_arena,
            type_map: Interner::default(),
            name_arena,
            name_map: Interner::default(),
            arg_arena,
            arg_map: SliceInterner::default(),
        }
    }

    /// Stores over four arenas, with nothing stored and lookup tables sized
    /// for `n` values each, or for the limit if `n` is above it.
    pub fn with_capacity(
        schema_arena: &'ctx Arena<TypeSchema>,
        type_arena: &'ctx Arena<Type>,
        name_arena: &'ctx Arena<String>,
        arg_arena: &'ctx Arena<Ty>,
        n: usize,
    ) -> (ctx: Self)
        ensures
            ctx.wf(),
            ctx.is_empty(),
    {
        Context {
            schema_arena,
            schema_map: Interner::with_capacity(n),
            type_arena,
            type_map: Interner::with_capacity(n),
            name_arena,
            name_map: Interner::with_capacity(n),
            arg_arena,
            arg_map: SliceInterner::with_capacity(n),
        }
    }
}

impl<'ctx> TypeContext<'ctx> {
    /// The stored terms, in the order in which they were interned.
    pub closed spec fn nodes(&self) -> Seq<Type> {
        self.ctx.type_map.models()
    }

    /// The stored names, in the order in which they were interned.
    pub closed spec fn names(&self) -> Seq<Seq<char>> {
        self.ctx.name_map.models()
    }

    /// The stored argument lists, in the order in which they were interned.
    pub closed spec fn arg_lists(&self) -> Seq<Seq<Ty>> {
        self.ctx.arg_map.models()
    }

    /// The stored schemes, in the order in which they were interned.
    pub closed spec fn scheme_nodes(&self) -> Seq<TypeSchema> {
        self.ctx.schema_map.models()
    }

    /// Whether `head` is the handle of a name of this context.
    pub open spec fn has_name(&self, head: Name) -> bool {
        head.0 < self.names().len()
    }

    /// Whether `t` is the handle of a term of this context.
    pub open spec fn has_type(&self, t: Ty) -> bool {
        t.0 < self.nodes().len()
    }

    /// Whether every handle in `ts` is the handle of a term of this context.
    pub open spec fn has_types(&self, ts: Seq<Ty>) -> bool {
        forall|i: int| 0 <= i < ts.len() ==> self.has_type(#[trigger] ts[i])
    }

    /// Whether `a` is the handle of an argument list of this context.
    pub open spec fn has_args(&self, a: Args) -> bool {
        a.0 < self.arg_lists().len()
    }

    /// Whether `s` is the handle of a scheme of this context.
    pub open spec fn has_schema(&self, s: Schema) -> bool {
        s.0 < self.scheme_nodes().len()
    }

    /// The text of the name behind `head`.
    pub open spec fn name_text(&self, head: Name) -> Seq<char> {
        self.names()[head.0 as int]
    }

    /// The stored term behind `t`.
    pub open spec fn node(&self, t: Ty) -> Type {
        self.nodes()[t.0 as int]
    }

    /// The argument list behind `a`.
    pub open spec fn arg_list(&self, a: Args) -> Seq<Ty> {
        self.arg_lists()[a.0 as int]
    }

    /// The stored scheme behind `s`.
    pub open spec fn scheme_node(&self, s: Schema) -> TypeSchema {
        self.scheme_nodes()[s.0 as int]
    }

    /// The term that the handle `t` stands for.
    pub open spec fn term(&self, t: Ty) -> Term
        decreases t.0,
    {
        if self.has_type(t) {
            match self.node(t) {
                Type::Variable(v) => Term::Var(v),
                Type::Constructed(head, a) => {
                    let list = self.arg_list(a);
                    Term::Con(
                        self.name_text(head),
                        Seq::new(
                            list.len(),
                            |i: int|
                                if 0 <= i < list.len() && list[i].0 < t.0 {
                                    self.term(list[i])
                                } else {
                                    Term::Var(Variable(0))
                                },
                        ),
                    )
                },
            }
        } else {
            Term::Var(Variable(0))
        }
    }

    /// The terms that the handles of `ts` stand for, in order.
    pub open spec fn terms(&self, ts: Seq<Ty>) -> Seq<Term> {
        Seq::new(ts.len(), |i: int| self.term(ts[i]))
    }

    /// The scheme that the handle `s` stands for.
    pub open spec fn scheme(&self, s: Schema) -> Scheme
        decreases s.0,
    {
        if self.has_schema(s) {
            match self.scheme_node(s) {
                TypeSchema::Monotype(inner) => Scheme::Mono(self.term(inner)),
                TypeSchema::Polytype(v, body) => if body.0 < s.0 {
                    Scheme::Poly(v, Box::new(self.scheme(body)))
                } else {
                    Scheme::Mono(Term::Var(Variable(0)))
                },
            }
        } else {
            Scheme::Mono(Term::Var(Variable(0)))
        }
    }

    /// Whether the parts of the term `node` are in the context, its arguments before the place `i`.
    pub open spec fn type_fits(&self, node: Type, i: int) -> bool {
        match node {
            Type::Variable(_) => true,
            Type::Constructed(head, a) => {
                &&& self.has_name(head)
                &&& self.has_args(a)
                &&& forall|j: int|
                    0 <= j < self.arg_list(a).len() ==> (#[trigger] self.arg_list(a)[j]).0 < i
            },
        }
    }

    /// Whether what is under the scheme `node` is in the context, a scheme before the place `i`.
    pub open spec fn schema_fits(&self, node: TypeSchema, i: int) -> bool {
        match node {
            TypeSchema::Monotype(inner) => self.has_type(inner),
            TypeSchema::Polytype(_, body) => body.0 < i,
        }
    }

    /// The parts of every stored value are in the context, and came before it.
    pub open spec fn closed_under_parts(&self) -> bool {
        &&& forall|i: int|
            0 <= i < self.nodes().len() ==> self.type_fits(#[trigger] self.nodes()[i], i)
        &&& forall|i: int|
            0 <= i < self.scheme_nodes().len() ==> self.schema_fits(
                #[trigger] self.scheme_nodes()[i],
                i,
            )
    }

    /// No store holds a value twice.
    pub open spec fn kept_once(&self) -> bool {
        &&& self.nodes().no_duplicates()
        &&& self.names().no_duplicates()
        &&& self.arg_lists().no_duplicates()
        &&& self.scheme_nodes().no_duplicates()
    }

    /// Each store finds every value that it keeps.
    pub closed spec fn tables_agree(&self) -> bool {
        self.ctx.wf()
    }

    /// The invariant of a context.
    pub open spec fn wf(&self) -> bool {
        &&& self.closed_under_parts()
        &&& self.kept_once()
        &&& self.tables_agree()
    }

    /// Whether this context holds everything that `before` holds, at the same places.
    pub open spec fn extends(&self, before: &Self) -> bool {
        &&& starts(self.nodes(), before.nodes())
        &&& starts(self.names(), before.names())
        &&& starts(self.arg_lists(), before.arg_lists())
        &&& starts(self.scheme_nodes(), before.scheme_nodes())
    }

    /// A context that only grew keeps the parts of its values in place.
    proof fn lemma_grown(&self, before: &Self)
        requires
            before.closed_under_parts(),
            self.extends(before),
            forall|i: int|
                before.nodes().len() <= i < self.nodes().len() ==> self.type_fits(
                    #[trigger] self.nodes()[i],
                    i,
                ),
            forall|i: int|
                before.scheme_nodes().len() <= i < self.scheme_nodes().len() ==> self.schema_fits(
                    #[trigger] self.scheme_nodes()[i],
                    i,
                ),
        ensures
            self.closed_under_parts(),
    {
        assert forall|i: int| 0 <= i < self.nodes().len() implies self.type_fits(
            #[trigger] self.nodes()[i],
            i,
        ) by {
            if i < before.nodes().len() {
                assert(before.type_fits(before.nodes()[i], i));
                match before.nodes()[i] {
                    Type::Variable(_) => {},
                    Type::Constructed(head, a) => {
                        assert(self.arg_list(a) == before.arg_list(a));
                    },
                }
            }
        }
        assert forall|i: int| 0 <= i < self.scheme_nodes().len() implies self.schema_fits(
            #[trigger] self.scheme_nodes()[i],
            i,
        ) by {
            if i < before.scheme_nodes().len() {
                assert(before.schema_fits(before.scheme_nodes()[i], i));
            }
        }
    }

    /// The universe of types over the stores `ctx`, which hold nothing yet.
    pub fn new(ctx: Context<'ctx>) -> (types: Self)
        requires
            ctx.wf(),
            ctx.is_empty(),
        ensures
            types.wf(),
            types.nodes().len() == 0,
            types.names().len() == 0,
            types.arg_lists().len() == 0,
            types.scheme_nodes().len() == 0,
    {
        TypeContext { ctx }
    }

    /// The handle of the name `n`, which is stored if it is new.
    pub fn intern_name(&mut self, n: &str) -> (head: Name)
        requires
            old(self).wf(),
        ensures
            final(self).wf(),
            final(self).extends(old(self)),
            final(self).has_name(head),
            final(self).name_text(head) == n@,
            final(self).nodes() == old(self).nodes(),
            final(self).arg_lists() == old(self).arg_lists(),
            final(self).scheme_nodes() == old(self).scheme_nodes(),
            final(self).names() == old(self).names() || final(self).names() == old(
                self,
            ).names().push(n@),
    {
        let i = self.ctx.name_map.intern(n.to_owned(), self.ctx.name_arena);
        proof {
            self.ctx.name_map.lemma_kept_once();
            self.lemma_grown(old(self));
        }
        Name(i)
    }

    /// The handle of the stored term `node`, which is stored if it is new.
    fn intern_type(&mut self, node: Type) -> (t: Ty)
        requires
            old(self).wf(),
            old(self).type_fits(node, old(self).nodes().len() as int),
        ensures
            final(self).wf(),
            final(self).extends(old(self)),
            final(self).has_type(t),
            final(self).node(t) == node,
            final(self).names() == old(self).names(),
            final(self).arg_lists() == old(self).arg_lists(),
            final(self).scheme_nodes() == old(self).scheme_nodes(),
            final(self).nodes() == old(self).nodes() || final(self).nodes() == old(
                self,
            ).nodes().push(node),
    {
        let i = self.ctx.type_map.intern(node, self.ctx.type_arena);
        proof {
            self.ctx.type_map.lemma_kept_once();
            match node {
                Type::Variable(_) => {},
                Type::Constructed(head, a) => {
                    assert(self.arg_list(a) == old(self).arg_list(a));
                },
            }
            self.lemma_grown(old(self));
        }
        Ty(i)
    }

    /// The handle of the variable `v` as a term.
    pub fn intern_tvar(&mut self, v: Variable) -> (t: Ty)
        requires
            old(self).wf(),
        ensures
            final(self).wf(),
            final(self).extends(old(self)),
            final(self).has_type(t),
            final(self).node(t) == Type::Variable(v),
            final(self).term(t) == Term::Var(v),
            final(self).names() == old(self).names(),
            final(self).arg_lists() == old(self).arg_lists(),
            final(self).scheme_nodes() == old(self).scheme_nodes(),
            final(self).nodes() == old(self).nodes() || final(self).nodes() == old(
                self,
            ).nodes().push(Type::Variable(v)),
    {
        self.intern_type(Type::Variable(v))
    }

    /// The handle of the argument list `args`, which is stored if it is new.
    pub fn intern_args(&mut self, args: &[Ty]) -> (a: Args)
        requires
            old(self).wf(),
        ensures
            final(self).wf(),
            final(self).extends(old(self)),
            final(self).has_args(a),
            final(self).arg_list(a) == args@,
            final(self).names() == old(self).names(),
            final(self).nodes() == old(self).nodes(),
            final(self).scheme_nodes() == old(self).scheme_nodes(),
            final(self).arg_lists() == old(self).arg_lists() || final(self).arg_lists() == old(
                self,
            ).arg_lists().push(args@),
    {
        let i = self.ctx.arg_map.intern(args, self.ctx.arg_arena);
        proof {
            self.ctx.arg_map.lemma_kept_once();
            self.lemma_grown(old(self));
        }
        Args(i)
    }

    /// The handle of the term made of the constructor `head` and the arguments `args`.
    pub fn intern_tcon(&mut self, head: Name, args: &[Ty]) -> (t: Ty)
        requires
            old(self).wf(),
            old(self).has_name(head),
            old(self).has_types(args@),
        ensures
            final(self).wf(),
            final(self).extends(old(self)),
            final(self).has_type(t),
            final(self).term(t) == Term::Con(old(self).name_text(head), old(self).terms(args@)),
            final(self).names() == old(self).names(),
            final(self).scheme_nodes() == old(self).scheme_nodes(),
            final(self).nodes().len() <= old(self).nodes().len() + 1,
    {
        let a = self.intern_args(args);
        let ghost mid = *self;
        let t = self.intern_type(Type::Constructed(head, a));
        proof {
            self.lemma_term_con(t);
            assert(self.terms(args@) =~= old(self).terms(args@)) by {
                assert forall|j: int| 0 <= j < args@.len() implies self.term(args@[j]) == old(
                    self,
                ).term(args@[j]) by {
                    self.lemma_extends_term(old(self), args@[j]);
                }
            }
        }
        t
    }

    /// The handle of the function type from `alpha` to `beta`.
    pub fn arrow(&mut self, alpha: Ty, beta: Ty) -> (t: Ty)
        requires
            old(self).wf(),
            old(self).has_type(alpha),
            old(self).has_type(beta),
        ensures
            final(self).wf(),
            final(self).extends(old(self)),
            final(self).has_type(t),
            final(self).term(t) == arrow_term(old(self).term(alpha), old(self).term(beta)),
            final(self).scheme_nodes() == old(self).scheme_nodes(),
    {
        let head = self.intern_name("\u{2192}");
        let ghost mid = *self;
        let args = vec![alpha, beta];
        let t = self.intern_tcon(head, args.as_slice());
        proof {
            mid.lemma_extends_term(old(self), alpha);
            mid.lemma_extends_term(old(self), beta);
            assert(mid.terms(args@) =~= seq![old(self).term(alpha), old(self).term(beta)]);
        }
        t
    }

    /// The handle of the function type that takes the terms of `tps` but the
    /// last, one after the other, and returns the last.
    pub fn arrow_slice(&mut self, tps: &[Ty]) -> (t: Ty)
        requires
            old(self).wf(),
            old(self).has_types(tps@),
            tps@.len() > 0,
        ensures
            final(self).wf(),
            final(self).extends(old(self)),
            final(self).has_type(t),
            final(self).term(t) == arrow_chain(old(self).terms(tps@)),
            final(self).scheme_nodes() == old(self).scheme_nodes(),
    {
        let n = tps.len();
        let mut i: usize = n - 1;
        let mut acc = tps[i];
        let ghost all = self.terms(tps@);
        assert(all.subrange(i as int, n as int) =~= seq![all[i as int]]);
        while i > 0
            invariant
                i < n,
                n == tps@.len(),
                all == old(self).terms(tps@),
                old(self).wf(),
                old(self).has_types(tps@),
                self.wf(),
                self.extends(old(self)),
                self.has_type(acc),
                self.term(acc) == arrow_chain(all.subrange(i as int, n as int)),
                self.scheme_nodes() == old(self).scheme_nodes(),
            decreases i,
        {
            i -= 1;
            let ghost mid = *self;
            acc = self.arrow(tps[i], acc);
            proof {
                mid.lemma_extends_term(old(self), tps@[i as int]);
                let rest = all.subrange(i as int, n as int);
                assert(rest.subrange(1, rest.len() as int) =~= all.subrange(i + 1, n as int));
                assert(rest[0] == all[i as int]);
            }
        }
        assert(all.subrange(0, n as int) =~= all);
        acc
    }

    /// The handle of the stored scheme `node`, which is stored if it is new.
    fn intern_schema(&mut self, node: TypeSchema) -> (s: Schema)
        requires
            old(self).wf(),
            old(self).schema_fits(node, old(self).scheme_nodes().len() as int),
        ensures
            final(self).wf(),
            final(self).extends(old(self)),
            final(self).has_schema(s),
            final(self).scheme_node(s) == node,
            final(self).names() == old(self).names(),
            final(self).arg_lists() == old(self).arg_lists(),
            final(self).nodes() == old(self).nodes(),
            final(self).scheme_nodes() == old(self).scheme_nodes() || final(self).scheme_nodes()
                == old(self).scheme_nodes().push(node),
    {
        let i = self.ctx.schema_map.intern(node, self.ctx.schema_arena);
        proof {
            self.ctx.schema_map.lemma_kept_once();
            self.lemma_grown(old(self));
        }
        Schema(i)
    }

    /// The handle of the scheme that is the term `inner` with no quantifier.
    pub fn intern_monotype(&mut self, inner: Ty) -> (s: Schema)
        requires
            old(self).wf(),
            old(self).has_type(inner),
        ensures
            final(self).wf(),
            final(self).extends(old(self)),
            final(self).has_schema(s),
            final(self).scheme(s) == Scheme::Mono(old(self).term(inner)),
            final(self).names() == old(self).names(),
            final(self).arg_lists() == old(self).arg_lists(),
            final(self).nodes() == old(self).nodes(),
    {
        let s = self.intern_schema(TypeSchema::Monotype(inner));
        proof {
            self.lemma_extends_term(old(self), inner);
        }
        s
    }

    /// The handle of the scheme that quantifies `v` over the scheme `body`.
    pub fn intern_polytype(&mut self, v: Variable, body: Schema) -> (s: Schema)
        requires
            old(self).wf(),
            old(self).has_schema(body),
        ensures
            final(self).wf(),
            final(self).extends(old(self)),
            final(self).has_schema(s),
            final(self).scheme(s) == Scheme::Poly(v, Box::new(old(self).scheme(body))),
            final(self).names() == old(self).names(),
            final(self).arg_lists() == old(self).arg_lists(),
            final(self).nodes() == old(self).nodes(),
    {
        let s = self.intern_schema(TypeSchema::Polytype(v, body));
        proof {
            self.lemma_extends_scheme(old(self), body);
        }
        s
    }

    /// The stored term behind the handle `t`.
    pub fn get(&self, t: Ty) -> (node: Type)
        requires
            self.has_type(t),
        ensures
            node == self.node(t),
    {
        *self.ctx.type_map.get(t.0)
    }

    /// The argument list behind the handle `a`.
    pub fn args(&self, a: Args) -> (list: &[Ty])
        requires
            self.has_args(a),
        ensures
            list@ == self.arg_list(a),
    {
        self.ctx.arg_map.get(a.0)
    }

    /// The text of the name behind the handle `head`.
    pub fn name(&self, head: Name) -> (text: &str)
        requires
            self.has_name(head),
        ensures
            text@ == self.name_text(head),
    {
        self.ctx.name_map.get(head.0).as_str()
    }

    /// The stored scheme behind the handle `s`.
    pub fn get_schema(&self, s: Schema) -> (node: TypeSchema)
        requires
            self.has_schema(s),
        ensures
            node == self.scheme_node(s),
    {
        *self.ctx.schema_map.get(s.0)
    }

    /// Whether `t` is the handle of a term of this context.
    pub fn contains_type(&self, t: Ty) -> (b: bool)
        ensures
            b == self.has_type(t),
    {
        t.0 < self.ctx.type_map.len()
    }

    /// Whether `head` is the handle of a name of this context.
    pub fn contains_name(&self, head: Name) -> (b: bool)
        ensures
            b == self.has_name(head),
    {
        head.0 < self.ctx.name_map.len()
    }

    /// Whether `s` is the handle of a scheme of this context.
    pub fn contains_schema(&self, s: Schema) -> (b: bool)
        ensures
            b == self.has_schema(s),
    {
        s.0 < self.ctx.schema_map.len()
    }

    /// A constructed term is its name applied to the terms of its argument
    /// list, all of which came before it.
    pub proof fn lemma_term_con(&self, t: Ty)
        requires
            self.closed_under_parts(),
            self.has_type(t),
            self.node(t) is Constructed,
        ensures
            self.has_name(self.node(t)->Constructed_0),
            self.has_args(self.node(t)->Constructed_1),
            self.has_types(self.arg_list(self.node(t)->Constructed_1)),
            forall|j: int|
                0 <= j < self.arg_list(self.node(t)->Constructed_1).len() ==> (#[trigger] self.arg_list(
                    self.node(t)->Constructed_1,
                )[j]).0 < t.0,
            self.term(t) == Term::Con(
                self.name_text(self.node(t)->Constructed_0),
                self.terms(self.arg_list(self.node(t)->Constructed_1)),
            ),
    {
        assert(self.type_fits(self.nodes()[t.0 as int], t.0 as int));
        let list = self.arg_list(self.node(t)->Constructed_1);
        assert(self.term(t)->Con_1 =~= self.terms(list));
    }

    /// A handle stands for the same term in every context that grew out of its own.
    pub proof fn lemma_extends_term(&self, before: &Self, t: Ty)
        requires
            before.closed_under_parts(),
            self.extends(before),
            before.has_type(t),
        ensures
            self.has_type(t),
            self.term(t) == before.term(t),
        decreases t.0,
    {
        assert(before.type_fits(before.nodes()[t.0 as int], t.0 as int));
        match before.node(t) {
            Type::Variable(_) => {},
            Type::Constructed(head, a) => {
                let list = before.arg_list(a);
                assert(self.arg_list(a) == list);
                assert forall|j: int| 0 <= j < list.len() && list[j].0 < t.0 implies self.term(
                    list[j],
                ) == before.term(list[j]) by {
                    self.lemma_extends_term(before, list[j]);
                }
                assert(self.term(t)->Con_1 =~= before.term(t)->Con_1);
            },
        }
    }

    /// A list of handles stands for the same terms in every context that grew out of its own.
    pub proof fn lemma_extends_terms(&self, before: &Self, ts: Seq<Ty>)
        requires
            before.closed_under_parts(),
            self.extends(before),
            before.has_types(ts),
        ensures
            self.has_types(ts),
            self.terms(ts) == before.terms(ts),
    {
        assert forall|j: int| 0 <= j < ts.len() implies self.has_type(#[trigger] ts[j]) && self.term(ts[j])
            == before.term(ts[j]) by {
            self.lemma_extends_term(before, ts[j]);
        }
        assert(self.terms(ts) =~= before.terms(ts));
    }

    /// A handle stands for the same scheme in every context that grew out of its own.
    pub proof fn lemma_extends_scheme(&self, before: &Self, s: Schema)
        requires
            before.closed_under_parts(),
            self.extends(before),
            before.has_schema(s),
        ensures
            self.has_schema(s),
            self.scheme(s) == before.scheme(s),
        decreases s.0,
    {
        assert(before.schema_fits(before.scheme_nodes()[s.0 as int], s.0 as int));
        match before.scheme_node(s) {
            TypeSchema::Monotype(inner) => {
                self.lemma_extends_term(before, inner);
            },
            TypeSchema::Polytype(_, body) => {
                self.lemma_extends_scheme(before, body);
            },
        }
    }

    /// Whether every term that the list `s` binds a variable to is in this context.
    pub open spec fn has_bindings(&self, s: Seq<(Variable, Ty)>) -> bool {
        forall|i: int| 0 <= i < s.len() ==> self.has_type((#[trigger] s[i]).1)
    }

    /// The list `s` with each handle replaced by the term it stands for.
    pub open spec fn bindings(&self, s: Seq<(Variable, Ty)>) -> Seq<(Variable, Term)> {
        Seq::new(s.len(), |i: int| (s[i].0, self.term(s[i].1)))
    }

    /// Looking up a variable among the terms finds the term of the handle
    /// that looking it up among the handles finds.
    pub proof fn lemma_bindings_lookup(&self, s: Seq<(Variable, Ty)>, v: Variable)
        ensures
            lookup(self.bindings(s), v) == (match lookup(s, v) {
                Some(t) => Some(self.term(t)),
                None => None,
            }),
            binds(self.bindings(s), v) == binds(s, v),
            lookup(s, v) is Some && self.has_bindings(s) ==> self.has_type(lookup(s, v)->0),
        decreases s.len(),
    {
        lemma_lookup(s, v);
        lemma_lookup(self.bindings(s), v);
        if s.len() > 0 {
            assert(self.bindings(s).drop_last() =~= self.bindings(s.drop_last()));
            self.lemma_bindings_lookup(s.drop_last(), v);
            lemma_lookup(s.drop_last(), v);
        }
        if lookup(s, v) is Some && self.has_bindings(s) {
            let i = choose|i: int| 0 <= i < s.len() && #[trigger] s[i] == (v, lookup(s, v)->0);
            assert(self.has_type(s[i].1));
        }
    }

    /// No variable is bound twice among the terms exactly when none is among the handles.
    pub proof fn lemma_bindings_single(&self, s: Seq<(Variable, Ty)>)
        ensures
            single(self.bindings(s)) == single(s),
    {
        let b = self.bindings(s);
        if single(s) {
            assert forall|i: int, j: int|
                0 <= i < b.len() && 0 <= j < b.len() && (#[trigger] b[i]).0 == (#[trigger] b[j]).0 implies i
                == j by {
                assert(s[i].0 == s[j].0);
            }
        }
        if single(b) {
            assert forall|i: int, j: int|
                0 <= i < s.len() && 0 <= j < s.len() && (#[trigger] s[i]).0 == (#[trigger] s[j]).0 implies i
                == j by {
                assert(b[i].0 == b[j].0);
            }
        }
    }

    /// A list of bindings stands for the same terms in every context that grew out of its own.
    pub proof fn lemma_extends_bindings(&self, before: &Self, s: Seq<(Variable, Ty)>)
        requires
            before.closed_under_parts(),
            self.extends(before),
            before.has_bindings(s),
        ensures
            self.has_bindings(s),
            self.bindings(s) == before.bindings(s),
    {
        assert forall|i: int| 0 <= i < s.len() implies self.has_type((#[trigger] s[i]).1)
            && self.term(s[i].1) == before.term(s[i].1) by {
            self.lemma_extends_term(before, s[i].1);
        }
        assert(self.bindings(s) =~= before.bindings(s));
    }

    /// A context that grew out of one that grew out of a third grew out of the third.
    pub proof fn lemma_extends_twice(&self, mid: &Self, before: &Self)
        requires
            self.extends(mid),
            mid.extends(before),
        ensures
            self.extends(before),
    {
    }

    /// A scheme has no more quantifiers than schemes came before it, and
    /// fewer than there are machine numbers.
    pub proof fn lemma_quantified_bound(&self, s: Schema)
        requires
            self.wf(),
            self.has_schema(s),
        ensures
            self.scheme(s).quantified().len() <= s.0 < usize::MAX,
        decreases s.0,
    {
        self.ctx.schema_map.lemma_len_bound();
        assert(self.schema_fits(self.scheme_nodes()[s.0 as int], s.0 as int));
        match self.scheme_node(s) {
            TypeSchema::Monotype(_) => {},
            TypeSchema::Polytype(_, body) => {
                self.lemma_quantified_bound(body);
            },
        }
    }

    /// A context may be used with the substitution that binds nothing.
    pub proof fn lemma_no_bindings(&self)
        ensures
            self.has_bindings(Seq::empty()),
            self.bindings(Seq::empty()) == Seq::<(Variable, Term)>::empty(),
    {
        assert(self.bindings(Seq::empty()) =~= Seq::<(Variable, Term)>::empty());
    }

    /// Within one context two handles are equal exactly when they stand for the same term.
    pub proof fn lemma_types_kept_once(&self, a: Ty, b: Ty)
        requires
            self.wf(),
            self.has_type(a),
            self.has_type(b),
        ensures
            (self.term(a) == self.term(b)) <==> a == b,
        decreases a.0,
    {
        if self.term(a) == self.term(b) {
            match (self.node(a), self.node(b)) {
                (Type::Variable(_), Type::Variable(_)) => {},
                (Type::Constructed(h1, a1), Type::Constructed(h2, a2)) => {
                    self.lemma_term_con(a);
                    self.lemma_term_con(b);
                    let l1 = self.arg_list(a1);
                    let l2 = self.arg_list(a2);
                    assert(self.terms(l1).len() == self.terms(l2).len());
                    assert forall|j: int| 0 <= j < l1.len() implies l1[j] == l2[j] by {
                        assert(self.terms(l1)[j] == self.terms(l2)[j]);
                        self.lemma_types_kept_once(l1[j], l2[j]);
                    }
                    assert(l1 =~= l2);
                },
                (Type::Variable(_), Type::Constructed(_, _)) => {
                    self.lemma_term_con(b);
                },
                (Type::Constructed(_, _), Type::Variable(_)) => {
                    self.lemma_term_con(a);
                },
            }
        }
    }

    /// Within one context two handles are equal exactly when they stand for the same scheme.
    pub proof fn lemma_schemas_kept_once(&self, a: Schema, b: Schema)
        requires
            self.wf(),
            self.has_schema(a),
            self.has_schema(b),
        ensures
            (self.scheme(a) == self.scheme(b)) <==> a == b,
        decreases a.0,
    {
        assert(self.schema_fits(self.scheme_nodes()[a.0 as int], a.0 as int));
        assert(self.schema_fits(self.scheme_nodes()[b.0 as int], b.0 as int));
        if self.scheme(a) == self.scheme(b) {
            match (self.scheme_node(a), self.scheme_node(b)) {
                (TypeSchema::Monotype(t1), TypeSchema::Monotype(t2)) => {
                    self.lemma_types_kept_once(t1, t2);
                },
                (TypeSchema::Polytype(_, b1), TypeSchema::Polytype(_, b2)) => {
                    self.lemma_schemas_kept_once(b1, b2);
                },
                _ => {},
            }
        }
    }

    /// Within one context two handles are equal exactly when they stand for the same name.
    pub proof fn lemma_names_kept_once(&self, a: Name, b: Name)
        requires
            self.wf(),
            self.has_name(a),
            self.has_name(b),
        ensures
            (self.name_text(a) == self.name_text(b)) <==> a == b,
    {
    }
}

/// Names with the same row are the same.
pub proof fn lemma_name_key_one_to_one(a: Seq<char>, b: Seq<char>)
    requires
        name_key(a) == name_key(b),
    ensures
        a == b,
{
    let x = encode_utf8(a);
    let y = encode_utf8(b);
    assert(name_key(a).len() == x.len());
    assert(name_key(b).len() == y.len());
    assert forall|i: int| 0 <= i < x.len() implies x[i] == y[i] by {
        assert(name_key(a)[i] == x[i] as usize);
        assert(name_key(b)[i] == y[i] as usize);
    }
    assert(x =~= y);
    encode_utf8_decode_utf8(a);
    encode_utf8_decode_utf8(b);
}

/// Stored terms with the same row are the same.
pub proof fn lemma_type_key_one_to_one(a: Type, b: Type)
    requires
        type_key(a) == type_key(b),
    ensures
        a == b,
{
    assert(type_key(a)[0] == type_key(b)[0]);
    assert(type_key(a)[1] == type_key(b)[1]);
    match (a, b) {
        (Type::Constructed(_, _), Type::Constructed(_, _)) => {
            assert(type_key(a)[2] == type_key(b)[2]);
        },
        _ => {},
    }
}

/// Stored schemes with the same row are the same.
pub proof fn lemma_schema_key_one_to_one(a: TypeSchema, b: TypeSchema)
    requires
        schema_key(a) == schema_key(b),
    ensures
        a == b,
{
    assert(schema_key(a)[0] == schema_key(b)[0]);
    assert(schema_key(a)[1] == schema_key(b)[1]);
    match (a, b) {
        (TypeSchema::Polytype(_, _), TypeSchema::Polytype(_, _)) => {
            assert(schema_key(a)[2] == schema_key(b)[2]);
        },
        _ => {},
    }
}

/// A new arena with room for `n` values, or for fewer if `n` is above the
/// limit or the values are large.
fn new_arena<T>(n: usize) -> (arena: Arena<T>) {
    let size = core::mem::size_of::<T>();
    let room = if size > 64 {
        0
    } else if n > CAPACITY_LIMIT {
        CAPACITY_LIMIT
    } else {
        n
    };
    assert(room * size <= isize::MAX) by (nonlinear_arith)
        requires
            room <= 0x1_0000,
            size <= 64 || room == 0,
            isize::MAX >= 0x7fff_ffff,
    ;
    arena_with_capacity(room)
}

/// Runs `f` on a new context with nothing interned, whose arenas and
/// lookup tables are sized for `n` values each, or for the limit if `n` is
/// above it, and live until `f` is done.
pub fn with_ctx<F, R>(n: usize, f: F) -> (r: R) where F: FnOnce(TypeContext<'_>) -> R
    requires
        forall|ctx: TypeContext<'_>|
            ctx.wf() && ctx.nodes().len() == 0 && ctx.names().len() == 0 && ctx.arg_lists().len()
                == 0 && ctx.scheme_nodes().len() == 0 ==> #[trigger] f.requires((ctx,)),
    ensures
        exists|ctx: TypeContext<'_>|
            ctx.wf() && ctx.nodes().len() == 0 && ctx.names().len() == 0 && ctx.arg_lists().len()
                == 0 && ctx.scheme_nodes().len() == 0 && #[trigger] f.ensures((ctx,), r),
{
    let schemaa: Arena<TypeSchema> = new_arena(n);
    let typea: Arena<Type> = new_arena(n);
    let namea: Arena<String> = new_arena(n);
    let tya: Arena<Ty> = new_arena(n);
    let ctx = Context::with_capacity(&schemaa, &typea, &namea, &tya, n);
    let ctx = TypeContext::new(ctx);
    f(ctx)
}

} // verus!
