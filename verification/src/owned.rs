use crate::context::{arrow_chain, arrow_term};
use itertools::Itertools;
use crate::term::{lemma_height_arg, Term};
use crate::types::Variable;
use vstd::prelude::*;
use vstd::string::StringExecFns;

verus! {

/// A type term that owns its parts: a tree outside any context, with the
/// name of each constructor written out.
#[derive(Debug, PartialEq, Eq, Hash)]
pub enum OwnedType {
    Constructed(String, Vec<OwnedType>),
    Variable(Variable),
}

impl OwnedType {
    /// The term that the tree stands for.
    pub open spec fn term(self) -> Term
        decreases self,
    {
        match self {
            OwnedType::Variable(v) => Term::Var(v),
            OwnedType::Constructed(name, args) => Term::Con(
                name@,
                Seq::new(
                    args@.len(),
                    |i: int|
                        if 0 <= i < args@.len() {
                            args@[i].term()
                        } else {
                            Term::Var(Variable(0))
                        },
                ),
            ),
        }
    }

    /// A copy of the tree.
    pub fn duplicate(&self) -> (copy: Self)
        ensures
            copy@ == self@,
        decreases self@.height(),
    {
        match self {
            OwnedType::Variable(v) => OwnedType::Variable(*v),
            OwnedType::Constructed(name, args) => {
                let mut copies: Vec<OwnedType> = Vec::with_capacity(args.len());
                let mut i: usize = 0;
                while i < args.len()
                    invariant
                        *self == OwnedType::Constructed(*name, *args),
                        i <= args.len(),
                        copies@.len() == i,
                        forall|j: int| 0 <= j < i ==> (#[trigger] copies@[j])@ == args@[j]@,
                    decreases args.len() - i,
                {
                    proof {
                        lemma_view_con(*name, *args);
                        lemma_height_arg(name@, views(args@), i as int);
                    }
                    copies.push(args[i].duplicate());
                    i += 1;
                }
                let copied = name.clone();
                proof {
                    lemma_view_con(*name, *args);
                    lemma_view_con(copied, copies);
                    assert(views(copies@) =~= views(args@));
                }
                OwnedType::Constructed(copied, copies)
            },
        }
    }
}

impl View for OwnedType {
    type V = Term;

    open spec fn view(&self) -> Term {
        self.term()
    }
}

impl Clone for OwnedType {
    fn clone(&self) -> (copy: Self)
        ensures
            copy@ == self@,
    {
        self.duplicate()
    }
}

/// The terms that the trees of a list stand for.
pub open spec fn views(list: Seq<OwnedType>) -> Seq<Term> {
    Seq::new(list.len(), |i: int| list[i]@)
}

/// A constructed tree stands for its name applied to what its arguments stand for.
pub proof fn lemma_view_con(name: String, args: Vec<OwnedType>)
    ensures
        OwnedType::Constructed(name, args)@ == Term::Con(name@, views(args@)),
{
    assert(OwnedType::Constructed(name, args).term()->Con_1 =~= views(args@));
}

impl OwnedType {
    /// The function type from `alpha` to `beta`.
    pub fn arrow(alpha: OwnedType, beta: OwnedType) -> (t: OwnedType)
        ensures
            t@ == arrow_term(alpha@, beta@),
    {
        let mut args: Vec<OwnedType> = Vec::new();
        args.push(alpha);
        args.push(beta);
        let name = String::from_str("\u{2192}");
        proof {
            lemma_view_con(name, args);
            assert(views(args@) =~= seq![alpha@, beta@]);
        }
        OwnedType::Constructed(name, args)
    }

    /// The function type that takes the terms of `tps` but the last, one
    /// after the other, and returns the last.
    pub fn arrow_slice(tps: Vec<OwnedType>) -> (t: OwnedType)
        requires
            tps@.len() > 0,
        ensures
            t@ == arrow_chain(views(tps@)),
    {
        match fold_arrows(tps) {
            Some(t) => t,
            None => OwnedType::Variable(Variable(0)),
        }
    }
}

/// `Itertools::fold1` over the trees from the last to the first, with
/// `OwnedType::arrow` to put each tree in front of what has been folded:
/// nothing for an empty list, the last tree alone for a list of one, else
/// the arrows from each tree to the fold of those behind it.
#[verifier::external_body]
#[allow(deprecated)]
fn fold_arrows(tps: Vec<OwnedType>) -> (folded: Option<OwnedType>)
    ensures
        tps@.len() == 0 ==> folded is None,
        tps@.len() > 0 ==> folded is Some && folded->0@ == arrow_chain(views(tps@)),
{
    tps.into_iter().rev().fold1(|x, y| OwnedType::arrow(y, x))
}

} // verus!
