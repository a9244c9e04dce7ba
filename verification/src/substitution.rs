use crate::bindings::{binds, lemma_lookup, lookup, rolled_back, single};
use crate::table::CAPACITY_LIMIT;
use crate::types::{Ty, Variable};
use vstd::prelude::*;

verus! {

/// A checkpoint of a substitution: the number of bindings it had.
#[derive(Copy, Clone, Debug, PartialEq, Eq)]
pub struct Snapshot(usize);

/// An ordered list of bindings from variables to terms, in which no variable
/// is bound twice. It grows at the end and is cut back to a checkpoint.
#[derive(Clone, Debug, PartialEq, Eq)]
pub struct Substitution {
    pub(crate) sub: Vec<(Variable, Ty)>,
}

/// A walk over the bindings of a substitution, oldest first.
pub struct SubIter<'a> {
    rest: &'a [(Variable, Ty)],
    at: usize,
}

impl Snapshot {
    /// The number of bindings at the checkpoint.
    pub closed spec fn count(&self) -> nat {
        self.0 as nat
    }
}

impl View for Substitution {
    type V = Seq<(Variable, Ty)>;

    closed spec fn view(&self) -> Seq<(Variable, Ty)> {
        self.sub@
    }
}

impl Substitution {
    /// The invariant of a substitution: no variable is bound twice.
    pub open spec fn wf(&self) -> bool {
        single(self@)
    }

    /// A substitution without bindings, with room for `n`, or for the limit
    /// if `n` is above it.
    pub fn with_capacity(n: usize) -> (sub: Self)
        ensures
            sub.wf(),
            sub@.len() == 0,
    {
        let room = if n > CAPACITY_LIMIT {
            CAPACITY_LIMIT
        } else {
            n
        };
        Substitution { sub: Vec::with_capacity(room) }
    }

    /// What the variable `q` is bound to.
    pub fn get(&self, q: Variable) -> (found: Option<Ty>)
        ensures
            found == lookup(self@, q),
    {
        let mut i: usize = 0;
        while i < self.sub.len()
            invariant
                i <= self.sub.len(),
                lookup(self@.take(i as int), q) is None,
            decreases self.sub.len() - i,
        {
            if self.sub[i].0 == q {
                proof {
                    assert(self@.take(i + 1).drop_last() =~= self@.take(i as int));
                    crate::bindings::lemma_lookup_starts(self@, self@.take(i + 1), q);
                }
                return Some(self.sub[i].1);
            }
            proof {
                assert(self@.take(i + 1).drop_last() =~= self@.take(i as int));
            }
            i += 1;
        }
        assert(self@.take(i as int) =~= self@);
        None
    }

    /// Binds `k` to `v` if `k` is free, and says whether it did.
    pub fn add(&mut self, k: Variable, v: Ty) -> (added: bool)
        requires
            old(self).wf(),
        ensures
            final(self).wf(),
            added == !binds(old(self)@, k),
            added ==> final(self)@ == old(self)@.push((k, v)),
            !added ==> final(self)@ == old(self)@,
    {
        proof {
            lemma_lookup(self@, k);
        }
        if self.get(k).is_some() {
            false
        } else {
            self.sub.push((k, v));
            true
        }
    }

    /// The bindings, oldest first.
    pub fn as_slice(&self) -> (bindings: &[(Variable, Ty)])
        ensures
            bindings@ == self@,
    {
        self.sub.as_slice()
    }

    /// A walk over the bindings, oldest first.
    pub fn iter<'a>(&'a self) -> (it: SubIter<'a>)
        ensures
            it.rest() == self@,
    {
        SubIter { rest: self.sub.as_slice(), at: 0 }
    }

    /// The number of bindings.
    pub fn len(&self) -> (n: usize)
        ensures
            n == self@.len(),
    {
        self.sub.len()
    }

    /// Whether there is no binding.
    pub fn is_empty(&self) -> (b: bool)
        ensures
            b == (self@.len() == 0),
    {
        self.sub.len() == 0
    }

    /// Removes every binding.
    pub fn clean(&mut self)
        ensures
            final(self).wf(),
            final(self)@.len() == 0,
    {
        self.sub.clear();
    }

    /// A checkpoint of the bindings as they are now.
    pub fn snapshot(&self) -> (snap: Snapshot)
        ensures
            snap.count() == self@.len(),
    {
        Snapshot(self.len())
    }

    /// Removes the bindings that were added since the checkpoint `snap`.
    pub fn rollback(&mut self, snap: Snapshot)
        requires
            old(self).wf(),
        ensures
            final(self).wf(),
            final(self)@ == rolled_back(old(self)@, snap.count()),
    {
        self.sub.truncate(snap.0);
    }
}

impl<'a> SubIter<'a> {
    /// The bindings that are still to come.
    pub closed spec fn rest(&self) -> Seq<(Variable, Ty)> {
        if self.at <= self.rest@.len() {
            self.rest@.skip(self.at as int)
        } else {
            Seq::empty()
        }
    }

    /// The next binding, if any is left.
    pub fn next(&mut self) -> (item: Option<&'a (Variable, Ty)>)
        ensures
            old(self).rest().len() == 0 ==> item is None && final(self).rest() == old(self).rest(),
            old(self).rest().len() > 0 ==> item == Some(&old(self).rest()[0]) && final(self).rest()
                == old(self).rest().skip(1),
    {
        if self.at < self.rest.len() {
            let item = &self.rest[self.at];
            self.at += 1;
            proof {
                assert(self.rest() =~= old(self).rest().skip(1));
            }
            Some(item)
        } else {
            None
        }
    }
}

} // verus!
