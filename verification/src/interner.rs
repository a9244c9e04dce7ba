use crate::table::{
    arena_alloc, arena_alloc_extend, entries, table_get, table_insert, table_new, CAPACITY_LIMIT,
};
use crate::types::Ty;
use fnv::FnvHashMap;
use typed_arena::Arena;
use vstd::prelude::*;

verus! {

/// Whether a lookup table leads from each key of a list to its place in the list, and to nothing else.
pub open spec fn indexes<K>(entries: Map<K, usize>, keys: Seq<K>) -> bool {
    &&& forall|k: K| #[trigger]
        entries.contains_key(k) ==> entries[k] < keys.len() && keys[entries[k] as int] == k
    &&& forall|i: int|
        0 <= i < keys.len() ==> entries.contains_key(#[trigger] keys[i]) && entries[keys[i]] == i
}

/// A key that the table lacks may be put at the end of the list.
pub proof fn lemma_indexes_push<K>(entries: Map<K, usize>, keys: Seq<K>, key: K)
    requires
        indexes(entries, keys),
        !entries.contains_key(key),
        keys.len() <= usize::MAX,
    ensures
        indexes(entries.insert(key, keys.len() as usize), keys.push(key)),
        forall|i: int| 0 <= i < keys.len() ==> keys[i] != key,
{
    let after = entries.insert(key, keys.len() as usize);
    let longer = keys.push(key);
    assert forall|i: int| 0 <= i < keys.len() implies keys[i] != key by {
        assert(entries.contains_key(keys[i]));
    }
    assert forall|i: int| 0 <= i < longer.len() implies after.contains_key(#[trigger] longer[i])
        && after[longer[i]] == i by {
        if i < keys.len() {
            assert(entries.contains_key(keys[i]));
        }
    }
}

/// A value that can be interned: it is looked up under a row of numbers
/// that only values with the same meaning share.
pub trait Row: Sized {
    /// What a value means.
    type Model;

    /// The meaning of the value.
    spec fn model(&self) -> Self::Model;

    /// The row of numbers under which a meaning is looked up.
    spec fn row_of(m: Self::Model) -> Seq<usize>;

    /// The row of numbers under which the value is looked up.
    fn to_row(&self) -> (row: Vec<usize>)
        ensures
            row@ == Self::row_of(self.model()),
    ;

    /// Meanings with the same row are the same.
    proof fn lemma_row_one_to_one(a: Self::Model, b: Self::Model)
        requires
            Self::row_of(a) == Self::row_of(b),
        ensures
            a == b,
    ;
}

/// A store of values with its lookup table: every value is kept once, at
/// the place where it was first put.
pub struct Interner<'a, K> {
    items: Vec<&'a K>,
    table: FnvHashMap<Vec<usize>, usize>,
}

/// A store of lists of handles with its lookup table: every list is kept
/// once, at the place where it was first put.
pub struct SliceInterner<'a> {
    items: Vec<&'a [Ty]>,
    table: FnvHashMap<Vec<usize>, usize>,
}

impl<'a, K: Row> Interner<'a, K> {
    /// The meanings of the stored values, in the order in which they were put.
    pub closed spec fn models(&self) -> Seq<K::Model> {
        Seq::new(self.items@.len(), |i: int| self.items@[i].model())
    }

    /// The rows of the stored values.
    pub closed spec fn rows(&self) -> Seq<Seq<usize>> {
        Seq::new(self.items@.len(), |i: int| K::row_of(self.items@[i].model()))
    }

    /// The invariant of the store: the table leads from the row of each
    /// stored value to its place, and to nothing else.
    pub closed spec fn wf(&self) -> bool {
        indexes(entries(self.table), self.rows())
    }

    /// The places of the store are machine numbers.
    pub proof fn lemma_len_bound(&self)
        ensures
            self.models().len() <= usize::MAX,
    {
        assert(self.models().len() == self.items.len());
    }

    /// No meaning is stored twice.
    pub proof fn lemma_kept_once(&self)
        requires
            self.wf(),
        ensures
            self.models().no_duplicates(),
    {
        assert forall|i: int, j: int|
            0 <= i < self.models().len() && 0 <= j < self.models().len() && i != j implies self.models()[i]
            != self.models()[j] by {
            assert(self.rows()[i] == K::row_of(self.models()[i]));
            assert(self.rows()[j] == K::row_of(self.models()[j]));
        }
    }

    /// An empty store whose table is sized for `n` values, or for the limit
    /// if `n` is above it.
    pub fn with_capacity(n: usize) -> (store: Self)
        ensures
            store.wf(),
            store.models().len() == 0,
    {
        let room = if n > CAPACITY_LIMIT {
            CAPACITY_LIMIT
        } else {
            n
        };
        Interner { items: Vec::new(), table: table_new(room) }
    }

    /// The place of the value with the meaning of `value`: where one is
    /// stored already, else at the end, where `value` is put after it went
    /// to the arena.
    pub fn intern(&mut self, value: K, arena: &'a Arena<K>) -> (place: usize)
        requires
            old(self).wf(),
        ensures
            final(self).wf(),
            place < final(self).models().len(),
            final(self).models()[place as int] == value.model(),
            final(self).models() == old(self).models() || (final(self).models() == old(
                self,
            ).models().push(value.model()) && place == old(self).models().len()),
    {
        let key = value.to_row();
        let ghost rows = self.rows();
        match table_get(&self.table, key.as_slice()) {
            Some(i) => {
                proof {
                    K::lemma_row_one_to_one(self.models()[i as int], value.model());
                }
                i
            },
            None => {
                let i = self.items.len();
                let ghost m = value.model();
                let slot: &'a K = arena_alloc(arena, value);
                self.items.push(slot);
                table_insert(&mut self.table, key, i);
                proof {
                    lemma_indexes_push(entries(old(self).table), rows, K::row_of(m));
                    assert(self.rows() =~= rows.push(K::row_of(m)));
                    assert(self.models() =~= old(self).models().push(m));
                }
                i
            },
        }
    }

    /// The stored value at `place`.
    pub fn get(&self, place: usize) -> (value: &'a K)
        requires
            place < self.models().len(),
        ensures
            value.model() == self.models()[place as int],
    {
        self.items[place]
    }

    /// The number of stored values.
    pub fn len(&self) -> (n: usize)
        ensures
            n == self.models().len(),
    {
        self.items.len()
    }
}

impl<'a, K: Row> Default for Interner<'a, K> {
    fn default() -> (store: Self)
        ensures
            store.wf(),
            store.models().len() == 0,
    {
        Interner::with_capacity(0)
    }
}

impl<'a> Default for SliceInterner<'a> {
    fn default() -> (store: Self)
        ensures
            store.wf(),
            store.models().len() == 0,
    {
        SliceInterner::with_capacity(0)
    }
}

/// The row of numbers under which a list of handles is looked up.
pub open spec fn args_key(list: Seq<Ty>) -> Seq<usize> {
    Seq::new(list.len(), |i: int| list[i].0)
}

/// Lists of handles with the same row are the same.
pub proof fn lemma_args_key_one_to_one(a: Seq<Ty>, b: Seq<Ty>)
    requires
        args_key(a) == args_key(b),
    ensures
        a == b,
{
    assert(args_key(a).len() == a.len());
    assert(args_key(b).len() == b.len());
    assert forall|i: int| 0 <= i < a.len() implies a[i] == b[i] by {
        assert(args_key(a)[i] == a[i].0);
        assert(args_key(b)[i] == b[i].0);
    }
    assert(a =~= b);
}

impl<'a> SliceInterner<'a> {
    /// The stored lists, in the order in which they were put.
    pub closed spec fn models(&self) -> Seq<Seq<Ty>> {
        Seq::new(self.items@.len(), |i: int| self.items@[i]@)
    }

    /// The rows of the stored lists.
    pub closed spec fn rows(&self) -> Seq<Seq<usize>> {
        Seq::new(self.items@.len(), |i: int| args_key(self.items@[i]@))
    }

    /// The invariant of the store: the table leads from the row of each
    /// stored list to its place, and to nothing else.
    pub closed spec fn wf(&self) -> bool {
        indexes(entries(self.table), self.rows())
    }

    /// No list is stored twice.
    pub proof fn lemma_kept_once(&self)
        requires
            self.wf(),
        ensures
            self.models().no_duplicates(),
    {
        assert forall|i: int, j: int|
            0 <= i < self.models().len() && 0 <= j < self.models().len() && i != j implies self.models()[i]
            != self.models()[j] by {
            assert(self.rows()[i] == args_key(self.models()[i]));
            assert(self.rows()[j] == args_key(self.models()[j]));
        }
    }

    /// An empty store whose table is sized for `n` lists, or for the limit
    /// if `n` is above it.
    pub fn with_capacity(n: usize) -> (store: Self)
        ensures
            store.wf(),
            store.models().len() == 0,
    {
        let room = if n > CAPACITY_LIMIT {
            CAPACITY_LIMIT
        } else {
            n
        };
        SliceInterner { items: Vec::new(), table: table_new(room) }
    }

    /// The place of the list `value`: where it is stored already, else at
    /// the end, where a copy that went to the arena is put.
    pub fn intern(&mut self, value: &[Ty], arena: &'a Arena<Ty>) -> (place: usize)
        requires
            old(self).wf(),
        ensures
            final(self).wf(),
            place < final(self).models().len(),
            final(self).models()[place as int] == value@,
            final(self).models() == old(self).models() || (final(self).models() == old(
                self,
            ).models().push(value@) && place == old(self).models().len()),
    {
        let mut key: Vec<usize> = Vec::new();
        let mut k: usize = 0;
        while k < value.len()
            invariant
                k <= value.len(),
                key@ == args_key(value@.take(k as int)),
            decreases value.len() - k,
        {
            key.push(value[k].0);
            k += 1;
            assert(key@ =~= args_key(value@.take(k as int)));
        }
        assert(value@.take(k as int) =~= value@);
        let ghost rows = self.rows();
        match table_get(&self.table, key.as_slice()) {
            Some(i) => {
                proof {
                    lemma_args_key_one_to_one(self.models()[i as int], value@);
                }
                i
            },
            None => {
                let i = self.items.len();
                let slot: &'a [Ty] = arena_alloc_extend(arena, value);
                self.items.push(slot);
                table_insert(&mut self.table, key, i);
                proof {
                    lemma_indexes_push(entries(old(self).table), rows, args_key(value@));
                    assert(self.rows() =~= rows.push(args_key(value@)));
                    assert(self.models() =~= old(self).models().push(value@));
                }
                i
            },
        }
    }

    /// The stored list at `place`.
    pub fn get(&self, place: usize) -> (list: &'a [Ty])
        requires
            place < self.models().len(),
        ensures
            list@ == self.models()[place as int],
    {
        self.items[place]
    }

    /// The number of stored lists.
    pub fn len(&self) -> (n: usize)
        ensures
            n == self.models().len(),
    {
        self.items.len()
    }
}

} // verus!
