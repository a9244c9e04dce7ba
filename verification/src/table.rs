use fnv::FnvHashMap;
use typed_arena::Arena;
use vstd::layout::size_of;
use vstd::prelude::*;

verus! {

/// The hasher of `fnv`, of which the library says nothing.
#[verifier::external_type_specification]
#[verifier::external_body]
pub struct ExFnvHasher(fnv::FnvHasher);

/// The maker of default hashers of std, of which the library says nothing.
#[verifier::external_type_specification]
#[verifier::external_body]
#[verifier::reject_recursive_types(H)]
pub struct ExBuildHasherDefault<H>(core::hash::BuildHasherDefault<H>);

/// The arena of `typed_arena`, of which the library says no more than that
/// it keeps what it is given.
#[verifier::external_type_specification]
#[verifier::external_body]
#[verifier::reject_recursive_types(T)]
pub struct ExArena<T>(Arena<T>);

/// The greatest number of values that a store is sized for in advance.
pub const CAPACITY_LIMIT: usize = 0x1_0000;

/// What a lookup table holds: for each row of numbers that is a key, the
/// number stored under it.
pub uninterp spec fn entries(table: FnvHashMap<Vec<usize>, usize>) -> Map<Seq<usize>, usize>;

/// `HashMap::with_capacity_and_hasher` with the default FNV hasher, for a
/// capacity within the limit, so that the bytes of the table are within
/// what one allocation may hold: the new table holds nothing.
#[verifier::external_body]
pub(crate) fn table_new(n: usize) -> (table: FnvHashMap<Vec<usize>, usize>)
    requires
        n <= CAPACITY_LIMIT,
    ensures
        (entries(table) == Map::<Seq<usize>, usize>::empty()),
{
    FnvHashMap::with_capacity_and_hasher(n, Default::default())
}

/// `HashMap::get`: the number stored under a row with the same numbers in
/// the same order as `key`, if there is one.
#[verifier::external_body]
pub(crate) fn table_get(table: &FnvHashMap<Vec<usize>, usize>, key: &[usize]) -> (found: Option<
    usize,
>)
    ensures
        found == (if entries(*table).contains_key(key@) {
            Some(entries(*table)[key@])
        } else {
            None
        }),
{
    table.get(key).copied()
}

/// `HashMap::insert`: afterwards the row `key` leads to `value`, and every
/// other row to what it led to before.
#[verifier::external_body]
pub(crate) fn table_insert(table: &mut FnvHashMap<Vec<usize>, usize>, key: Vec<usize>, value: usize)
    ensures
        entries(*final(table)) == entries(*old(table)).insert(key@, value),
{
    table.insert(key, value);
}

/// `Arena::alloc`: the arena takes the value and lends it back for as long as the arena lives.
#[verifier::external_body]
pub(crate) fn arena_alloc<'a, T>(arena: &'a Arena<T>, value: T) -> (slot: &'a T)
    ensures
        *slot == value,
{
    arena.alloc(value)
}

/// `Arena::alloc_extend`: the arena takes copies of the items, in order, and
/// lends them back as one slice.
#[verifier::external_body]
pub(crate) fn arena_alloc_extend<'a, T: Copy>(arena: &'a Arena<T>, items: &[T]) -> (slots: &'a [T])
    ensures
        slots@ == items@,
{
    arena.alloc_extend(items.iter().copied())
}

/// `Arena::with_capacity`, for a capacity whose bytes are within what one
/// allocation may hold: a new arena with room for `n` values.
#[verifier::external_body]
pub(crate) fn arena_with_capacity<T>(n: usize) -> (arena: Arena<T>)
    requires
        n * size_of::<T>() <= isize::MAX,
{
    Arena::with_capacity(n)
}

} // verus!
