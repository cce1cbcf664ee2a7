//! Sets of vector ids, held by `bit_set::BitSet`.

use bit_set::BitSet;
use vstd::prelude::*;

verus! {

/// Declares `bit_set::BitSet`, a set of `usize` ids with one bit for each id up to the largest.
#[verifier::external_type_specification]
#[verifier::external_body]
#[verifier::reject_recursive_types(B)]
pub struct ExBitSet<B>(bit_set::BitSet<B>);

/// The ids that a bitmap holds.
pub uninterp spec fn bitmap_ids(bitmap: BitSet) -> Set<usize>;

/// Calls `BitSet::new`, which makes a set without elements.
#[verifier::external_body]
pub(crate) fn bitmap_new() -> (bitmap: BitSet)
    ensures
        bitmap_ids(bitmap) == Set::<usize>::empty(),
{
    BitSet::new()
}

/// Calls `BitSet::insert`, which adds `id` to the set, keeps every other element, and returns
/// whether `id` is new. The set has one bit for each id up to the largest, and the count of its
/// bits must fit in a `usize`: for the largest `usize` the call panics. The memory for those
/// bits is taken on trust, as it is for every allocation.
#[verifier::external_body]
pub(crate) fn bitmap_insert(bitmap: &mut BitSet, id: usize) -> (added: bool)
    requires
        id < usize::MAX,
    ensures
        bitmap_ids(*final(bitmap)) == bitmap_ids(*old(bitmap)).insert(id),
        added == !bitmap_ids(*old(bitmap)).contains(id),
{
    bitmap.insert(id)
}

/// Calls `BitSet::contains`, which returns whether `id` is an element of the set.
#[verifier::external_body]
pub(crate) fn bitmap_contains(bitmap: &BitSet, id: usize) -> (held: bool)
    ensures
        held == bitmap_ids(*bitmap).contains(id),
{
    bitmap.contains(id)
}

/// Calls `BitSet::len`, which returns how many elements the set has.
#[verifier::external_body]
pub(crate) fn bitmap_len(bitmap: &BitSet) -> (count: usize)
    ensures
        count == bitmap_ids(*bitmap).len(),
{
    bitmap.len()
}

} // verus!
