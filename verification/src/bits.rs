//! Bit sets over point ids.
//!
//! A bit set is opaque to the verifier. [`members`] names the set of numbers that
//! one holds, and every operation that the library uses is described over it.
use bit_set::BitSet;
use vstd::prelude::*;

verus! {

/// The outside type `bit_set::BitSet`.
#[verifier::external_type_specification]
#[verifier::external_body]
#[verifier::reject_recursive_types(B)]
pub struct ExBitSet<B>(BitSet<B>);

/// The numbers that a bit set holds.
pub uninterp spec fn members(b: BitSet) -> Set<usize>;

/// `BitSet::new` gives a set without members.
#[verifier::external_body]
pub(crate) fn new_bits() -> (b: BitSet)
    ensures
        members(b) == Set::<usize>::empty(),
{
    BitSet::new()
}

/// `BitSet::with_capacity` gives a set without members, with room for those below `nbits`.
#[verifier::external_body]
pub(crate) fn bits_with_capacity(nbits: usize) -> (b: BitSet)
    ensures
        members(b) == Set::<usize>::empty(),
{
    BitSet::with_capacity(nbits)
}

/// `BitSet::insert` adds one number and says whether it was absent before. The
/// underlying vector has to be one bit longer than the number, so the greatest
/// number is left out.
#[verifier::external_body]
pub(crate) fn insert_bit(b: &mut BitSet, value: usize) -> (added: bool)
    requires
        value < usize::MAX,
    ensures
        members(*final(b)) == members(*old(b)).insert(value),
        added == !members(*old(b)).contains(value),
{
    b.insert(value)
}

/// `BitSet::remove` takes one number out and says whether it was present before.
#[verifier::external_body]
pub(crate) fn remove_bit(b: &mut BitSet, value: usize) -> (removed: bool)
    ensures
        members(*final(b)) == members(*old(b)).remove(value),
        removed == members(*old(b)).contains(value),
{
    b.remove(value)
}

/// `BitSet::contains` tells whether a number is a member.
#[verifier::external_body]
pub(crate) fn has_bit(b: &BitSet, value: usize) -> (r: bool)
    ensures
        r == members(*b).contains(value),
{
    b.contains(value)
}

/// `BitSet::len` counts the members.
#[verifier::external_body]
pub(crate) fn count_bits(b: &BitSet) -> (n: usize)
    ensures
        n == members(*b).len(),
{
    b.len()
}

/// `BitSet::union_with` forms the union in place.
#[verifier::external_body]
pub(crate) fn unite_bits(b: &mut BitSet, other: &BitSet)
    ensures
        members(*final(b)) == members(*old(b)).union(members(*other)),
{
    b.union_with(other)
}

/// `BitSet::intersect_with` forms the intersection in place.
#[verifier::external_body]
pub(crate) fn intersect_bits(b: &mut BitSet, other: &BitSet)
    ensures
        members(*final(b)) == members(*old(b)).intersect(members(*other)),
{
    b.intersect_with(other)
}

/// `BitSet::iter` hands out each member once, in ascending order.
#[verifier::external_body]
pub(crate) fn list_bits(b: &BitSet) -> (list: Vec<usize>)
    ensures
        list@.to_set() == members(*b),
        forall|i: int, j: int| 0 <= i < j < list@.len() ==> list@[i] < list@[j],
{
    b.iter().collect()
}

} // verus!
