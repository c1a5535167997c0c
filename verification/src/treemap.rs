//! Sets of 64-bit ids held in roaring treemaps.
//!
//! A treemap is opaque to the verifier. [`ids_of`] names the set of ids that
//! one holds, and every operation that the library uses is described over it.
use roaring::RoaringTreemap;
use vstd::prelude::*;

verus! {

/// The outside type `roaring::RoaringTreemap`.
#[verifier::external_type_specification]
#[verifier::external_body]
pub struct ExRoaringTreemap(RoaringTreemap);

/// The ids that a treemap holds.
pub uninterp spec fn ids_of(t: RoaringTreemap) -> Set<u64>;

/// `RoaringTreemap::new` gives a treemap without ids.
pub assume_specification[ RoaringTreemap::new ]() -> (t: RoaringTreemap)
    ensures
        ids_of(t) == Set::<u64>::empty(),
;

/// `RoaringTreemap::insert` adds one id and says whether it was absent before.
pub assume_specification[ RoaringTreemap::insert ](
    t: &mut RoaringTreemap,
    value: u64,
) -> (added: bool)
    ensures
        ids_of(*final(t)) == ids_of(*old(t)).insert(value),
        added == !ids_of(*old(t)).contains(value),
;

/// `RoaringTreemap::remove` takes one id out and says whether it was present before.
pub assume_specification[ RoaringTreemap::remove ](
    t: &mut RoaringTreemap,
    value: u64,
) -> (removed: bool)
    ensures
        ids_of(*final(t)) == ids_of(*old(t)).remove(value),
        removed == ids_of(*old(t)).contains(value),
;

/// `RoaringTreemap::len` counts the ids. The count is a 64-bit sum, so a treemap
/// that holds every 64-bit id is left out.
pub assume_specification[ RoaringTreemap::len ](t: &RoaringTreemap) -> (n: u64)
    requires
        exists|id: u64| !ids_of(*t).contains(id),
    ensures
        n == ids_of(*t).len(),
;

/// `|=` between treemaps (`BitOrAssign<&RoaringTreemap>`) forms the union in place.
#[verifier::external_body]
pub(crate) fn union_in_place(t: &mut RoaringTreemap, other: &RoaringTreemap)
    ensures
        ids_of(*final(t)) == ids_of(*old(t)).union(ids_of(*other)),
{
    *t |= other;
}

/// Every id is greater than the one before it.
pub open spec fn strictly_ascending(ids: Seq<u64>) -> bool {
    forall|i: int, j: int| 0 <= i < j < ids.len() ==> ids[i] < ids[j]
}

/// The first `n` ids ascend strictly and the next one breaks the order.
pub open spec fn ascends_only_until(ids: Seq<u64>, n: int) -> bool {
    &&& 0 < n < ids.len()
    &&& strictly_ascending(ids.take(n))
    &&& ids[n] <= ids[n - 1]
}

/// `RoaringTreemap::from_sorted_iter` collects strictly ascending ids. On any other
/// input it fails, and `NonSortedIntegers::valid_until` tells how many of the
/// leading ids were in order.
#[verifier::external_body]
pub(crate) fn from_sorted(ids: &Vec<u64>) -> (r: Result<RoaringTreemap, u64>)
    ensures
        match r {
            Ok(t) => strictly_ascending(ids@) && ids_of(t) == ids@.to_set(),
            Err(n) => ascends_only_until(ids@, n as int),
        },
{
    RoaringTreemap::from_sorted_iter(ids.iter().copied()).map_err(|e| e.valid_until())
}

/// `RoaringTreemap::iter` hands out each id once, in ascending order.
#[verifier::external_body]
pub(crate) fn list_ids(t: &RoaringTreemap) -> (list: Vec<u64>)
    ensures
        list@.to_set() == ids_of(*t),
        strictly_ascending(list@),
{
    t.iter().collect()
}

} // verus!
