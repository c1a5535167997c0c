//! What brute-force search promises as a whole.
use bit_set::BitSet;
use vstd::prelude::*;

use crate::bits::members;
use crate::distance::rank;
use crate::knn::{head, lemma_ranked, near_to_far, nearest, paired, ranked, Neighbor};

verus! {

/// No two points have the same id.
pub open spec fn distinct_ids(points: Seq<Neighbor>) -> bool {
    forall|i: int, j: int| 0 <= i < j < points.len() ==> points[i].id != points[j].id
}

/// The nearest points come from near to far, and there are `k` of them unless there are
/// fewer points.
pub proof fn law_nearest_are_sorted(points: Seq<Neighbor>, k: nat)
    ensures
        near_to_far(nearest(points, k as int)),
        nearest(points, k as int).len() == if k < points.len() {
            k
        } else {
            points.len()
        },
{
    lemma_ranked(points);
}

/// Nothing is found that was not a candidate, and nothing more often than it was one.
pub proof fn law_nearest_are_candidates(points: Seq<Neighbor>, k: nat)
    ensures
        nearest(points, k as int).to_multiset().subset_of(points.to_multiset()),
{
    lemma_ranked(points);
    lemma_head_tail(ranked(points), k);
}

/// No candidate that was left out is nearer than one that was found.
pub proof fn law_nothing_nearer_is_left_out(points: Seq<Neighbor>, k: nat, out: Neighbor, i: int)
    requires
        0 <= i < nearest(points, k as int).len(),
        nearest(points, k as int).to_multiset().count(out) < points.to_multiset().count(out),
    ensures
        rank(nearest(points, k as int)[i].distance) <= rank(out.distance),
{
    broadcast use vstd::seq_lib::group_to_multiset_ensures;

    lemma_ranked(points);
    let all = ranked(points);
    lemma_head_tail(all, k);
    if k < all.len() {
        let tail = all.skip(k as int);
        assert(tail.to_multiset().count(out) > 0);
        assert(tail.contains(out));
        let j = tail.index_of(out);
        assert(all[k + j] == out);
    }
}

/// With no more candidates than are asked for, each of them is found.
pub proof fn law_few_candidates_are_all_found(points: Seq<Neighbor>, k: nat)
    requires
        points.len() <= k,
    ensures
        nearest(points, k as int).to_multiset() == points.to_multiset(),
{
    lemma_ranked(points);
}

/// Every id that brute-force search finds is a point of the bitmap with a row of data,
/// where the rows can be counted in 32 bits.
pub proof fn law_found_ids_match(
    bitmap: BitSet,
    nrows: usize,
    candidates: Seq<usize>,
    distances: Seq<u32>,
    k: nat,
    i: int,
)
    requires
        nrows <= 0x1_0000_0000,
        candidates.to_set() == members(bitmap).filter(|id: usize| id < nrows),
        0 <= i < nearest(paired(candidates, distances), k as int).len(),
    ensures
        ({
            let id = nearest(paired(candidates, distances), k as int)[i].id;
            id < nrows && members(bitmap).contains(id as usize)
        }),
{
    let points = paired(candidates, distances);
    let found = nearest(points, k as int);
    lemma_found_is_candidate(points, k, i);
    let j = points.index_of(found[i]);
    assert(candidates.to_set().contains(candidates[j]));
    assert(members(bitmap).filter(|id: usize| id < nrows).contains(candidates[j]));
}

/// No id is found twice, where no two candidates have the same.
pub proof fn law_found_ids_are_distinct(points: Seq<Neighbor>, k: nat, i: int, j: int)
    requires
        distinct_ids(points),
        0 <= i < j < nearest(points, k as int).len(),
    ensures
        nearest(points, k as int)[i].id != nearest(points, k as int)[j].id,
{
    broadcast use vstd::seq_lib::group_to_multiset_ensures;

    let found = nearest(points, k as int);
    law_nearest_are_candidates(points, k);
    points.lemma_multiset_has_no_duplicates();
    assert forall|x: Neighbor| found.to_multiset().contains(x) implies found.to_multiset().count(x)
        == 1 by {
        assert(points.to_multiset().contains(x));
    }
    found.lemma_multiset_has_no_duplicates_conv();
    lemma_found_is_candidate(points, k, i);
    lemma_found_is_candidate(points, k, j);
}

/// Different candidates of a scan have different ids, where they can be counted in 32 bits.
pub proof fn law_scan_has_distinct_ids(candidates: Seq<usize>, distances: Seq<u32>)
    requires
        forall|a: int, b: int| 0 <= a < b < candidates.len() ==> candidates[a] < candidates[b],
        forall|a: int| 0 <= a < candidates.len() ==> #[trigger] candidates[a] < 0x1_0000_0000,
    ensures
        distinct_ids(paired(candidates, distances)),
{
}

/// What is found is a candidate.
pub(crate) proof fn lemma_found_is_candidate(points: Seq<Neighbor>, k: nat, i: int)
    requires
        0 <= i < nearest(points, k as int).len(),
    ensures
        points.contains(nearest(points, k as int)[i]),
{
    broadcast use vstd::seq_lib::group_to_multiset_ensures;

    let found = nearest(points, k as int);
    law_nearest_are_candidates(points, k);
    assert(found.contains(found[i]));
    assert(points.to_multiset().count(found[i]) > 0);
}

/// The head and what is behind it make up the list.
proof fn lemma_head_tail(list: Seq<Neighbor>, k: nat)
    ensures
        head(list, k as int).to_multiset().subset_of(list.to_multiset()),
        k < list.len() ==> list.to_multiset() == list.take(k as int).to_multiset().add(
            list.skip(k as int).to_multiset(),
        ),
{
    if k < list.len() {
        vstd::seq_lib::lemma_multiset_commutative(list.take(k as int), list.skip(k as int));
        assert(list.take(k as int) + list.skip(k as int) =~= list);
    }
}

} // verus!
