//! Brute-force search has full recall.
use bit_set::BitSet;
use vstd::prelude::*;

use crate::bits::members;
use crate::distance::{equal_distance, is_nan, rank};
use crate::knn::{nearest, paired, Neighbor};
use crate::knn_laws::{
    distinct_ids, law_few_candidates_are_all_found, law_found_ids_are_distinct,
    law_found_ids_match, law_nearest_are_sorted, law_nothing_nearer_is_left_out,
    law_scan_has_distinct_ids, lemma_found_is_candidate,
};
use crate::recall::{credit, hits, tie_end, tie_start, valid_count};
use crate::recall_laws::{
    law_recall_grows_with_results, law_recall_is_at_most_one, lemma_hits, lemma_hits_split,
    lemma_tie_end, lemma_tie_start, lemma_valid_range,
};
use crate::search::{padded, recorded};
use crate::search_laws::law_brute_forced_row;

verus! {

/// A row of ground truth lists the nearest of the points: the entries before the fillers
/// are points with their distances, from near to far, none twice, and no point is missing
/// that is as near as the last of the `k` entries that count.
pub open spec fn exact_truth(
    row: Seq<u32>,
    distances: Seq<u32>,
    points: Seq<Neighbor>,
    k: int,
) -> bool {
    let valid = valid_count(row, row.len() as int);
    &&& 0 < k <= row.len() == distances.len()
    &&& forall|j: int|
        0 <= j < valid ==> points.contains(
            (Neighbor { id: #[trigger] row[j], distance: distances[j] }),
        )
    &&& forall|i: int, j: int| 0 <= i < j < valid ==> row[i] != row[j]
    &&& forall|i: int, j: int|
        0 <= i < j < valid ==> rank(distances[i]) <= rank(distances[j])
    &&& forall|p: int|
        0 <= p < points.len() && (valid < k || rank(points[p].distance) <= rank(distances[k - 1]))
            ==> row.take(valid).contains(#[trigger] points[p].id)
}

/// Every point has a distance that is a number.
pub open spec fn all_numbers(points: Seq<Neighbor>) -> bool {
    forall|p: int| 0 <= p < points.len() ==> !is_nan(#[trigger] points[p].distance)
}

/// The ids that brute-force search finds.
pub open spec fn found_ids(points: Seq<Neighbor>, k: nat) -> Seq<u32> {
    nearest(points, k as int).map_values(|x: Neighbor| x.id)
}

/// Measured against exact ground truth with distances, a brute-forced query finds every
/// neighbour that counts, whichever of tied points either side prefers.
pub proof fn law_scan_has_full_recall(
    points: Seq<Neighbor>,
    k: nat,
    row: Seq<u32>,
    distances: Seq<u32>,
)
    requires
        distinct_ids(points),
        all_numbers(points),
        exact_truth(row, distances, points, k as int),
    ensures
        credit(row, Some(distances), k as int, found_ids(points, k).to_set()) == valid_count(
            row,
            k as int,
        ),
{
    let found = found_ids(points, k);
    let set = found.to_set();
    let valid = valid_count(row, row.len() as int);
    lemma_valid_prefix(row, k as int);
    lemma_found_set(points, k);
    if valid < k {
        lemma_short_row(points, k, row, distances);
    } else {
        let boundary = distances[k - 1];
        let start = tie_start(distances, k - 1, boundary);
        let end = tie_end(distances, k as int, boundary);
        lemma_tie_start(distances, k - 1, boundary);
        lemma_tie_end(distances, k as int, boundary);
        lemma_bounds(points, k, row, distances);
        lemma_hits(row, 0, start, set);
        lemma_hits_split(row, 0, start, end, set);
        lemma_hits_cover(row, end, set);
        assert(set.intersect(row.take(end).to_set()) =~= set) by {
            assert forall|id: u32| set.contains(id) implies row.take(end).contains(id) by {
                assert(row.take(end).contains(found[found.index_of(id)]));
            }
        }
    }
}

/// The same holds without distances where no point outside the `k` entries that count is
/// as near as the last of them.
pub proof fn law_scan_has_full_recall_without_ties(
    points: Seq<Neighbor>,
    k: nat,
    row: Seq<u32>,
    distances: Seq<u32>,
)
    requires
        distinct_ids(points),
        all_numbers(points),
        exact_truth(row, distances, points, k as int),
        forall|p: int|
            0 <= p < points.len() && rank(points[p].distance) <= rank(distances[k - 1])
                ==> row.take(k as int).contains(#[trigger] points[p].id),
    ensures
        credit(row, None, k as int, found_ids(points, k).to_set()) == valid_count(row, k as int),
{
    let found = found_ids(points, k);
    let set = found.to_set();
    let valid = valid_count(row, row.len() as int);
    lemma_valid_prefix(row, k as int);
    lemma_found_set(points, k);
    if valid < k {
        lemma_short_row(points, k, row, distances);
    } else {
        lemma_bounds(points, k, row, distances);
        lemma_hits(row, 0, k as int, set);
        lemma_hits_cover(row, k as int, set);
        assert(set.intersect(row.take(k as int).to_set()) =~= set) by {
            assert forall|id: u32| set.contains(id) implies row.take(k as int).contains(id) by {
                let i = found.index_of(id);
                lemma_found_is_candidate(points, k, i);
                let p = points.index_of(nearest(points, k as int)[i]);
                assert(points[p].id == id);
            }
        }
    }
}

/// The zeros that fill up a row of results do not lower the recall.
pub proof fn law_padding_keeps_full_recall(
    row: Seq<u32>,
    distances: Option<Seq<u32>>,
    k: int,
    found: Seq<u32>,
    places: int,
)
    requires
        0 <= k <= row.len(),
        distances matches Some(d) ==> d.len() == row.len(),
        found.len() <= places,
        credit(row, distances, k, found.to_set()) == valid_count(row, k),
    ensures
        credit(row, distances, k, padded(found, places).to_set()) == valid_count(row, k),
{
    let more = padded(found, places);
    assert forall|id: u32| found.to_set().contains(id) implies more.to_set().contains(id) by {
        let i = found.index_of(id);
        assert(more[i] == id);
    }
    law_recall_grows_with_results(row, distances, k, found.to_set(), more.to_set());
    law_recall_is_at_most_one(row, distances, k, more.to_set());
}

/// A brute-forced query has full recall as it is recorded: the candidates are the points of
/// the bitmap with a row of data, and what the scan finds of them goes through the buffer of
/// the search and the filter into the row of the query.
pub proof fn law_brute_forced_query_has_full_recall(
    bitmap: BitSet,
    nrows: usize,
    candidates: Seq<usize>,
    scanned: Seq<u32>,
    k: nat,
    width: nat,
    row: Seq<u32>,
    distances: Seq<u32>,
)
    requires
        nrows <= 0x1_0000_0000,
        candidates.to_set() == members(bitmap).filter(|id: usize| id < nrows),
        forall|a: int, b: int| 0 <= a < b < candidates.len() ==> candidates[a] < candidates[b],
        k <= width,
        all_numbers(paired(candidates, scanned)),
        exact_truth(row, distances, paired(candidates, scanned), k as int),
    ensures
        ({
            let found = found_ids(paired(candidates, scanned), k);
            let results = recorded(
                Seq::new(k, |i: int| 0u32),
                padded(found, width as int),
                Some(members(bitmap)),
            );
            credit(row, Some(distances), k as int, results.to_set()) == valid_count(row, k as int)
        }),
{
    let points = paired(candidates, scanned);
    let found = found_ids(points, k);
    assert forall|a: int| 0 <= a < candidates.len() implies #[trigger] candidates[a]
        < 0x1_0000_0000 by {
        assert(candidates.to_set().contains(candidates[a]));
    }
    law_scan_has_distinct_ids(candidates, scanned);
    law_scan_has_full_recall(points, k, row, distances);
    law_nearest_are_sorted(points, k);
    assert forall|i: int| 0 <= i < found.len() implies members(bitmap).contains(
        #[trigger] found[i] as usize,
    ) by {
        law_found_ids_match(bitmap, nrows, candidates, scanned, k, i);
    }
    law_brute_forced_row(found, members(bitmap), k, width);
    law_padding_keeps_full_recall(row, Some(distances), k as int, found, k as int);
}

/// With fewer points than are asked for every one is found.
proof fn lemma_short_row(points: Seq<Neighbor>, k: nat, row: Seq<u32>, distances: Seq<u32>)
    requires
        distinct_ids(points),
        exact_truth(row, distances, points, k as int),
        valid_count(row, row.len() as int) < k,
    ensures
        hits(row, 0, valid_count(row, row.len() as int), found_ids(points, k).to_set())
            == valid_count(row, row.len() as int),
{
    let valid = valid_count(row, row.len() as int);
    lemma_valid_range(row, row.len() as int);
    let found = found_ids(points, k);
    let ids = points.map_values(|x: Neighbor| x.id);
    let head = row.take(valid);
    assert(ids.no_duplicates());
    ids.unique_seq_to_set();
    head.unique_seq_to_set();
    assert(ids.to_set().subset_of(head.to_set())) by {
        assert forall|id: u32| ids.contains(id) implies head.contains(id) by {
            let p = ids.index_of(id);
            assert(points[p].id == id);
        }
    }
    vstd::set_lib::lemma_len_subset(ids.to_set(), head.to_set());
    law_few_candidates_are_all_found(points, k);
    assert forall|j: int| 0 <= j < valid implies found.to_set().contains(#[trigger] row[j]) by {
        broadcast use vstd::seq_lib::group_to_multiset_ensures;

        let x = Neighbor { id: row[j], distance: distances[j] };
        assert(points.contains(x));
        assert(points.to_multiset().count(x) > 0);
        assert(nearest(points, k as int).contains(x));
        let i = nearest(points, k as int).index_of(x);
        assert(found[i] == row[j]);
    }
    lemma_hits(row, 0, valid, found.to_set());
}

/// The found ids are as many as there are results.
pub(crate) proof fn lemma_found_set(points: Seq<Neighbor>, k: nat)
    requires
        distinct_ids(points),
    ensures
        found_ids(points, k).to_set().finite(),
        found_ids(points, k).to_set().len() == nearest(points, k as int).len(),
{
    let found = found_ids(points, k);
    assert(found.no_duplicates()) by {
        assert forall|i: int, j: int| 0 <= i < j < found.len() implies found[i] != found[j] by {
            law_found_ids_are_distinct(points, k, i, j);
        }
    }
    found.unique_seq_to_set();
}

/// With all `k` neighbours there, whatever is nearer than the last of them is found, and
/// whatever is found stands in the row before the end of the tie.
proof fn lemma_bounds(points: Seq<Neighbor>, k: nat, row: Seq<u32>, distances: Seq<u32>)
    requires
        distinct_ids(points),
        all_numbers(points),
        exact_truth(row, distances, points, k as int),
        valid_count(row, row.len() as int) >= k,
    ensures
        nearest(points, k as int).len() == k,
        forall|i: int|
            0 <= i < k ==> rank(#[trigger] nearest(points, k as int)[i].distance) <= rank(
                distances[k - 1],
            ),
        forall|j: int|
            0 <= j < tie_start(distances, k - 1, distances[k - 1]) ==> found_ids(
                points,
                k,
            ).to_set().contains(#[trigger] row[j]),
        forall|i: int|
            0 <= i < k ==> row.take(tie_end(distances, k as int, distances[k - 1])).contains(
                #[trigger] found_ids(points, k)[i],
            ),
{
    let near = nearest(points, k as int);
    let found = found_ids(points, k);
    let set = found.to_set();
    let valid = valid_count(row, row.len() as int);
    let boundary = distances[k - 1];
    let start = tie_start(distances, k - 1, boundary);
    lemma_valid_range(row, row.len() as int);
    lemma_tie_start(distances, k - 1, boundary);
    law_nearest_are_sorted(points, k);
    lemma_found_set(points, k);
    // The row shows at least `k` points.
    assert(points.len() >= k) by {
        let ids = points.map_values(|x: Neighbor| x.id);
        let head = row.take(k as int);
        head.unique_seq_to_set();
        ids.unique_seq_to_set();
        assert(head.to_set().subset_of(ids.to_set())) by {
            assert forall|id: u32| head.contains(id) implies ids.contains(id) by {
                let j = head.index_of(id);
                let x = Neighbor { id: row[j], distance: distances[j] };
                assert(points.contains(x));
                assert(ids[points.index_of(x)] == id);
            }
        }
        vstd::set_lib::lemma_len_subset(head.to_set(), ids.to_set());
    }
    // Nothing farther than the last neighbour is found.
    assert forall|i: int| 0 <= i < k implies rank(#[trigger] near[i].distance) <= rank(
        boundary,
    ) by {
        if rank(near[i].distance) > rank(boundary) {
            let head = row.take(k as int);
            head.unique_seq_to_set();
            let more = head.push(found[i]);
            assert forall|j: int| 0 <= j < k implies set.contains(#[trigger] row[j]) by {
                lemma_nearer_is_found(points, k, row[j], distances[j], i);
            }
            lemma_found_is_candidate(points, k, i);
            assert(more.no_duplicates()) by {
                assert forall|j: int| 0 <= j < k implies row[j] != found[i] by {
                    let x = Neighbor { id: row[j], distance: distances[j] };
                    assert(points.contains(x));
                    assert(points.index_of(x) != points.index_of(near[i]));
                }
            }
            more.unique_seq_to_set();
            assert(more.to_set().subset_of(set)) by {
                assert(found[i] == near[i].id);
                assert(found.contains(found[i]));
            }
            vstd::set_lib::lemma_len_subset(more.to_set(), set);
        }
    }
    // Where each found point stands in the row.
    assert forall|i: int| 0 <= i < k implies row.take(
        tie_end(distances, k as int, boundary),
    ).contains(#[trigger] found[i]) by {
        lemma_found_is_candidate(points, k, i);
        lemma_near_point(points, k, row, distances, points.index_of(near[i]));
    }
    // Whatever is nearer than the tie is found.
    assert forall|j: int| 0 <= j < start implies set.contains(#[trigger] row[j]) by {
        lemma_head_is_nearer(points, k, row, distances, j);
        if !set.contains(row[j]) {
            let head = row.take(start);
            head.unique_seq_to_set();
            assert(set.subset_of(head.to_set())) by {
                assert forall|id: u32| set.contains(id) implies head.contains(id) by {
                    let i = found.index_of(id);
                    lemma_found_is_candidate(points, k, i);
                    if rank(near[i].distance) > rank(distances[j]) {
                        lemma_nearer_is_found(points, k, row[j], distances[j], i);
                    }
                    lemma_nearer_point(points, k, row, distances, points.index_of(near[i]));
                }
            }
            vstd::set_lib::lemma_len_subset(set, head.to_set());
        }
    }
}

/// The entry of a row and the point of the same id have the same distance.
pub(crate) proof fn lemma_same_point(
    points: Seq<Neighbor>,
    row: Seq<u32>,
    distances: Seq<u32>,
    k: int,
    at: int,
    p: int,
)
    requires
        distinct_ids(points),
        exact_truth(row, distances, points, k),
        0 <= at < valid_count(row, row.len() as int),
        0 <= p < points.len(),
        row[at] == points[p].id,
    ensures
        points[p].distance == distances[at],
{
    let x = Neighbor { id: row[at], distance: distances[at] };
    assert(points.contains(x));
    let q = points.index_of(x);
    assert(points[q].id == points[p].id);
}

/// A point nearer than one that is found is found too.
proof fn lemma_nearer_is_found(points: Seq<Neighbor>, k: nat, id: u32, distance: u32, i: int)
    requires
        points.contains((Neighbor { id, distance })),
        0 <= i < nearest(points, k as int).len(),
        rank(distance) < rank(nearest(points, k as int)[i].distance),
    ensures
        found_ids(points, k).to_set().contains(id),
{
    broadcast use vstd::seq_lib::group_to_multiset_ensures;

    let near = nearest(points, k as int);
    let x = Neighbor { id, distance };
    assert(points.to_multiset().count(x) > 0);
    if near.to_multiset().count(x) < points.to_multiset().count(x) {
        law_nothing_nearer_is_left_out(points, k, x, i);
    }
    assert(near.contains(x));
    let j = near.index_of(x);
    assert(found_ids(points, k)[j] == id);
}

/// A point that is no farther than the last neighbour stands in the row before the end of
/// the tie.
pub(crate) proof fn lemma_near_point(
    points: Seq<Neighbor>,
    k: nat,
    row: Seq<u32>,
    distances: Seq<u32>,
    p: int,
)
    requires
        distinct_ids(points),
        all_numbers(points),
        exact_truth(row, distances, points, k as int),
        valid_count(row, row.len() as int) >= k,
        0 <= p < points.len(),
        rank(points[p].distance) <= rank(distances[k - 1]),
    ensures
        row.take(tie_end(distances, k as int, distances[k - 1])).contains(points[p].id),
{
    let valid = valid_count(row, row.len() as int);
    let boundary = distances[k - 1];
    lemma_valid_range(row, row.len() as int);
    lemma_tie_end(distances, k as int, boundary);
    assert(row.take(valid).contains(points[p].id));
    let j = row.take(valid).index_of(points[p].id);
    lemma_same_point(points, row, distances, k as int, j, p);
    lemma_row_numbers(points, row, distances, k as int);
    if j >= k {
        assert forall|m: int| k <= m <= j implies equal_distance(
            #[trigger] distances[m],
            boundary,
        ) by {
            assert(rank(distances[k - 1]) <= rank(distances[m]));
            if m < j {
                assert(rank(distances[m]) <= rank(distances[j]));
            }
        }
        lemma_tie_reaches(distances, k as int, boundary, j);
    }
    assert(row.take(tie_end(distances, k as int, boundary))[j] == points[p].id);
}

/// A point that is nearer than the last neighbour stands in the row before the tie.
pub(crate) proof fn lemma_nearer_point(
    points: Seq<Neighbor>,
    k: nat,
    row: Seq<u32>,
    distances: Seq<u32>,
    p: int,
)
    requires
        distinct_ids(points),
        exact_truth(row, distances, points, k as int),
        valid_count(row, row.len() as int) >= k,
        0 <= p < points.len(),
        rank(points[p].distance) < rank(distances[k - 1]),
    ensures
        row.take(tie_start(distances, k - 1, distances[k - 1])).contains(points[p].id),
{
    let valid = valid_count(row, row.len() as int);
    let boundary = distances[k - 1];
    let start = tie_start(distances, k - 1, boundary);
    lemma_valid_range(row, row.len() as int);
    lemma_tie_start(distances, k - 1, boundary);
    assert(row.take(valid).contains(points[p].id));
    let j = row.take(valid).index_of(points[p].id);
    lemma_same_point(points, row, distances, k as int, j, p);
    if j >= start {
        lemma_from_tie(distances, k - 1, boundary, j, valid);
    }
    assert(row.take(start)[j] == points[p].id);
}

/// The distances of the neighbours are numbers.
proof fn lemma_row_numbers(points: Seq<Neighbor>, row: Seq<u32>, distances: Seq<u32>, k: int)
    requires
        all_numbers(points),
        exact_truth(row, distances, points, k),
    ensures
        forall|m: int|
            0 <= m < valid_count(row, row.len() as int) ==> !is_nan(#[trigger] distances[m]),
{
    assert forall|m: int| 0 <= m < valid_count(row, row.len() as int) implies !is_nan(
        #[trigger] distances[m],
    ) by {
        let x = Neighbor { id: row[m], distance: distances[m] };
        assert(points.contains(x));
        assert(!is_nan(points[points.index_of(x)].distance));
    }
}

/// The neighbours before the tie are nearer than the last.
pub(crate) proof fn lemma_head_is_nearer(
    points: Seq<Neighbor>,
    k: nat,
    row: Seq<u32>,
    distances: Seq<u32>,
    j: int,
)
    requires
        all_numbers(points),
        exact_truth(row, distances, points, k as int),
        valid_count(row, row.len() as int) >= k,
        0 <= j < tie_start(distances, k - 1, distances[k - 1]),
    ensures
        rank(distances[j]) < rank(distances[k - 1]),
{
    lemma_valid_range(row, row.len() as int);
    lemma_row_numbers(points, row, distances, k as int);
    lemma_before_tie(
        distances,
        k - 1,
        distances[k - 1],
        j,
        valid_count(row, row.len() as int),
    );
}

/// A run of equal distances belongs to the tie.
proof fn lemma_tie_reaches(distances: Seq<u32>, at: int, boundary: u32, j: int)
    requires
        0 <= at <= j < distances.len(),
        forall|m: int| at <= m <= j ==> equal_distance(#[trigger] distances[m], boundary),
    ensures
        j < tie_end(distances, at, boundary),
    decreases j - at,
{
    assert(equal_distance(distances[at], boundary));
    if at < j {
        lemma_tie_reaches(distances, at + 1, boundary, j);
    } else {
        lemma_tie_end(distances, at + 1, boundary);
    }
}

/// Before the tie everything is nearer.
proof fn lemma_before_tie(distances: Seq<u32>, at: int, boundary: u32, j: int, valid: int)
    requires
        0 <= j < tie_start(distances, at, boundary),
        0 <= at < valid <= distances.len(),
        rank(distances[at]) <= rank(boundary),
        forall|a: int, b: int| 0 <= a < b < valid ==> rank(distances[a]) <= rank(distances[b]),
        !is_nan(boundary),
    ensures
        rank(distances[j]) < rank(boundary),
    decreases at,
{
    lemma_tie_start(distances, at, boundary);
    if at >= 1 && equal_distance(distances[at - 1], boundary) {
        lemma_before_tie(distances, at - 1, boundary, j, valid);
    } else {
        assert(rank(distances[j]) <= rank(distances[at - 1]));
        assert(rank(distances[at - 1]) <= rank(distances[at]));
    }
}

/// From the start of the tie on nothing is nearer.
proof fn lemma_from_tie(distances: Seq<u32>, at: int, boundary: u32, j: int, valid: int)
    requires
        tie_start(distances, at, boundary) <= j < valid,
        0 <= at < valid <= distances.len(),
        rank(distances[at]) == rank(boundary),
        forall|a: int, b: int| 0 <= a < b < valid ==> rank(distances[a]) <= rank(distances[b]),
    ensures
        rank(boundary) <= rank(distances[j]),
    decreases at,
{
    if at >= 1 && equal_distance(distances[at - 1], boundary) {
        lemma_from_tie(distances, at - 1, boundary, j, valid);
    }
}

/// What of a set stands in a row is counted there.
pub(crate) proof fn lemma_hits_cover(row: Seq<u32>, end: int, found: Set<u32>)
    requires
        0 <= end <= row.len(),
        found.finite(),
    ensures
        found.intersect(row.take(end).to_set()).len() <= hits(row, 0, end, found),
    decreases end,
{
    let covered = found.intersect(row.take(end).to_set());
    if end == 0 {
        assert(covered =~= Set::<u32>::empty());
    } else {
        let id = row[end - 1];
        let rest = found.intersect(row.take(end - 1).to_set());
        lemma_hits_cover(row, end - 1, found);
        assert(row.take(end) =~= row.take(end - 1).push(id));
        if found.contains(id) {
            assert(covered =~= rest.insert(id)) by {
                assert(row.take(end)[end - 1] == id);
                assert forall|x: u32| row.take(end - 1).contains(x) implies row.take(end).contains(
                    x,
                ) by {
                    assert(row.take(end)[row.take(end - 1).index_of(x)] == x);
                }
            }
        } else {
            assert(covered =~= rest) by {
                assert forall|x: u32| row.take(end - 1).contains(x) implies row.take(end).contains(
                    x,
                ) by {
                    assert(row.take(end)[row.take(end - 1).index_of(x)] == x);
                }
            }
        }
    }
}

/// The entries that count are those before the first filler.
pub(crate) proof fn lemma_valid_prefix(row: Seq<u32>, k: int)
    requires
        0 <= k <= row.len(),
    ensures
        valid_count(row, k) == if valid_count(row, row.len() as int) < k {
            valid_count(row, row.len() as int)
        } else {
            k
        },
{
    lemma_valid_between(row, k, row.len() as int);
}

proof fn lemma_valid_between(row: Seq<u32>, k: int, n: int)
    requires
        0 <= k <= n,
    ensures
        valid_count(row, k) == if valid_count(row, n) < k {
            valid_count(row, n)
        } else {
            k
        },
    decreases n,
{
    lemma_valid_range(row, k);
    if k < n {
        lemma_valid_range(row, n - 1);
        lemma_valid_between(row, k, n - 1);
    }
}

} // verus!
