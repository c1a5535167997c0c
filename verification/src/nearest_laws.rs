//! What a scan finds, said of the distances that it is given.
use bit_set::BitSet;
use vstd::prelude::*;

use crate::bits::members;
use crate::distance::{distance_rank, rank};
use crate::distance_laws::law_rank_follows_the_order_of_numbers;
use crate::knn::{
    brute_force_candidates, brute_force_knn, brute_force_topk, head, insert_ranked, lemma_ranked,
    nearest, paired, ranked, Neighbor,
};
use crate::knn_laws::{
    law_nearest_are_candidates, law_nearest_are_sorted, law_nothing_nearer_is_left_out,
    lemma_found_is_candidate,
};
use crate::routing::{first_of_each, merge_topk};

verus! {

/// A scan finds as many points as are asked for, or all where there are fewer, each of them a
/// candidate with its distance.
pub proof fn law_found_points_are_candidates(
    candidates: &Vec<usize>,
    distances: &Vec<u32>,
    k: usize,
    best: Vec<Neighbor>,
    i: int,
)
    requires
        call_ensures(brute_force_topk, (candidates, distances, k), best),
        distances@.len() == candidates@.len(),
        0 <= i < best@.len(),
    ensures
        candidates@.len() <= k ==> best@.len() == candidates@.len(),
        candidates@.len() > k ==> best@.len() == k,
        exists|c: int|
            0 <= c < candidates@.len() && best@[i].id == #[trigger] candidates@[c] as u32
                && best@[i].distance == distances@[c],
        best@.to_multiset().subset_of(
            Seq::new(
                candidates@.len(),
                |c: int| Neighbor { id: candidates@[c] as u32, distance: distances@[c] },
            ).to_multiset(),
        ),
{
    let points = paired(candidates@, distances@);
    assert(points =~= Seq::new(
        candidates@.len(),
        |c: int| Neighbor { id: candidates@[c] as u32, distance: distances@[c] },
    ));
    law_nearest_are_sorted(points, k as nat);
    law_nearest_are_candidates(points, k as nat);
    lemma_found_is_candidate(points, k as nat, i);
    let c = points.index_of(best@[i]);
    assert(best@[i].id == candidates@[c] as u32 && best@[i].distance == distances@[c]);
}

/// However many are asked for, the number of points that are found is known.
pub proof fn law_how_many_points_are_found(
    candidates: &Vec<usize>,
    distances: &Vec<u32>,
    k: usize,
    best: Vec<Neighbor>,
)
    requires
        call_ensures(brute_force_topk, (candidates, distances, k), best),
        distances@.len() == candidates@.len(),
    ensures
        candidates@.len() <= k ==> best@.len() == candidates@.len(),
        candidates@.len() > k ==> best@.len() == k,
{
    law_nearest_are_sorted(paired(candidates@, distances@), k as nat);
}

/// The nearest come first: among numbers that are not negative no point stands before one with
/// a lesser pattern, and in general none before one of a lesser rank.
pub proof fn law_nearest_points_come_first(
    candidates: &Vec<usize>,
    distances: &Vec<u32>,
    k: usize,
    best: Vec<Neighbor>,
    i: int,
    j: int,
    rank_i: i64,
    rank_j: i64,
)
    requires
        call_ensures(brute_force_topk, (candidates, distances, k), best),
        distances@.len() == candidates@.len(),
        0 <= i < j < best@.len(),
        call_ensures(distance_rank, (best@[i].distance,), rank_i),
        call_ensures(distance_rank, (best@[j].distance,), rank_j),
    ensures
        rank_i <= rank_j,
        best@[i].distance <= 0x7f80_0000 && best@[j].distance <= 0x7f80_0000
            ==> best@[i].distance <= best@[j].distance,
{
    let points = paired(candidates@, distances@);
    law_nearest_are_sorted(points, k as nat);
    law_rank_follows_the_order_of_numbers(best@[j].distance, best@[i].distance);
    assert(rank(best@[i].distance) <= rank(best@[j].distance));
}

/// No candidate that is left out is nearer than a point that is found.
pub proof fn law_no_nearer_candidate_is_left_out(
    candidates: &Vec<usize>,
    distances: &Vec<u32>,
    k: usize,
    best: Vec<Neighbor>,
    i: int,
    c: int,
    rank_i: i64,
    rank_c: i64,
)
    requires
        call_ensures(brute_force_topk, (candidates, distances, k), best),
        distances@.len() == candidates@.len(),
        0 <= i < best@.len(),
        0 <= c < candidates@.len(),
        forall|j: int| 0 <= j < best@.len() ==> (#[trigger] best@[j]).id != candidates@[c] as u32,
        call_ensures(distance_rank, (best@[i].distance,), rank_i),
        call_ensures(distance_rank, (distances@[c],), rank_c),
    ensures
        best@.len() == k,
        rank_i <= rank_c,
        best@[i].distance <= 0x7f80_0000 && distances@[c] <= 0x7f80_0000 ==> best@[i].distance
            <= distances@[c],
{
    broadcast use vstd::seq_lib::group_to_multiset_ensures;

    let points = paired(candidates@, distances@);
    let out = points[c];
    assert(points.contains(out));
    assert(!best@.contains(out));
    assert(best@.to_multiset().count(out) == 0);
    law_nothing_nearer_is_left_out(points, k as nat, out, i);
    law_nearest_are_sorted(points, k as nat);
    law_rank_follows_the_order_of_numbers(distances@[c], best@[i].distance);
    if points.len() <= k {
        crate::knn_laws::law_few_candidates_are_all_found(points, k as nat);
    }
}

/// Points at the same distance keep their order, and of fewer places the first are taken.
pub proof fn law_ties_keep_their_order(points: Seq<Neighbor>, k: nat, r: int)
    ensures
        ({
            let tied = |x: Neighbor| rank(x.distance) == r;
            let all = nearest(points, points.len() as int);
            &&& all.filter(tied) == points.filter(tied)
            &&& nearest(points, k as int).is_prefix_of(all)
        }),
{
    lemma_ranked(points);
    lemma_ranked_keeps_ties(points, r);
    assert(head(ranked(points), points.len() as int) =~= ranked(points));
}

proof fn lemma_ranked_keeps_ties(points: Seq<Neighbor>, r: int)
    ensures
        ranked(points).filter(|x: Neighbor| rank(x.distance) == r) == points.filter(
            |x: Neighbor| rank(x.distance) == r,
        ),
    decreases points.len(),
{
    let tied = |x: Neighbor| rank(x.distance) == r;
    if points.len() > 0 {
        let rest = points.drop_last();
        let x = points.last();
        lemma_ranked_keeps_ties(rest, r);
        lemma_insert_keeps_ties(ranked(rest), x, r);
        assert(rest.push(x) =~= points);
        rest.lemma_filter_push(x, tied);
        ranked(rest).lemma_filter_push(x, tied);
    }
}

proof fn lemma_insert_keeps_ties(list: Seq<Neighbor>, x: Neighbor, r: int)
    ensures
        insert_ranked(list, x).filter(|y: Neighbor| rank(y.distance) == r) == list.push(x).filter(
            |y: Neighbor| rank(y.distance) == r,
        ),
    decreases list.len(),
{
    let tied = |y: Neighbor| rank(y.distance) == r;
    if list.len() == 0 || rank(list.last().distance) <= rank(x.distance) {
    } else {
        let rest = list.drop_last();
        let inner = insert_ranked(rest, x);
        lemma_insert_keeps_ties(rest, x, r);
        assert(rest.push(list.last()) =~= list);
        inner.lemma_filter_push(list.last(), tied);
        rest.lemma_filter_push(x, tied);
        rest.lemma_filter_push(list.last(), tied);
        list.lemma_filter_push(x, tied);
    }
}

/// The ids that are found are those of the points that are found, in the same order.
pub proof fn law_found_ids_are_those_of_points(
    candidates: &Vec<usize>,
    distances: &Vec<u32>,
    k: usize,
    best: Vec<Neighbor>,
    ids: Vec<u32>,
)
    requires
        call_ensures(brute_force_topk, (candidates, distances, k), best),
        call_ensures(brute_force_knn, (candidates, distances, k), ids),
    ensures
        ids@.len() == best@.len(),
        forall|i: int| 0 <= i < ids@.len() ==> #[trigger] ids@[i] == best@[i].id,
{
}

/// Candidates are the points of the bitmap with a row of data, each once, in ascending order.
pub proof fn law_which_points_are_candidates(
    bitmap: &BitSet,
    nrows: usize,
    candidates: Vec<usize>,
    id: usize,
)
    requires
        call_ensures(brute_force_candidates, (bitmap, nrows), candidates),
    ensures
        candidates@.contains(id) <==> members(*bitmap).contains(id) && id < nrows,
        forall|i: int, j: int|
            0 <= i < j < candidates@.len() ==> candidates@[i] < candidates@[j],
{
    assert(candidates@.to_set().contains(id) <==> candidates@.contains(id));
}

/// Of a list with repeated ids the first mention of each stays, in its place.
pub proof fn law_first_mentions_stay(points: Seq<Neighbor>, x: Neighbor)
    ensures
        first_of_each(Seq::<Neighbor>::empty()) == Seq::<Neighbor>::empty(),
        first_of_each(points.push(x)) == if exists|i: int|
            0 <= i < points.len() && (#[trigger] points[i]).id == x.id {
            first_of_each(points)
        } else {
            first_of_each(points).push(x)
        },
{
    let after = points.push(x);
    let kept = first_of_each(points);
    assert(after.drop_last() =~= points);
    if exists|i: int| 0 <= i < points.len() && (#[trigger] points[i]).id == x.id {
        let i = choose|i: int| 0 <= i < points.len() && (#[trigger] points[i]).id == x.id;
        crate::routing_laws::lemma_first_mention(points, i);
        let m = choose|m: int|
            0 <= m <= i && (#[trigger] points[m]).id == points[i].id && kept.contains(points[m]);
        assert(kept[kept.index_of(points[m])].id == x.id);
    }
    if exists|p: int| 0 <= p < kept.len() && (#[trigger] kept[p]).id == x.id {
        let p = choose|p: int| 0 <= p < kept.len() && (#[trigger] kept[p]).id == x.id;
        crate::routing_laws::lemma_kept_is_mentioned(points, p);
        let m = choose|m: int| 0 <= m < points.len() && #[trigger] points[m] == kept[p];
        assert(points[m].id == x.id);
    }
}

/// A merge finds the nearest of both lists together as a scan of the first mentions does: no
/// id twice, every id from one of the lists, and as many as are asked for and there.
pub proof fn law_merging_two_lists(
    graph: &Vec<Neighbor>,
    scan: &Vec<Neighbor>,
    k: usize,
    ids: Vec<u32>,
    i: int,
)
    requires
        call_ensures(merge_topk, (graph, scan, k), ids),
        0 <= i < ids@.len(),
    ensures
        ids@.no_duplicates(),
        ids@.len() <= k,
        exists|m: int|
            0 <= m < (graph@ + scan@).len() && (#[trigger] (graph@ + scan@)[m]).id == ids@[i],
{
    let all = graph@ + scan@;
    let points = first_of_each(all);
    let found = nearest(points, k as int);
    crate::routing_laws::law_merge_has_distinct_ids(all);
    law_nearest_are_sorted(points, k as nat);
    assert forall|a: int, b: int| 0 <= a < b < ids@.len() implies ids@[a] != ids@[b] by {
        crate::knn_laws::law_found_ids_are_distinct(points, k as nat, a, b);
        assert(ids@[a] == found[a].id && ids@[b] == found[b].id);
    }
    lemma_found_is_candidate(points, k as nat, i);
    let p = points.index_of(found[i]);
    crate::routing_laws::lemma_kept_is_mentioned(all, p);
    let m = choose|m: int| 0 <= m < all.len() && #[trigger] all[m] == points[p];
    assert((graph@ + scan@)[m].id == ids@[i]);
}

/// What a merge finds is what a scan finds of the points of both lists, each counted at its
/// first mention: of points whose distances are the same a point of the first list comes first.
pub proof fn law_a_merge_is_a_scan_of_first_mentions(
    graph: &Vec<Neighbor>,
    scan: &Vec<Neighbor>,
    k: usize,
    ids: Vec<u32>,
    candidates: &Vec<usize>,
    distances: &Vec<u32>,
    scanned: Vec<u32>,
)
    requires
        call_ensures(merge_topk, (graph, scan, k), ids),
        call_ensures(brute_force_knn, (candidates, distances, k), scanned),
        candidates@.len() == first_of_each(graph@ + scan@).len(),
        distances@.len() == candidates@.len(),
        forall|c: int|
            0 <= c < candidates@.len() ==> {
                &&& #[trigger] candidates@[c] == first_of_each(graph@ + scan@)[c].id
                &&& distances@[c] == first_of_each(graph@ + scan@)[c].distance
            },
    ensures
        ids@ == scanned@,
{
    let points = first_of_each(graph@ + scan@);
    assert forall|c: int| 0 <= c < points.len() implies paired(candidates@, distances@)[c]
        == points[c] by {
        assert(candidates@[c] == points[c].id);
    }
    assert(paired(candidates@, distances@) =~= points);
}

} // verus!
