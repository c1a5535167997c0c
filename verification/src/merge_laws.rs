//! Merging in what a scan found costs graph search no recall.
use vstd::prelude::*;

use crate::distance::rank;
use crate::knn::{nearest, Neighbor};
use crate::knn_laws::{
    distinct_ids, law_few_candidates_are_all_found, law_nearest_are_sorted,
    law_nothing_nearer_is_left_out, lemma_found_is_candidate,
};
use crate::recall::{credit, hits, tie_end, tie_start, valid_count, NO_NEIGHBOUR};
use crate::recall_laws::{
    law_recall_grows_with_results, lemma_hits, lemma_hits_split, lemma_hits_within, lemma_tie_end,
    lemma_tie_start, lemma_valid_range,
};
use crate::routing::first_of_each;
use crate::routing_laws::{law_merge_has_distinct_ids, lemma_first_mention, lemma_kept_is_mentioned};
use crate::scan_laws::{
    all_numbers, exact_truth, found_ids, lemma_found_set, lemma_head_is_nearer, lemma_hits_cover,
    lemma_near_point, lemma_nearer_point, lemma_same_point, lemma_valid_prefix,
};

verus! {

/// The ids of a list of points.
pub open spec fn ids_of_list(list: Seq<Neighbor>) -> Seq<u32> {
    list.map_values(|x: Neighbor| x.id)
}

/// Every entry of a list is one of the points.
pub open spec fn drawn_from(list: Seq<Neighbor>, points: Seq<Neighbor>) -> bool {
    forall|i: int| 0 <= i < list.len() ==> points.contains(#[trigger] list[i])
}

/// Measured against exact ground truth with distances, the merge of what graph search and a
/// scan found has no less recall than graph search alone. Both lists are matching points
/// with their distances; behind the first filler of a row there are only fillers.
pub proof fn law_merge_costs_no_recall(
    points: Seq<Neighbor>,
    graph: Seq<Neighbor>,
    scan: Seq<Neighbor>,
    k: nat,
    row: Seq<u32>,
    distances: Seq<u32>,
)
    requires
        distinct_ids(points),
        all_numbers(points),
        forall|p: int| 0 <= p < points.len() ==> #[trigger] points[p].id != NO_NEIGHBOUR,
        exact_truth(row, distances, points, k as int),
        forall|j: int|
            valid_count(row, row.len() as int) <= j < row.len() ==> #[trigger] row[j]
                == NO_NEIGHBOUR,
        drawn_from(graph, points),
        drawn_from(scan, points),
    ensures
        credit(row, Some(distances), k as int, ids_of_list(graph).to_set()) <= credit(
            row,
            Some(distances),
            k as int,
            found_ids(first_of_each(graph + scan), k).to_set(),
        ),
{
    let union = first_of_each(graph + scan);
    let found = ids_of_list(graph).to_set();
    let merged = found_ids(union, k).to_set();
    let valid = valid_count(row, row.len() as int);
    lemma_valid_prefix(row, k as int);
    lemma_valid_range(row, row.len() as int);
    lemma_union(points, graph, scan);
    if union.len() <= k {
        law_few_candidates_are_all_found(union, k);
        assert forall|id: u32| found.contains(id) implies merged.contains(id) by {
            lemma_graph_id(graph, scan, id);
            let u = choose|u: int| 0 <= u < union.len() && (#[trigger] union[u]).id == id;
            lemma_kept(union, k, u);
        }
        law_recall_grows_with_results(row, Some(distances), k as int, found, merged);
    } else {
        lemma_few_points(points, union);
        if valid < k {
            lemma_short_truth(points, k, row, distances);
        }
        let boundary = distances[k - 1];
        let start = tie_start(distances, k - 1, boundary);
        let end = tie_end(distances, k as int, boundary);
        lemma_tie_start(distances, k - 1, boundary);
        lemma_tie_end(distances, k as int, boundary);
        // Whatever is nearer than the tie stays.
        assert forall|j: int| 0 <= j < start && found.contains(#[trigger] row[j]) implies
            merged.contains(row[j]) by {
            lemma_head_is_nearer(points, k, row, distances, j);
            lemma_nearer_stays(points, graph, scan, k, row, distances, j);
        }
        lemma_hits_within(row, 0, start, found, merged);
        // Of the tie enough stays.
        if hits(row, start, end, merged) < k - start {
            assert forall|j: int| start <= j < end && found.contains(#[trigger] row[j]) implies
                merged.contains(row[j]) by {
                lemma_tied_stays(points, graph, scan, k, row, distances, j);
            }
            lemma_hits_within(row, start, end, found, merged);
        }
    }
}

/// The union of the lists is made of points, each once.
proof fn lemma_union(points: Seq<Neighbor>, graph: Seq<Neighbor>, scan: Seq<Neighbor>)
    requires
        drawn_from(graph, points),
        drawn_from(scan, points),
    ensures
        distinct_ids(first_of_each(graph + scan)),
        drawn_from(first_of_each(graph + scan), points),
{
    let all = graph + scan;
    let union = first_of_each(all);
    law_merge_has_distinct_ids(all);
    assert forall|u: int| 0 <= u < union.len() implies points.contains(#[trigger] union[u]) by {
        lemma_kept_is_mentioned(all, u);
        let m = choose|m: int| 0 <= m < all.len() && #[trigger] all[m] == union[u];
        if m < graph.len() {
            assert(all[m] == graph[m]);
        } else {
            assert(all[m] == scan[m - graph.len()]);
        }
    }
}

/// An id of graph search is an id of the union.
proof fn lemma_graph_id(graph: Seq<Neighbor>, scan: Seq<Neighbor>, id: u32)
    requires
        ids_of_list(graph).to_set().contains(id),
    ensures
        exists|u: int|
            0 <= u < first_of_each(graph + scan).len() && (#[trigger] first_of_each(
                graph + scan,
            )[u]).id == id,
{
    let all = graph + scan;
    let union = first_of_each(all);
    let i = ids_of_list(graph).index_of(id);
    assert(all[i] == graph[i]);
    lemma_first_mention(all, i);
    let m = choose|m: int|
        0 <= m <= i && (#[trigger] all[m]).id == all[i].id && union.contains(all[m]);
    assert(union[union.index_of(all[m])].id == id);
}

/// With no more points than are asked for, each one is kept.
proof fn lemma_kept(union: Seq<Neighbor>, k: nat, u: int)
    requires
        union.len() <= k,
        0 <= u < union.len(),
    ensures
        found_ids(union, k).to_set().contains(union[u].id),
{
    broadcast use vstd::seq_lib::group_to_multiset_ensures;

    law_few_candidates_are_all_found(union, k);
    assert(union.contains(union[u]));
    assert(union.to_multiset().count(union[u]) > 0);
    assert(nearest(union, k as int).contains(union[u]));
    let i = nearest(union, k as int).index_of(union[u]);
    assert(found_ids(union, k)[i] == union[u].id);
}

/// There are no fewer points than distinct entries drawn from them.
proof fn lemma_few_points(points: Seq<Neighbor>, list: Seq<Neighbor>)
    requires
        distinct_ids(points),
        distinct_ids(list),
        drawn_from(list, points),
    ensures
        list.len() <= points.len(),
{
    let all = ids_of_list(points);
    let some = ids_of_list(list);
    all.unique_seq_to_set();
    some.unique_seq_to_set();
    assert forall|id: u32| some.contains(id) implies all.contains(id) by {
        let i = some.index_of(id);
        assert(points.contains(list[i]));
        assert(all[points.index_of(list[i])] == id);
    }
    vstd::set_lib::lemma_len_subset(some.to_set(), all.to_set());
}

/// A row with fewer neighbours than are asked for lists every point.
proof fn lemma_short_truth(points: Seq<Neighbor>, k: nat, row: Seq<u32>, distances: Seq<u32>)
    requires
        distinct_ids(points),
        exact_truth(row, distances, points, k as int),
        valid_count(row, row.len() as int) < k,
    ensures
        points.len() < k,
{
    let valid = valid_count(row, row.len() as int);
    lemma_valid_range(row, row.len() as int);
    let ids = ids_of_list(points);
    let head = row.take(valid);
    ids.unique_seq_to_set();
    head.unique_seq_to_set();
    assert forall|id: u32| ids.contains(id) implies head.contains(id) by {
        assert(points[ids.index_of(id)].id == id);
    }
    vstd::set_lib::lemma_len_subset(ids.to_set(), head.to_set());
}

/// Where a point of the union was left out, the merge is full and nothing in it is farther.
proof fn lemma_left_out(union: Seq<Neighbor>, k: nat, u: int)
    requires
        distinct_ids(union),
        0 <= u < union.len(),
        !found_ids(union, k).to_set().contains(union[u].id),
    ensures
        nearest(union, k as int).len() == k,
        forall|i: int|
            0 <= i < k ==> rank(#[trigger] nearest(union, k as int)[i].distance) <= rank(
                union[u].distance,
            ),
{
    broadcast use vstd::seq_lib::group_to_multiset_ensures;

    let near = nearest(union, k as int);
    let x = union[u];
    law_nearest_are_sorted(union, k);
    if union.len() <= k {
        lemma_kept(union, k, u);
    }
    assert(union.contains(x));
    assert(union.to_multiset().count(x) > 0);
    assert(!near.contains(x)) by {
        if near.contains(x) {
            assert(found_ids(union, k)[near.index_of(x)] == x.id);
        }
    }
    assert(near.to_multiset().count(x) == 0);
    assert forall|i: int| 0 <= i < k implies rank(#[trigger] near[i].distance) <= rank(
        x.distance,
    ) by {
        law_nothing_nearer_is_left_out(union, k, x, i);
    }
}

/// The point of the union that an entry of the row names.
proof fn lemma_entry_in_union(
    points: Seq<Neighbor>,
    graph: Seq<Neighbor>,
    scan: Seq<Neighbor>,
    k: nat,
    row: Seq<u32>,
    distances: Seq<u32>,
    j: int,
) -> (u: int)
    requires
        distinct_ids(points),
        exact_truth(row, distances, points, k as int),
        drawn_from(graph, points),
        drawn_from(scan, points),
        0 <= j < valid_count(row, row.len() as int),
        ids_of_list(graph).to_set().contains(row[j]),
    ensures
        0 <= u < first_of_each(graph + scan).len(),
        first_of_each(graph + scan)[u].id == row[j],
        first_of_each(graph + scan)[u].distance == distances[j],
{
    let union = first_of_each(graph + scan);
    lemma_union(points, graph, scan);
    lemma_graph_id(graph, scan, row[j]);
    let u = choose|u: int| 0 <= u < union.len() && (#[trigger] union[u]).id == row[j];
    assert(points.contains(union[u]));
    lemma_same_point(points, row, distances, k as int, j, points.index_of(union[u]));
    u
}

/// A neighbour before the tie that graph search found is in the merge.
proof fn lemma_nearer_stays(
    points: Seq<Neighbor>,
    graph: Seq<Neighbor>,
    scan: Seq<Neighbor>,
    k: nat,
    row: Seq<u32>,
    distances: Seq<u32>,
    j: int,
)
    requires
        distinct_ids(points),
        all_numbers(points),
        exact_truth(row, distances, points, k as int),
        valid_count(row, row.len() as int) >= k,
        drawn_from(graph, points),
        drawn_from(scan, points),
        0 <= j < tie_start(distances, k - 1, distances[k - 1]),
        rank(distances[j]) < rank(distances[k - 1]),
        ids_of_list(graph).to_set().contains(row[j]),
    ensures
        found_ids(first_of_each(graph + scan), k).to_set().contains(row[j]),
{
    let union = first_of_each(graph + scan);
    let found = found_ids(union, k);
    let set = found.to_set();
    let start = tie_start(distances, k - 1, distances[k - 1]);
    lemma_valid_range(row, row.len() as int);
    lemma_tie_start(distances, k - 1, distances[k - 1]);
    lemma_union(points, graph, scan);
    let u = lemma_entry_in_union(points, graph, scan, k, row, distances, j);
    if !set.contains(row[j]) {
        lemma_left_out(union, k, u);
        lemma_found_set(union, k);
        let head = row.take(start);
        head.unique_seq_to_set();
        assert forall|id: u32| set.contains(id) implies head.contains(id) by {
            let i = found.index_of(id);
            let x = nearest(union, k as int)[i];
            lemma_found_is_candidate(union, k, i);
            assert(points.contains(union[union.index_of(x)]));
            lemma_nearer_point(points, k, row, distances, points.index_of(x));
        }
        vstd::set_lib::lemma_len_subset(set, head.to_set());
    }
}

/// Where the merge lacks places of the tie, a tied point that graph search found is in it.
proof fn lemma_tied_stays(
    points: Seq<Neighbor>,
    graph: Seq<Neighbor>,
    scan: Seq<Neighbor>,
    k: nat,
    row: Seq<u32>,
    distances: Seq<u32>,
    j: int,
)
    requires
        distinct_ids(points),
        all_numbers(points),
        forall|p: int| 0 <= p < points.len() ==> #[trigger] points[p].id != NO_NEIGHBOUR,
        exact_truth(row, distances, points, k as int),
        valid_count(row, row.len() as int) >= k,
        forall|j: int|
            valid_count(row, row.len() as int) <= j < row.len() ==> #[trigger] row[j]
                == NO_NEIGHBOUR,
        drawn_from(graph, points),
        drawn_from(scan, points),
        tie_start(distances, k - 1, distances[k - 1]) <= j < tie_end(
            distances,
            k as int,
            distances[k - 1],
        ),
        ids_of_list(graph).to_set().contains(row[j]),
        hits(
            row,
            tie_start(distances, k - 1, distances[k - 1]),
            tie_end(distances, k as int, distances[k - 1]),
            found_ids(first_of_each(graph + scan), k).to_set(),
        ) < k - tie_start(distances, k - 1, distances[k - 1]),
    ensures
        found_ids(first_of_each(graph + scan), k).to_set().contains(row[j]),
{
    let union = first_of_each(graph + scan);
    let found = found_ids(union, k);
    let set = found.to_set();
    let boundary = distances[k - 1];
    let start = tie_start(distances, k - 1, boundary);
    let end = tie_end(distances, k as int, boundary);
    let valid = valid_count(row, row.len() as int);
    lemma_valid_range(row, row.len() as int);
    lemma_tie_start(distances, k - 1, boundary);
    lemma_tie_end(distances, k as int, boundary);
    lemma_union(points, graph, scan);
    lemma_graph_id(graph, scan, row[j]);
    let u = choose|u: int| 0 <= u < union.len() && (#[trigger] union[u]).id == row[j];
    assert(points.contains(union[u]));
    assert(points[points.index_of(union[u])].id == row[j]);
    assert(j < valid);
    let u = lemma_entry_in_union(points, graph, scan, k, row, distances, j);
    lemma_tied(distances, k as int, boundary, j, valid);
    if !set.contains(row[j]) {
        lemma_left_out(union, k, u);
        lemma_found_set(union, k);
        assert forall|id: u32| set.contains(id) implies row.take(end).contains(id) by {
            let i = found.index_of(id);
            let x = nearest(union, k as int)[i];
            lemma_found_is_candidate(union, k, i);
            assert(points.contains(union[union.index_of(x)]));
            lemma_near_point(points, k, row, distances, points.index_of(x));
        }
        assert(set.intersect(row.take(end).to_set()) =~= set);
        lemma_hits_cover(row, end, set);
        lemma_hits_split(row, 0, start, end, set);
        lemma_hits(row, 0, start, set);
    }
}

/// In the tie nothing is farther than the last neighbour.
proof fn lemma_tied(distances: Seq<u32>, k: int, boundary: u32, j: int, valid: int)
    requires
        0 < k <= valid <= distances.len(),
        boundary == distances[k - 1],
        0 <= j < valid,
        j < tie_end(distances, k, boundary),
        forall|a: int, b: int| 0 <= a < b < valid ==> rank(distances[a]) <= rank(distances[b]),
    ensures
        rank(distances[j]) <= rank(boundary),
{
    if j >= k {
        lemma_tie_equal(distances, k, boundary, j);
    }
}

proof fn lemma_tie_equal(distances: Seq<u32>, at: int, boundary: u32, j: int)
    requires
        0 <= at <= j < tie_end(distances, at, boundary),
    ensures
        rank(distances[j]) == rank(boundary),
    decreases j - at,
{
    if at < j {
        lemma_tie_equal(distances, at + 1, boundary, j);
    }
}

} // verus!
