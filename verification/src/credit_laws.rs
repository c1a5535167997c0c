//! What recall counts, said of the row, the results and the distances themselves.
use vstd::prelude::*;

use crate::distance::equal_distance;
use crate::recall::{
    all_neighbours, compute_recall, credit, head_of_row, hits, least, query_recall, row_of,
    tie_end, tie_start, valid_count, QueryRecall,
};
use crate::recall_laws::{
    lemma_hits, lemma_hits_split, lemma_tie_end, lemma_tie_start, lemma_valid_range,
};

verus! {

/// The neighbours of a row are those of its first `k` entries that stand before the first
/// entry with all bits set.
pub proof fn law_neighbours_stand_before_the_first_filler(row: Seq<u32>, k: int)
    requires
        0 <= k <= row.len(),
    ensures
        0 <= valid_count(row, k) <= k,
        forall|i: int| 0 <= i < valid_count(row, k) ==> #[trigger] row[i] != 0xffff_ffffu32,
        valid_count(row, k) < k ==> row[valid_count(row, k)] == 0xffff_ffffu32,
        all_neighbours(row, k) <==> k > 0 && forall|i: int|
            0 <= i < k ==> #[trigger] row[i] != 0xffff_ffffu32,
    decreases k,
{
    if k > 0 {
        law_neighbours_stand_before_the_first_filler(row, k - 1);
        lemma_valid_range(row, k);
        let v = valid_count(row, k);
        if v < k {
            assert(row[v] == 0xffff_ffffu32);
        }
    }
}

/// The hits are the entries that are among the results, each counted once.
pub proof fn law_hits_are_the_entries_among_the_results(
    row: Seq<u32>,
    from: int,
    to: int,
    found: Set<u32>,
)
    requires
        0 <= from <= to <= row.len(),
    ensures
        hits(row, from, to, found) == row.subrange(from, to).filter(
            |id: u32| found.contains(id),
        ).len(),
    decreases to - from,
{
    let keep = |id: u32| found.contains(id);
    let part = row.subrange(from, to);
    reveal(Seq::filter);
    if from < to {
        law_hits_are_the_entries_among_the_results(row, from, to - 1, found);
        let rest = row.subrange(from, to - 1);
        assert(part =~= rest.push(row[to - 1]));
        rest.lemma_filter_push(row[to - 1], keep);
    }
}

/// A tie reaches as far as distances equal that of its border, in both directions.
pub proof fn law_a_tie_reaches_as_far_as_distances_are_equal(
    distances: Seq<u32>,
    at: int,
    boundary: u32,
    start: int,
    end: int,
)
    requires
        0 <= at <= distances.len(),
    ensures
        start == tie_start(distances, at, boundary) <==> {
            &&& 0 <= start <= at
            &&& forall|j: int| start <= j < at ==> equal_distance(#[trigger] distances[j], boundary)
            &&& start > 0 ==> !equal_distance(distances[start - 1], boundary)
        },
        end == tie_end(distances, at, boundary) <==> {
            &&& at <= end <= distances.len()
            &&& forall|j: int| at <= j < end ==> equal_distance(#[trigger] distances[j], boundary)
            &&& end < distances.len() ==> !equal_distance(distances[end], boundary)
        },
{
    lemma_tie_start(distances, at, boundary);
    lemma_tie_end(distances, at, boundary);
    lemma_start_reaches(distances, at, boundary);
    lemma_end_reaches(distances, at, boundary);
    let s = tie_start(distances, at, boundary);
    let e = tie_end(distances, at, boundary);
    if {
        &&& 0 <= start <= at
        &&& forall|j: int| start <= j < at ==> equal_distance(#[trigger] distances[j], boundary)
        &&& start > 0 ==> !equal_distance(distances[start - 1], boundary)
    } {
        if s < start {
            assert(equal_distance(distances[start - 1], boundary));
        }
        if start < s {
            assert(equal_distance(distances[s - 1], boundary));
        }
    }
    if {
        &&& at <= end <= distances.len()
        &&& forall|j: int| at <= j < end ==> equal_distance(#[trigger] distances[j], boundary)
        &&& end < distances.len() ==> !equal_distance(distances[end], boundary)
    } {
        if e < end {
            assert(equal_distance(distances[e], boundary));
        }
        if end < e {
            assert(equal_distance(distances[end], boundary));
        }
    }
}

proof fn lemma_start_reaches(distances: Seq<u32>, at: int, boundary: u32)
    requires
        0 <= at <= distances.len(),
    ensures
        ({
            let s = tie_start(distances, at, boundary);
            &&& forall|j: int| s <= j < at ==> equal_distance(#[trigger] distances[j], boundary)
            &&& s > 0 ==> !equal_distance(distances[s - 1], boundary)
        }),
    decreases at,
{
    if at >= 1 && equal_distance(distances[at - 1], boundary) {
        lemma_start_reaches(distances, at - 1, boundary);
    }
}

proof fn lemma_end_reaches(distances: Seq<u32>, at: int, boundary: u32)
    requires
        0 <= at <= distances.len(),
    ensures
        ({
            let e = tie_end(distances, at, boundary);
            &&& forall|j: int| at <= j < e ==> equal_distance(#[trigger] distances[j], boundary)
            &&& e < distances.len() ==> !equal_distance(distances[e], boundary)
        }),
    decreases distances.len() - at,
{
    if at < distances.len() && equal_distance(distances[at], boundary) {
        lemma_end_reaches(distances, at + 1, boundary);
    }
}

/// The lesser of two numbers is one of them and above neither.
pub proof fn law_the_lesser_number(a: int, b: int)
    ensures
        least(a, b) <= a,
        least(a, b) <= b,
        least(a, b) == a || least(a, b) == b,
{
}

/// Without distances, or where there are fewer than `k` neighbours, the credit is the number
/// of neighbours among the results.
pub proof fn law_credit_without_a_tie(
    row: Seq<u32>,
    distances: Option<Seq<u32>>,
    k: int,
    found: Set<u32>,
)
    requires
        0 <= k <= row.len(),
        distances is None || k == 0 || exists|i: int| 0 <= i < k && #[trigger] row[i] == 0xffff_ffffu32,
    ensures
        credit(row, distances, k, found) == row.take(valid_count(row, k)).filter(
            |id: u32| found.contains(id),
        ).len(),
{
    law_neighbours_stand_before_the_first_filler(row, k);
    let valid = valid_count(row, k);
    law_hits_are_the_entries_among_the_results(row, 0, valid, found);
    assert(row.subrange(0, valid) =~= row.take(valid));
}

/// With distances the credit is the hits before the tie with the last neighbour and those in
/// the tie, of which no more count than there are places left for.
pub proof fn law_credit_with_a_tie(
    row: Seq<u32>,
    distances: Seq<u32>,
    k: int,
    found: Set<u32>,
    start: int,
    end: int,
)
    requires
        0 < k <= row.len(),
        distances.len() == row.len(),
        forall|i: int| 0 <= i < k ==> #[trigger] row[i] != 0xffff_ffffu32,
        0 <= start < k <= end <= row.len(),
        forall|j: int|
            start <= j < end ==> equal_distance(#[trigger] distances[j], distances[k - 1]) || j == k
                - 1,
        start > 0 ==> !equal_distance(distances[start - 1], distances[k - 1]),
        end < row.len() ==> !equal_distance(distances[end], distances[k - 1]),
    ensures
        ({
            let keep = |id: u32| found.contains(id);
            let before = row.take(start).filter(keep).len();
            let tied = row.subrange(start, end).filter(keep).len();
            &&& tied <= k - start ==> credit(row, Some(distances), k, found) == before + tied
            &&& tied >= k - start ==> credit(row, Some(distances), k, found) == before + (k
                - start)
        }),
{
    let boundary = distances[k - 1];
    law_neighbours_stand_before_the_first_filler(row, k);
    law_a_tie_reaches_as_far_as_distances_are_equal(distances, k - 1, boundary, start, end);
    law_a_tie_reaches_as_far_as_distances_are_equal(distances, k, boundary, start, end);
    assert(start == tie_start(distances, k - 1, boundary));
    assert(end == tie_end(distances, k, boundary));
    law_hits_are_the_entries_among_the_results(row, 0, start, found);
    law_hits_are_the_entries_among_the_results(row, start, end, found);
    assert(row.subrange(0, start) =~= row.take(start));
}

/// No more is credited than was found: no more than entries of the row are among the results,
/// and, where no entry stands twice, no more than there are different results.
pub proof fn law_no_more_is_credited_than_was_found(
    row: Seq<u32>,
    distances: Option<Seq<u32>>,
    k: int,
    results: Seq<u32>,
)
    requires
        0 <= k <= row.len(),
        distances matches Some(d) ==> d.len() == row.len(),
    ensures
        0 <= credit(row, distances, k, results.to_set()) <= row.filter(
            |id: u32| results.contains(id),
        ).len(),
        row.no_duplicates() ==> credit(row, distances, k, results.to_set())
            <= results.to_set().len() <= results.len(),
{
    let found = results.to_set();
    let keep = |id: u32| results.contains(id);
    let n = row.len() as int;
    let valid = valid_count(row, k);
    lemma_valid_range(row, k);
    law_hits_are_the_entries_among_the_results(row, 0, n, found);
    assert(row.subrange(0, n) =~= row);
    assert((|id: u32| found.contains(id)) =~= keep);
    lemma_hits(row, 0, valid, found);
    lemma_hits_split(row, 0, valid, n, found);
    lemma_hits(row, valid, n, found);
    if let Some(d) = distances {
        if valid == k && k > 0 {
            let start = tie_start(d, k - 1, d[k - 1]);
            let end = tie_end(d, k, d[k - 1]);
            lemma_tie_start(d, k - 1, d[k - 1]);
            lemma_tie_end(d, k, d[k - 1]);
            lemma_hits_split(row, 0, start, n, found);
            lemma_hits_split(row, start, end, n, found);
            lemma_hits(row, 0, start, found);
            lemma_hits(row, start, end, found);
            lemma_hits(row, end, n, found);
        }
    }
    results.lemma_cardinality_of_set();
    if row.no_duplicates() {
        lemma_distinct_hits(row, n, found);
    }
}

/// Different entries are different results.
proof fn lemma_distinct_hits(row: Seq<u32>, n: int, found: Set<u32>)
    requires
        0 <= n <= row.len(),
        row.no_duplicates(),
        found.finite(),
    ensures
        hits(row, 0, n, found) == found.intersect(row.take(n).to_set()).len(),
        hits(row, 0, n, found) <= found.len(),
    decreases n,
{
    let here = row.take(n).to_set();
    if n == 0 {
        assert(found.intersect(here) =~= Set::<u32>::empty());
    } else {
        let before = row.take(n - 1).to_set();
        lemma_distinct_hits(row, n - 1, found);
        let x = row[n - 1];
        assert(row.take(n) =~= row.take(n - 1).push(x));
        assert(row.take(n)[n - 1] == x);
        assert forall|y: u32| here.contains(y) <==> before.contains(y) || y == x by {
            if row.take(n - 1).contains(y) {
                assert(row.take(n)[row.take(n - 1).index_of(y)] == y);
            }
            if row.take(n).contains(y) && y != x {
                assert(row.take(n - 1)[row.take(n).index_of(y)] == y);
            }
        }
        assert(!before.contains(x)) by {
            if row.take(n - 1).contains(x) {
                let i = row.take(n - 1).index_of(x);
                assert(row[i] == row[n - 1]);
            }
        }
        if found.contains(x) {
            assert(found.intersect(here) =~= found.intersect(before).insert(x));
        } else {
            assert(found.intersect(here) =~= found.intersect(before));
        }
    }
    vstd::set_lib::lemma_len_subset(found.intersect(here), found);
}

/// The recall of a query: of as many neighbours as stand before the first filler, no more are
/// found than there are, nor than are among the results.
pub proof fn law_recall_of_a_query(
    row: &[u32],
    distances: Option<&[u32]>,
    k: usize,
    results: &[u32],
    recall: QueryRecall,
)
    requires
        call_ensures(query_recall, (row, distances, k, results), recall),
        k <= row@.len(),
        distances matches Some(d) ==> d@.len() == row@.len(),
    ensures
        recall.found <= recall.total <= k,
        forall|i: int| 0 <= i < recall.total ==> #[trigger] row@[i] != 0xffff_ffffu32,
        recall.total < k ==> row@[recall.total as int] == 0xffff_ffffu32,
        recall.found <= row@.filter(|id: u32| results@.contains(id)).len(),
        row@.no_duplicates() ==> recall.found <= results@.to_set().len(),
        distances is None || recall.total < k ==> recall.found == row@.take(
            recall.total as int,
        ).filter(|id: u32| results@.contains(id)).len(),
{
    let d = match distances {
        Some(d) => Some(d@),
        None => None,
    };
    law_neighbours_stand_before_the_first_filler(row@, k as int);
    law_no_more_is_credited_than_was_found(row@, d, k as int, results@);
    crate::recall_laws::law_recall_is_at_most_one(row@, d, k as int, results@.to_set());
    if distances is None || recall.total < k {
        law_credit_without_a_tie(row@, d, k as int, results@.to_set());
        assert((|id: u32| results@.to_set().contains(id)) =~= (|id: u32| results@.contains(id)));
    }
}

/// Distances are not read where there are fewer than `k` neighbours: what is found is then,
/// as without them, the neighbours among the results.
pub proof fn law_recall_of_a_query_with_few_neighbours(
    row: &[u32],
    distances: Option<&[u32]>,
    k: usize,
    results: &[u32],
    recall: QueryRecall,
)
    requires
        call_ensures(query_recall, (row, distances, k, results), recall),
        k <= row@.len(),
        distances is None || k == 0 || exists|i: int|
            0 <= i < k && #[trigger] row@[i] == 0xffff_ffffu32,
    ensures
        recall.total <= k,
        forall|i: int| 0 <= i < recall.total ==> #[trigger] row@[i] != 0xffff_ffffu32,
        recall.total < k ==> row@[recall.total as int] == 0xffff_ffffu32,
        recall.found == row@.take(recall.total as int).filter(
            |id: u32| results@.contains(id),
        ).len(),
{
    let d = match distances {
        Some(d) => Some(d@),
        None => None,
    };
    law_neighbours_stand_before_the_first_filler(row@, k as int);
    law_credit_without_a_tie(row@, d, k as int, results@.to_set());
    assert((|id: u32| results@.to_set().contains(id)) =~= (|id: u32| results@.contains(id)));
}

/// With distances and `k` neighbours, what is found is what stands before the tie with the
/// last neighbour and is among the results, and as much of the tie as there are places for.
pub proof fn law_recall_of_a_query_with_a_tie(
    row: &[u32],
    distances: &[u32],
    k: usize,
    results: &[u32],
    recall: QueryRecall,
    start: int,
    end: int,
)
    requires
        call_ensures(query_recall, (row, Some(distances), k, results), recall),
        0 < k <= row@.len(),
        distances@.len() == row@.len(),
        forall|i: int| 0 <= i < k ==> #[trigger] row@[i] != 0xffff_ffffu32,
        0 <= start < k <= end <= row@.len(),
        forall|j: int|
            start <= j < end ==> equal_distance(#[trigger] distances@[j], distances@[k - 1]) || j
                == k - 1,
        start > 0 ==> !equal_distance(distances@[start - 1], distances@[k - 1]),
        end < row@.len() ==> !equal_distance(distances@[end], distances@[k - 1]),
    ensures
        ({
            let keep = |id: u32| results@.contains(id);
            let before = row@.take(start).filter(keep).len();
            let tied = row@.subrange(start, end).filter(keep).len();
            &&& recall.total == k
            &&& tied <= k - start ==> recall.found == before + tied
            &&& tied >= k - start ==> recall.found == before + (k - start)
        }),
{
    let found = results@.to_set();
    law_neighbours_stand_before_the_first_filler(row@, k as int);
    law_credit_with_a_tie(row@, distances@, k as int, found, start, end);
    assert((|id: u32| found.contains(id)) =~= (|id: u32| results@.contains(id)));
}

/// The recall of a run is that of each of its queries: row `q` of the ground truth against
/// the results of query `q`, of which no more than `recall_k` count.
pub proof fn law_recall_of_a_run(
    num_queries: usize,
    gt: &[u32],
    gt_dists: Option<&[u32]>,
    gt_dim: usize,
    results: &[u32],
    results_dim: usize,
    recall_k: usize,
    recalls: Vec<QueryRecall>,
    q: int,
    row: &[u32],
    distances: Option<&[u32]>,
    k: usize,
    found: &[u32],
    recall: QueryRecall,
)
    requires
        call_ensures(
            compute_recall,
            (num_queries, gt, gt_dists, gt_dim, results, results_dim, recall_k),
            recalls,
        ),
        call_ensures(query_recall, (row, distances, k, found), recall),
        0 <= q < num_queries,
        k == recall_k && recall_k <= gt_dim || k == gt_dim && gt_dim < recall_k,
        row@ == gt@.subrange(q * gt_dim, q * gt_dim + gt_dim),
        gt_dists is Some <==> distances is Some,
        distances matches Some(d) ==> d@ == (gt_dists->0)@.subrange(
            q * gt_dim,
            q * gt_dim + gt_dim,
        ),
        recall_k <= results_dim ==> found@ == results@.subrange(
            q * results_dim,
            q * results_dim + recall_k,
        ),
        recall_k > results_dim ==> found@ == results@.subrange(
            q * results_dim,
            q * results_dim + results_dim,
        ),
    ensures
        recalls@.len() == num_queries,
        recalls@[q] == recall,
{
    assert(recalls@[q].total == recall.total);
    assert(recalls@[q].found == recall.found);
}

/// Rows lie one behind the other.
pub proof fn law_rows_of_a_table(table: Seq<u32>, q: int, dim: int, n: int, i: int)
    requires
        0 <= q,
        0 <= i < n <= dim,
        q * dim + dim <= table.len(),
    ensures
        row_of(table, q, dim).len() == dim,
        row_of(table, q, dim)[i] == table[q * dim + i],
        head_of_row(table, q, dim, n).len() == n,
        head_of_row(table, q, dim, n)[i] == table[q * dim + i],
{
    assert(q * dim >= 0) by (nonlinear_arith)
        requires
            q >= 0,
            dim > 0,
    ;
}

/// The share of a query is what it found of its neighbours; without neighbours it is all.
pub proof fn law_share_of_a_query(recall: QueryRecall, share: (usize, usize))
    requires
        call_ensures(QueryRecall::share, (&recall,), share),
    ensures
        share.1 > 0,
        recall.total > 0 ==> share.0 * recall.total == recall.found * share.1,
        recall.total == 0 ==> share.0 == share.1,
        recall.found <= recall.total ==> share.0 <= share.1,
{
}

} // verus!
