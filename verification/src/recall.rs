//! Recall of search results against ground truth, with credit for ties.
use std::collections::HashSet;

use vstd::prelude::*;
use vstd::slice::slice_subrange;

use crate::distance::{equal_distance, same_distance};

verus! {

broadcast use vstd::std_specs::hash::group_hash_axioms;

/// The entry that fills a row of ground truth behind its last neighbour.
pub const NO_NEIGHBOUR: u32 = u32::MAX;

/// How many of the first `k` entries of a row precede the first filler.
pub open spec fn valid_count(row: Seq<u32>, k: int) -> int
    decreases k,
{
    if k <= 0 {
        0
    } else {
        let before = valid_count(row, k - 1);
        if before == k - 1 && row[k - 1] != NO_NEIGHBOUR {
            k
        } else {
            before
        }
    }
}

/// How many entries of a row from `from` up to `to` are among the results.
pub open spec fn hits(row: Seq<u32>, from: int, to: int, found: Set<u32>) -> int
    decreases to - from,
{
    if to <= from {
        0
    } else {
        hits(row, from, to - 1, found) + if found.contains(row[to - 1]) {
            1int
        } else {
            0int
        }
    }
}

/// Where the run of distances that equal `boundary` and end right before `at` starts.
pub open spec fn tie_start(distances: Seq<u32>, at: int, boundary: u32) -> int
    decreases at,
{
    if at >= 1 && equal_distance(distances[at - 1], boundary) {
        tie_start(distances, at - 1, boundary)
    } else {
        at
    }
}

/// Where the run of distances that equal `boundary` and start at `at` ends.
pub open spec fn tie_end(distances: Seq<u32>, at: int, boundary: u32) -> int
    decreases distances.len() - at,
{
    if at < distances.len() && equal_distance(distances[at], boundary) {
        tie_end(distances, at + 1, boundary)
    } else {
        at
    }
}

pub open spec fn least(a: int, b: int) -> int {
    if a <= b {
        a
    } else {
        b
    }
}

/// How many of the `k` nearest neighbours count as found.
///
/// Where all `k` neighbours exist and their distances are known, the points that tie
/// with the last of them are interchangeable: they count up to the number of places
/// that the neighbours before the tie leave.
pub open spec fn credit(
    row: Seq<u32>,
    distances: Option<Seq<u32>>,
    k: int,
    found: Set<u32>,
) -> int {
    let valid = valid_count(row, k);
    match distances {
        Some(distances) if valid == k && k > 0 => {
            let boundary = distances[k - 1];
            let start = tie_start(distances, k - 1, boundary);
            let end = tie_end(distances, k, boundary);
            hits(row, 0, start, found) + least(hits(row, start, end, found), k - start)
        },
        _ => hits(row, 0, valid, found),
    }
}

/// The first `k` entries of a row are neighbours, and there are some: only then are the
/// distances of the row read.
pub open spec fn all_neighbours(row: Seq<u32>, k: int) -> bool {
    k > 0 && valid_count(row, k) == k
}

/// The recall of one query: `found` of `total` neighbours.
#[derive(Debug, Clone, Copy, PartialEq, Eq, Structural)]
pub struct QueryRecall {
    pub found: usize,
    pub total: usize,
}

impl QueryRecall {
    /// The share of the neighbours that was found, as a numerator and a denominator. A
    /// query without neighbours has found all of them.
    pub fn share(&self) -> (share: (usize, usize))
        ensures
            share == if self.total == 0 {
                (1usize, 1usize)
            } else {
                (self.found, self.total)
            },
    {
        if self.total == 0 {
            (1, 1)
        } else {
            (self.found, self.total)
        }
    }
}

/// The recall of one query. Of a row of ground truth the first `k` entries count.
pub fn query_recall(
    row: &[u32],
    distances: Option<&[u32]>,
    k: usize,
    results: &[u32],
) -> (recall: QueryRecall)
    requires
        k <= row@.len(),
        distances matches Some(d) ==> all_neighbours(row@, k as int) ==> d@.len() == row@.len(),
    ensures
        recall.total == valid_count(row@, k as int),
        recall.found == credit(
            row@,
            match distances {
                Some(d) => Some(d@),
                None => None,
            },
            k as int,
            results@.to_set(),
        ),
{
    let mut valid: usize = 0;
    while valid < k && row[valid] != NO_NEIGHBOUR
        invariant
            valid <= k <= row@.len(),
            valid_count(row@, valid as int) == valid,
        decreases k - valid,
    {
        valid = valid + 1;
    }
    proof {
        lemma_valid_count(row@, valid as int, k as int);
    }
    let found = collect_ids(results);
    if valid == 0 {
        return QueryRecall { found: 0, total: 0 };
    }
    match distances {
        Some(distances) if valid == k => {
            let boundary: u32 = distances[k - 1];
            let mut start: usize = k - 1;
            while start >= 1 && same_distance(distances[start - 1], boundary)
                invariant
                    start <= k - 1,
                    k <= distances@.len(),
                    tie_start(distances@, start as int, boundary) == tie_start(
                        distances@,
                        k - 1,
                        boundary,
                    ),
                decreases start,
            {
                start = start - 1;
            }
            let mut end: usize = k;
            while end < distances.len() && same_distance(distances[end], boundary)
                invariant
                    k <= end <= distances@.len(),
                    tie_end(distances@, end as int, boundary) == tie_end(
                        distances@,
                        k as int,
                        boundary,
                    ),
                decreases distances@.len() - end,
            {
                end = end + 1;
            }
            let before: usize = count_hits(row, 0, start, &found);
            let tied: usize = count_hits(row, start, end, &found);
            let places: usize = k - start;
            let credited: usize = if tied <= places { tied } else { places };
            QueryRecall { found: before + credited, total: valid }
        },
        _ => QueryRecall { found: count_hits(row, 0, valid, &found), total: valid },
    }
}

/// Row `q` of a table that is stored row by row, `dim` entries to a row.
pub open spec fn row_of(table: Seq<u32>, q: int, dim: int) -> Seq<u32> {
    table.subrange(q * dim, q * dim + dim)
}

/// The first `n` entries of row `q` of a table.
pub open spec fn head_of_row(table: Seq<u32>, q: int, dim: int, n: int) -> Seq<u32> {
    table.subrange(q * dim, q * dim + n)
}

/// The recall of every query: of each row of ground truth, and of each row of
/// results, the first `recall_k` entries count, as far as the row is that long.
pub fn compute_recall(
    num_queries: usize,
    gt: &[u32],
    gt_dists: Option<&[u32]>,
    gt_dim: usize,
    results: &[u32],
    results_dim: usize,
    recall_k: usize,
) -> (recalls: Vec<QueryRecall>)
    requires
        num_queries * gt_dim <= gt@.len(),
        gt_dists matches Some(d) ==> forall|q: int|
            0 <= q < num_queries && all_neighbours(
                #[trigger] row_of(gt@, q, gt_dim as int),
                least(recall_k as int, gt_dim as int),
            ) ==> q * gt_dim + gt_dim <= d@.len(),
        num_queries > 0 ==> (num_queries - 1) * results_dim + least(
            recall_k as int,
            results_dim as int,
        ) <= results@.len(),
    ensures
        recalls@.len() == num_queries,
        forall|q: int|
            #![trigger recalls@[q]]
            0 <= q < num_queries ==> {
                let k = least(recall_k as int, gt_dim as int);
                let n = least(recall_k as int, results_dim as int);
                let row = row_of(gt@, q, gt_dim as int);
                let found = head_of_row(results@, q, results_dim as int, n).to_set();
                let distances = match gt_dists {
                    Some(d) => Some(row_of(d@, q, gt_dim as int)),
                    None => None,
                };
                &&& recalls@[q].total == valid_count(row, k)
                &&& recalls@[q].found == credit(row, distances, k, found)
            },
{
    let k: usize = if recall_k <= gt_dim { recall_k } else { gt_dim };
    let n: usize = if recall_k <= results_dim { recall_k } else { results_dim };
    let mut recalls: Vec<QueryRecall> = Vec::with_capacity(num_queries);
    for q in 0..num_queries
        invariant
            k == least(recall_k as int, gt_dim as int),
            n == least(recall_k as int, results_dim as int),
            num_queries * gt_dim <= gt@.len(),
            gt_dists matches Some(d) ==> forall|p: int|
                0 <= p < num_queries && all_neighbours(
                    #[trigger] row_of(gt@, p, gt_dim as int),
                    k as int,
                ) ==> p * gt_dim + gt_dim <= d@.len(),
            num_queries > 0 ==> (num_queries - 1) * results_dim + n <= results@.len(),
            recalls@.len() == q,
            forall|p: int|
                #![trigger recalls@[p]]
                0 <= p < q ==> {
                    let row = row_of(gt@, p, gt_dim as int);
                    let found = head_of_row(results@, p, results_dim as int, n as int).to_set();
                    let distances = match gt_dists {
                        Some(d) => Some(row_of(d@, p, gt_dim as int)),
                        None => None,
                    };
                    &&& recalls@[p].total == valid_count(row, k as int)
                    &&& recalls@[p].found == credit(row, distances, k as int, found)
                },
    {
        assert(0 <= q * gt_dim && q * gt_dim + gt_dim <= num_queries * gt_dim) by (nonlinear_arith)
            requires
                0 <= q < num_queries,
                0 <= gt_dim,
        ;
        assert(0 <= q * results_dim <= (num_queries - 1) * results_dim) by (nonlinear_arith)
            requires
                0 <= q < num_queries,
                0 <= results_dim,
        ;
        assert(gt.len() <= usize::MAX && results.len() <= usize::MAX);
        let at: usize = q * gt_dim;
        let row = slice_subrange(gt, at, at + gt_dim);
        let distances = match gt_dists {
            Some(d) if d.len() >= at + gt_dim => Some(slice_subrange(d, at, at + gt_dim)),
            _ => None,
        };
        let from: usize = q * results_dim;
        let found = slice_subrange(results, from, from + n);
        recalls.push(query_recall(row, distances, k, found));
    }
    recalls
}

/// The ids of a list as a set.
fn collect_ids(ids: &[u32]) -> (set: HashSet<u32>)
    ensures
        set@ == ids@.to_set(),
{
    let n: usize = ids.len();
    let mut set: HashSet<u32> = HashSet::new();
    assert(set@ =~= ids@.take(0).to_set());
    for i in 0..n
        invariant
            n == ids@.len(),
            set@ == ids@.take(i as int).to_set(),
    {
        set.insert(ids[i]);
        proof {
            let earlier = ids@.take(i as int);
            let later = ids@.take(i + 1);
            assert(later =~= earlier.push(ids@[i as int]));
            assert(later[i as int] == ids@[i as int]);
            assert forall|x: u32| earlier.contains(x) implies later.contains(x) by {
                let k = earlier.index_of(x);
                assert(later[k] == x);
            }
            assert(set@ =~= later.to_set());
        }
    }
    assert(ids@.take(n as int) =~= ids@);
    set
}

/// How many entries of a row from `from` up to `to` are in the set.
fn count_hits(row: &[u32], from: usize, to: usize, found: &HashSet<u32>) -> (n: usize)
    requires
        from <= to <= row@.len(),
    ensures
        n == hits(row@, from as int, to as int, found@),
        n <= to - from,
{
    let mut n: usize = 0;
    for j in from..to
        invariant
            from <= to <= row@.len(),
            n == hits(row@, from as int, j as int, found@),
            n <= j - from,
    {
        if found.contains(&row[j]) {
            n = n + 1;
        }
    }
    n
}

/// Behind the first filler nothing counts.
proof fn lemma_valid_count(row: Seq<u32>, valid: int, k: int)
    requires
        0 <= valid <= k,
        valid_count(row, valid) == valid,
        valid < k ==> row[valid] == NO_NEIGHBOUR,
    ensures
        valid_count(row, k) == valid,
    decreases k,
{
    if valid < k {
        if valid < k - 1 {
            lemma_valid_count(row, valid, k - 1);
        }
    }
}

} // verus!
