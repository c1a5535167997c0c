//! Laws of recall.
use vstd::prelude::*;

use crate::recall::{credit, hits, tie_end, tie_start, valid_count};

verus! {

pub(crate) proof fn lemma_hits(row: Seq<u32>, from: int, to: int, found: Set<u32>)
    requires
        from <= to,
    ensures
        0 <= hits(row, from, to, found) <= to - from,
        (forall|j: int| from <= j < to ==> found.contains(#[trigger] row[j])) ==> hits(
            row,
            from,
            to,
            found,
        ) == to - from,
    decreases to - from,
{
    if from < to {
        lemma_hits(row, from, to - 1, found);
    }
}

pub(crate) proof fn lemma_hits_split(row: Seq<u32>, from: int, at: int, to: int, found: Set<u32>)
    requires
        from <= at <= to,
    ensures
        hits(row, from, to, found) == hits(row, from, at, found) + hits(row, at, to, found),
    decreases to - at,
{
    if at < to {
        lemma_hits_split(row, from, at, to - 1, found);
    }
}

pub(crate) proof fn lemma_valid_range(row: Seq<u32>, k: int)
    requires
        0 <= k,
    ensures
        0 <= valid_count(row, k) <= k,
    decreases k,
{
    if k > 0 {
        lemma_valid_range(row, k - 1);
    }
}

pub(crate) proof fn lemma_tie_start(distances: Seq<u32>, at: int, boundary: u32)
    requires
        0 <= at,
    ensures
        0 <= tie_start(distances, at, boundary) <= at,
    decreases at,
{
    if at >= 1 {
        lemma_tie_start(distances, at - 1, boundary);
    }
}

pub(crate) proof fn lemma_tie_end(distances: Seq<u32>, at: int, boundary: u32)
    requires
        at <= distances.len(),
    ensures
        at <= tie_end(distances, at, boundary) <= distances.len(),
    decreases distances.len() - at,
{
    if at < distances.len() {
        lemma_tie_end(distances, at + 1, boundary);
    }
}

/// What counts of one set of results in a part of a row counts of another that holds it
/// there.
pub(crate) proof fn lemma_hits_within(
    row: Seq<u32>,
    from: int,
    to: int,
    found: Set<u32>,
    more: Set<u32>,
)
    requires
        forall|j: int|
            from <= j < to && found.contains(#[trigger] row[j]) ==> more.contains(row[j]),
    ensures
        hits(row, from, to, found) <= hits(row, from, to, more),
    decreases to - from,
{
    if from < to {
        lemma_hits_within(row, from, to - 1, found, more);
    }
}

/// No query has more neighbours found than it has neighbours.
pub proof fn law_recall_is_at_most_one(
    row: Seq<u32>,
    distances: Option<Seq<u32>>,
    k: int,
    found: Set<u32>,
)
    requires
        0 <= k <= row.len(),
        distances matches Some(d) ==> d.len() == row.len(),
    ensures
        0 <= credit(row, distances, k, found) <= valid_count(row, k),
{
    let valid = valid_count(row, k);
    lemma_valid_range(row, k);
    lemma_hits(row, 0, valid, found);
    if let Some(d) = distances {
        if valid == k && k > 0 {
            let start = tie_start(d, k - 1, d[k - 1]);
            let end = tie_end(d, k, d[k - 1]);
            lemma_tie_start(d, k - 1, d[k - 1]);
            lemma_tie_end(d, k, d[k - 1]);
            lemma_hits(row, 0, start, found);
            lemma_hits(row, start, end, found);
        }
    }
}

/// A query that found each of its neighbours has full recall, with ties or without.
pub proof fn law_all_neighbours_give_full_recall(
    row: Seq<u32>,
    distances: Option<Seq<u32>>,
    k: int,
    found: Set<u32>,
)
    requires
        0 <= k <= row.len(),
        distances matches Some(d) ==> d.len() == row.len(),
        forall|j: int| 0 <= j < valid_count(row, k) ==> found.contains(#[trigger] row[j]),
    ensures
        credit(row, distances, k, found) == valid_count(row, k),
{
    let valid = valid_count(row, k);
    lemma_valid_range(row, k);
    lemma_hits(row, 0, valid, found);
    if let Some(d) = distances {
        if valid == k && k > 0 {
            let start = tie_start(d, k - 1, d[k - 1]);
            let end = tie_end(d, k, d[k - 1]);
            lemma_tie_start(d, k - 1, d[k - 1]);
            lemma_tie_end(d, k, d[k - 1]);
            lemma_hits(row, 0, start, found);
            lemma_hits(row, start, k, found);
            lemma_hits(row, k, end, found);
            lemma_hits_split(row, start, k, end, found);
        }
    }
}

/// Points that tie with the last neighbour are interchangeable: whichever of them were
/// found, enough of them give full recall.
pub proof fn law_ties_are_interchangeable(
    row: Seq<u32>,
    distances: Seq<u32>,
    k: int,
    found: Set<u32>,
)
    requires
        0 < k <= row.len(),
        distances.len() == row.len(),
        valid_count(row, k) == k,
        forall|j: int|
            0 <= j < tie_start(distances, k - 1, distances[k - 1]) ==> found.contains(
                #[trigger] row[j],
            ),
        hits(
            row,
            tie_start(distances, k - 1, distances[k - 1]),
            tie_end(distances, k, distances[k - 1]),
            found,
        ) >= k - tie_start(distances, k - 1, distances[k - 1]),
    ensures
        credit(row, Some(distances), k, found) == k,
{
    let start = tie_start(distances, k - 1, distances[k - 1]);
    lemma_tie_start(distances, k - 1, distances[k - 1]);
    lemma_hits(row, 0, start, found);
}

/// More results never lower the recall.
pub proof fn law_recall_grows_with_results(
    row: Seq<u32>,
    distances: Option<Seq<u32>>,
    k: int,
    found: Set<u32>,
    more: Set<u32>,
)
    requires
        found.subset_of(more),
    ensures
        credit(row, distances, k, found) <= credit(row, distances, k, more),
{
    let valid = valid_count(row, k);
    lemma_hits_within(row, 0, valid, found, more);
    if let Some(d) = distances {
        let start = tie_start(d, k - 1, d[k - 1]);
        let end = tie_end(d, k, d[k - 1]);
        lemma_hits_within(row, 0, start, found, more);
        lemma_hits_within(row, start, end, found, more);
    }
}

/// Known distances never lower the recall: ties only add credit.
pub proof fn law_ties_only_add_credit(
    row: Seq<u32>,
    distances: Seq<u32>,
    k: int,
    found: Set<u32>,
)
    requires
        0 <= k <= row.len(),
        distances.len() == row.len(),
    ensures
        credit(row, None, k, found) <= credit(row, Some(distances), k, found),
{
    let valid = valid_count(row, k);
    if valid == k && k > 0 {
        let start = tie_start(distances, k - 1, distances[k - 1]);
        let end = tie_end(distances, k, distances[k - 1]);
        lemma_tie_start(distances, k - 1, distances[k - 1]);
        lemma_tie_end(distances, k, distances[k - 1]);
        lemma_hits_split(row, 0, start, k, found);
        lemma_hits_split(row, start, k, end, found);
        lemma_hits(row, start, k, found);
        lemma_hits(row, k, end, found);
    }
}

} // verus!
