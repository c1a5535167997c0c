//! What a search run promises as a whole.
use vstd::prelude::*;

use crate::search::{
    below, matching_ids, padded, path_of, recorded, FilterStrategy, PassView, SearchPath,
};

verus! {

/// Of a filtered query only ids that match are recorded: each place holds a matching id
/// of the search or what it held before.
pub proof fn law_recorded_ids_match(row: Seq<u32>, ids: Seq<u32>, filter: Set<usize>, i: int)
    requires
        0 <= i < row.len(),
    ensures
        ({
            let after = recorded(row, ids, Some(filter));
            &&& i < matching_ids(ids, filter).len() ==> {
                &&& filter.contains(after[i] as usize)
                &&& ids.contains(after[i])
            }
            &&& i >= matching_ids(ids, filter).len() ==> after[i] == row[i]
        }),
{
    let keep = |id: u32| filter.contains(id as usize);
    if i < matching_ids(ids, filter).len() {
        ids.lemma_filter_contains_rev(keep, matching_ids(ids, filter)[i]);
    }
}

/// Every matching id of the search is recorded as long as there is a place for it.
pub proof fn law_matching_ids_are_recorded(
    row: Seq<u32>,
    ids: Seq<u32>,
    filter: Set<usize>,
    id: u32,
)
    requires
        ids.contains(id),
        filter.contains(id as usize),
        matching_ids(ids, filter).len() <= row.len(),
    ensures
        recorded(row, ids, Some(filter)).contains(id),
{
    let keep = |id: u32| filter.contains(id as usize);
    let kept = matching_ids(ids, filter);
    assert(kept.contains(id)) by {
        broadcast use vstd::seq_lib::group_filter_ensures;

        let i = ids.index_of(id);
        assert(ids[i] == id && keep(ids[i]));
        ids.lemma_filter_contains(keep, i);
    }
    let j = kept.index_of(id);
    assert(recorded(row, ids, Some(filter))[j] == id);
}

/// Without a filter the first ids of the search are the row.
pub proof fn law_unfiltered_ids_are_kept(row: Seq<u32>, ids: Seq<u32>)
    requires
        row.len() <= ids.len(),
    ensures
        recorded(row, ids, None) == ids.take(row.len() as int),
{
    assert(recorded(row, ids, None) =~= ids.take(row.len() as int));
}

/// Later repetitions change nothing.
pub proof fn law_only_the_first_repetition_counts(
    pass: PassView,
    repetition: int,
    q: int,
    path: SearchPath,
    ids: Seq<u32>,
    filter: Option<Set<usize>>,
)
    requires
        repetition != 0,
    ensures
        pass.record(repetition, q, path, ids, filter) == pass,
{
}

/// The results of one query leave those of another alone.
pub proof fn law_queries_are_independent(
    pass: PassView,
    repetition: int,
    q: int,
    path: SearchPath,
    ids: Seq<u32>,
    filter: Option<Set<usize>>,
    p: int,
)
    requires
        0 <= q < pass.rows.len(),
        0 <= p < pass.rows.len(),
        p != q,
    ensures
        pass.record(repetition, q, path, ids, filter).rows[p] == pass.rows[p],
{
}

/// Brute-force search is chosen for a query if and only if it has a filter that fewer
/// points match than the threshold, whatever the strategy, unless that is an inline one; a
/// threshold of 0 turns it off.
pub proof fn law_when_a_query_is_brute_forced(
    strategy: FilterStrategy,
    matching: Option<usize>,
    threshold: usize,
)
    ensures
        path_of(strategy, matching, threshold) == SearchPath::BruteForce <==> !strategy.inline()
            && (matching matches Some(count) && count < threshold),
        matching is None && !strategy.inline() ==> path_of(strategy, matching, threshold)
            == SearchPath::Plain,
{
}

/// The first repetition over the first `n` queries: each is routed by the number of points
/// that match its filter, and its ids are recorded.
pub open spec fn first_repetition(
    pass: PassView,
    strategy: FilterStrategy,
    counts: Seq<usize>,
    threshold: usize,
    ids: Seq<Seq<u32>>,
    filters: Seq<Set<usize>>,
    n: int,
) -> PassView
    decreases n,
{
    if n <= 0 {
        pass
    } else {
        first_repetition(pass, strategy, counts, threshold, ids, filters, n - 1).record(
            0,
            n - 1,
            path_of(strategy, Some(counts[n - 1]), threshold),
            ids[n - 1],
            Some(filters[n - 1]),
        )
    }
}

/// The number of brute-forced queries that a filtered run reports is the number of filters
/// below the threshold that it announced, and every query has its own ids in its row.
pub proof fn law_filtered_run(
    k: nat,
    strategy: FilterStrategy,
    counts: Seq<usize>,
    threshold: usize,
    ids: Seq<Seq<u32>>,
    filters: Seq<Set<usize>>,
    n: int,
)
    requires
        !strategy.inline(),
        0 <= n <= counts.len(),
    ensures
        ({
            let start = PassView::empty(counts.len(), k);
            let end = first_repetition(start, strategy, counts, threshold, ids, filters, n);
            &&& end.rows.len() == counts.len()
            &&& end.brute_forced == below(counts.take(n), threshold)
            &&& forall|q: int|
                0 <= q < n ==> #[trigger] end.rows[q] == recorded(
                    start.rows[q],
                    ids[q],
                    Some(filters[q]),
                )
            &&& forall|q: int| n <= q < counts.len() ==> #[trigger] end.rows[q] == start.rows[q]
        }),
    decreases n,
{
    if n > 0 {
        law_filtered_run(k, strategy, counts, threshold, ids, filters, n - 1);
        assert(counts.take(n).drop_last() =~= counts.take(n - 1));
    }
}

/// Where every id that brute-force search found matches the filter, the row of the query
/// is those ids from near to far, then zeros.
pub proof fn law_brute_forced_row(found: Seq<u32>, filter: Set<usize>, k: nat, width: nat)
    requires
        found.len() <= k <= width,
        forall|i: int| 0 <= i < found.len() ==> filter.contains(#[trigger] found[i] as usize),
    ensures
        recorded(Seq::new(k, |i: int| 0u32), padded(found, width as int), Some(filter)) == padded(
            found,
            k as int,
        ),
{
    let keep = |id: u32| filter.contains(id as usize);
    let buffer = padded(found, width as int);
    let rest = buffer.skip(found.len() as int);
    assert(buffer =~= found + rest);
    Seq::filter_distributes_over_add(found, rest, keep);
    lemma_filter_all(found, keep);
    assert forall|i: int| 0 <= i < rest.filter(keep).len() implies rest.filter(keep)[i] == 0 by {
        rest.lemma_filter_contains_rev(keep, rest.filter(keep)[i]);
    }
    assert(recorded(Seq::new(k, |i: int| 0u32), buffer, Some(filter)) =~= padded(found, k as int));
}

/// A filter that everything passes changes nothing.
proof fn lemma_filter_all(ids: Seq<u32>, keep: spec_fn(u32) -> bool)
    requires
        forall|i: int| 0 <= i < ids.len() ==> keep(#[trigger] ids[i]),
    ensures
        ids.filter(keep) == ids,
    decreases ids.len(),
{
    reveal(Seq::filter);
    if ids.len() > 0 {
        lemma_filter_all(ids.drop_last(), keep);
        assert(ids.drop_last().push(ids.last()) =~= ids);
    }
}

} // verus!
