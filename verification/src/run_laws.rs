//! What the decisions of a run promise for every combination of its arguments.
use bit_set::BitSet;
use vstd::prelude::*;

use crate::bits::members;
use crate::index_build::{build_threads, reports_progress, resolve_threads};
use crate::labels::reports_labels;
use crate::search::{
    below, beta_in_range, check_setup, filter_stats, is_filtered, matching_ids, pad_ids, padded,
    path_of, recorded, route_query, search_width, setup_fault, strategy_label, sum_of,
    BitmapLabelProvider, FilterStats, FilterStrategy, SearchPass, SearchPath, SetupError,
};

verus! {

/// A query with a filter that is not brute-forced is searched by its strategy, whatever the
/// threshold: with points drawn nearer under `Beta`, through points that do not match under
/// `Multihop`, and without regard to the filter where it is applied afterwards.
pub proof fn law_strategy_decides_the_path(
    strategy: FilterStrategy,
    count: usize,
    threshold: usize,
    path: SearchPath,
)
    requires
        call_ensures(route_query, (strategy, Some(count), threshold), path),
        threshold == 0 || count >= threshold,
    ensures
        strategy == FilterStrategy::Beta ==> path == SearchPath::Beta,
        strategy == FilterStrategy::Multihop ==> path == SearchPath::Multihop,
        strategy == FilterStrategy::NoFilter ==> path == SearchPath::Plain,
{
}

/// As long as a query is not brute-forced, its path depends on neither the threshold nor the
/// number of points that match.
pub proof fn law_path_does_not_depend_on_the_threshold(
    strategy: FilterStrategy,
    count: usize,
    other_count: usize,
    threshold: usize,
    other_threshold: usize,
    path: SearchPath,
    other_path: SearchPath,
)
    requires
        call_ensures(route_query, (strategy, Some(count), threshold), path),
        call_ensures(route_query, (strategy, Some(other_count), other_threshold), other_path),
        count >= threshold,
        other_count >= other_threshold,
    ensures
        path == other_path,
{
}

/// A query is brute-forced exactly where fewer points match its filter than the threshold
/// says, and its strategy goes by bitmaps.
pub proof fn law_rare_filters_are_brute_forced(
    strategy: FilterStrategy,
    matching: Option<usize>,
    threshold: usize,
    path: SearchPath,
)
    requires
        call_ensures(route_query, (strategy, matching, threshold), path),
    ensures
        path == SearchPath::BruteForce <==> {
            &&& matching is Some
            &&& matching->0 < threshold
            &&& strategy == FilterStrategy::NoFilter || strategy == FilterStrategy::Beta || strategy
                == FilterStrategy::Multihop
        },
{
}

/// Without a filter the search is plain; an inline strategy is searched inline, filter or
/// not; and no other strategy is.
pub proof fn law_paths_without_a_bitmap(
    strategy: FilterStrategy,
    matching: Option<usize>,
    threshold: usize,
    path: SearchPath,
)
    requires
        call_ensures(route_query, (strategy, matching, threshold), path),
    ensures
        path == SearchPath::InlineBeta <==> {
            ||| strategy == FilterStrategy::InlineBeta
            ||| strategy == FilterStrategy::InlineBetaBf
            ||| strategy == FilterStrategy::InlineBetaBfx
        },
        matching is None && path != SearchPath::InlineBeta ==> path == SearchPath::Plain,
{
}

/// The same of the path itself.
pub proof fn law_path_of_a_query(
    strategy: FilterStrategy,
    count: usize,
    threshold: usize,
    other_threshold: usize,
)
    requires
        count >= threshold,
        count >= other_threshold,
    ensures
        path_of(strategy, Some(count), threshold) == path_of(
            strategy,
            Some(count),
            other_threshold,
        ),
        strategy == FilterStrategy::Beta ==> path_of(strategy, Some(count), threshold)
            == SearchPath::Beta,
        strategy == FilterStrategy::Multihop ==> path_of(strategy, Some(count), threshold)
            == SearchPath::Multihop,
{
}

/// The strategies form a chain: those that may scan are inline, those that are inline draw
/// points nearer. Beyond these only `Beta` draws points nearer, and only `InlineBeta` is
/// inline and never scans.
pub proof fn law_strategies_form_a_chain(
    strategy: FilterStrategy,
    inline: bool,
    hybrid: bool,
    scales: bool,
)
    requires
        call_ensures(FilterStrategy::is_inline, (strategy,), inline),
        call_ensures(FilterStrategy::is_hybrid, (strategy,), hybrid),
        call_ensures(FilterStrategy::uses_beta, (strategy,), scales),
    ensures
        hybrid ==> inline,
        inline ==> scales,
        inline && !hybrid <==> strategy == FilterStrategy::InlineBeta,
        scales && !inline <==> strategy == FilterStrategy::Beta,
        !scales <==> strategy == FilterStrategy::NoFilter || strategy == FilterStrategy::Multihop,
{
}

/// A factor is in range exactly where its pattern is above that of zero and at most that of
/// one: neither negative nor no number.
pub proof fn law_factors_in_range(beta: u32)
    ensures
        beta_in_range(beta) <==> 0 < beta <= 0x3f80_0000,
{
}

/// A run is set up exactly where nothing that it needs is missing.
pub proof fn law_when_a_run_is_set_up(
    strategy: FilterStrategy,
    has_data_labels: bool,
    has_query_labels: bool,
    beta: u32,
    threshold: usize,
    has_data_path: bool,
    r: Result<(), SetupError>,
)
    requires
        call_ensures(
            check_setup,
            (strategy, has_data_labels, has_query_labels, beta, threshold, has_data_path),
            r,
        ),
    ensures
        r is Ok <==> {
            &&& strategy == FilterStrategy::NoFilter || (has_data_labels && has_query_labels)
            &&& strategy == FilterStrategy::NoFilter || strategy == FilterStrategy::Multihop || (0
                < beta <= 0x3f80_0000)
            &&& threshold > 0 || !(strategy == FilterStrategy::InlineBetaBf || strategy
                == FilterStrategy::InlineBetaBfx)
            &&& threshold == 0 || has_data_path
        },
{
}

/// What is missing is what the error says, and labels are missed first, then a factor, then a
/// threshold, then the base vectors.
pub proof fn law_what_a_run_misses(
    strategy: FilterStrategy,
    has_data_labels: bool,
    has_query_labels: bool,
    beta: u32,
    threshold: usize,
    has_data_path: bool,
    error: SetupError,
)
    requires
        call_ensures(
            check_setup,
            (strategy, has_data_labels, has_query_labels, beta, threshold, has_data_path),
            Err(error),
        ),
    ensures
        ({
            let labels = strategy != FilterStrategy::NoFilter && !(has_data_labels
                && has_query_labels);
            let factor = (strategy == FilterStrategy::Beta || strategy
                == FilterStrategy::InlineBeta || strategy == FilterStrategy::InlineBetaBf
                || strategy == FilterStrategy::InlineBetaBfx) && !(0 < beta <= 0x3f80_0000);
            let limit = (strategy == FilterStrategy::InlineBetaBf || strategy
                == FilterStrategy::InlineBetaBfx) && threshold == 0;
            &&& error == SetupError::LabelsRequired { strategy } <==> labels
            &&& error == SetupError::BetaOutOfRange <==> !labels && factor
            &&& error == SetupError::ThresholdRequired { strategy } <==> !labels && !factor
                && limit
            &&& error == SetupError::DataPathRequired ==> threshold > 0 && !has_data_path
            &&& error == SetupError::DataPathRequired <==> !labels && !factor && !limit
        }),
{
}

/// The same of the fault itself.
pub proof fn law_no_fault_where_nothing_is_missing(
    strategy: FilterStrategy,
    has_data_labels: bool,
    has_query_labels: bool,
    beta: u32,
    threshold: usize,
    has_data_path: bool,
)
    ensures
        setup_fault(
            strategy,
            has_data_labels,
            has_query_labels,
            beta,
            threshold,
            has_data_path,
        ) is None <==> {
            &&& strategy == FilterStrategy::NoFilter || (has_data_labels && has_query_labels)
            &&& strategy == FilterStrategy::NoFilter || strategy == FilterStrategy::Multihop || (0
                < beta <= 0x3f80_0000)
            &&& threshold > 0 || !(strategy == FilterStrategy::InlineBetaBf || strategy
                == FilterStrategy::InlineBetaBfx)
            &&& threshold == 0 || has_data_path
        },
{
}

/// A run filters with both label files and with neither does not; it cannot be set up with
/// only one, whichever that is.
pub proof fn law_label_files_come_in_pairs(
    has_data_labels: bool,
    has_query_labels: bool,
    r: Result<bool, SetupError>,
)
    requires
        call_ensures(is_filtered, (has_data_labels, has_query_labels), r),
    ensures
        r == Ok::<bool, SetupError>(true) <==> has_data_labels && has_query_labels,
        r == Ok::<bool, SetupError>(false) <==> !has_data_labels && !has_query_labels,
        r is Err ==> r == Err::<bool, SetupError>(SetupError::LabelsNotPaired),
{
}

/// Every kind of run has its name: two runs are reported alike exactly where they have the
/// same strategy and, where it knows of no filter, both filter or neither does.
pub proof fn law_runs_have_names(
    strategy: FilterStrategy,
    filtered: bool,
    other: FilterStrategy,
    other_filtered: bool,
    label: &'static str,
    other_label: &'static str,
)
    requires
        call_ensures(strategy_label, (strategy, filtered), label),
        call_ensures(strategy_label, (other, other_filtered), other_label),
    ensures
        label@ == other_label@ <==> strategy == other && (strategy != FilterStrategy::NoFilter
            || filtered == other_filtered),
        strategy == FilterStrategy::NoFilter ==> label@ == if filtered {
            "post-filter"@
        } else {
            "unfiltered"@
        },
        strategy == FilterStrategy::Beta ==> label@ == "beta-filter"@,
        strategy == FilterStrategy::Multihop ==> label@ == "multihop"@,
        strategy == FilterStrategy::InlineBeta ==> label@ == "inline-beta"@,
        strategy == FilterStrategy::InlineBetaBf ==> label@ == "inline-beta-bf"@,
        strategy == FilterStrategy::InlineBetaBfx ==> label@ == "inline-beta-bfx"@,
{
    reveal_strlit("post-filter");
    reveal_strlit("unfiltered");
    reveal_strlit("beta-filter");
    reveal_strlit("multihop");
    reveal_strlit("inline-beta");
    reveal_strlit("inline-beta-bf");
    reveal_strlit("inline-beta-bfx");
    assert("post-filter"@.len() == 11 && "unfiltered"@.len() == 10 && "beta-filter"@.len() == 11);
    assert("multihop"@.len() == 8 && "inline-beta"@.len() == 11);
    assert("inline-beta-bf"@.len() == 14 && "inline-beta-bfx"@.len() == 15);
    assert("post-filter"@[0] == 'p' && "beta-filter"@[0] == 'b' && "inline-beta"@[0] == 'i');
}

/// A list size below `k` is skipped. No search asks for fewer than `k` or for more than the
/// list holds, and for more than `k` only where results are filtered afterwards: then for all.
pub proof fn law_how_much_is_asked_for(
    strategy: FilterStrategy,
    filtered: bool,
    l_search: usize,
    k: usize,
    width: Option<usize>,
)
    requires
        call_ensures(search_width, (strategy, filtered, l_search, k), width),
    ensures
        width is None <==> l_search < k,
        width matches Some(n) ==> {
            &&& k <= n <= l_search
            &&& strategy == FilterStrategy::NoFilter && filtered ==> n == l_search
            &&& strategy != FilterStrategy::NoFilter || !filtered ==> n == k
        },
{
}

/// The number of filters below a threshold and the sum of the numbers of matches are those of
/// the parts of a list together; a list of one number has that number as its sum.
pub proof fn law_counts_add_up(a: Seq<usize>, b: Seq<usize>, x: usize, threshold: usize)
    ensures
        sum_of(a + b) == sum_of(a) + sum_of(b),
        below(a + b, threshold) == below(a, threshold) + below(b, threshold),
        sum_of(Seq::<usize>::empty()) == 0,
        below(Seq::<usize>::empty(), threshold) == 0,
        sum_of(seq![x]) == x,
        below(seq![x], threshold) == if x < threshold {
            1int
        } else {
            0int
        },
    decreases b.len(),
{
    reveal_with_fuel(sum_of, 2);
    reveal_with_fuel(below, 2);
    assert(seq![x].drop_last() =~= Seq::<usize>::empty());
    if b.len() == 0 {
        assert(a + b =~= a);
    } else {
        law_counts_add_up(a, b.drop_last(), x, threshold);
        assert((a + b).drop_last() =~= a + b.drop_last());
    }
}

/// What is reported of filters: the numbers of matches added up, the least and the greatest of
/// them, and how many of them are below the threshold.
pub proof fn law_filter_stats(
    counts: &Vec<usize>,
    more: &Vec<usize>,
    both: &Vec<usize>,
    threshold: usize,
    stats: FilterStats,
    more_stats: FilterStats,
    both_stats: FilterStats,
)
    requires
        call_ensures(filter_stats, (counts, threshold), stats),
        call_ensures(filter_stats, (more, threshold), more_stats),
        call_ensures(filter_stats, (both, threshold), both_stats),
        both@ == counts@ + more@,
    ensures
        both_stats.total == stats.total + more_stats.total,
        both_stats.brute_forced == stats.brute_forced + more_stats.brute_forced,
        counts@.len() == 0 ==> stats.total == 0 && stats.min == 0 && stats.max == 0
            && stats.brute_forced == 0,
        counts@.len() == 1 ==> {
            &&& stats.total == counts@[0]
            &&& stats.min == counts@[0]
            &&& stats.max == counts@[0]
            &&& stats.brute_forced == if counts@[0] < threshold {
                1int
            } else {
                0int
            }
        },
        counts@.len() > 0 ==> {
            &&& counts@.contains(stats.min)
            &&& counts@.contains(stats.max)
        },
        forall|i: int| 0 <= i < counts@.len() ==> stats.min <= #[trigger] counts@[i] <= stats.max,
        stats.brute_forced == counts@.filter(|count: usize| count < threshold).len(),
{
    law_counts_add_up(counts@, more@, 0, threshold);
    if counts@.len() == 1 {
        law_counts_add_up(Seq::empty(), Seq::empty(), counts@[0], threshold);
        assert(counts@ =~= seq![counts@[0]]);
    }
    lemma_below(counts@, threshold);
}

proof fn lemma_below(counts: Seq<usize>, threshold: usize)
    ensures
        below(counts, threshold) == counts.filter(|count: usize| count < threshold).len(),
    decreases counts.len(),
{
    let keep = |count: usize| count < threshold;
    reveal(Seq::filter);
    if counts.len() > 0 {
        lemma_below(counts.drop_last(), threshold);
        assert(counts.drop_last().push(counts.last()) =~= counts);
        counts.drop_last().lemma_filter_push(counts.last(), keep);
    }
}

/// A buffer has the width that is asked for, what was found in front as far as it fits, and
/// zeros behind.
pub proof fn law_padding(found: &Vec<u32>, width: usize, ids: Vec<u32>)
    requires
        call_ensures(pad_ids, (found, width), ids),
    ensures
        ids@.len() == width,
        found@.len() <= width ==> ids@.take(found@.len() as int) == found@,
        found@.len() > width ==> ids@ == found@.take(width as int),
        forall|i: int| found@.len() <= i < width ==> #[trigger] ids@[i] == 0,
{
    if found@.len() <= width {
        assert(ids@.take(found@.len() as int) =~= found@);
    } else {
        assert(ids@ =~= found@.take(width as int));
    }
}

/// The same of the buffer itself.
pub proof fn law_padded_buffer(found: Seq<u32>, width: nat)
    ensures
        padded(found, width as int).len() == width,
        forall|i: int|
            0 <= i < width ==> #[trigger] padded(found, width as int)[i] == if i < found.len() {
                found[i]
            } else {
                0
            },
{
}

/// Which ids match is decided for each on its own, and the order stays.
pub proof fn law_matching_is_decided_one_by_one(
    a: Seq<u32>,
    b: Seq<u32>,
    x: u32,
    filter: Set<usize>,
)
    ensures
        matching_ids(a + b, filter) == matching_ids(a, filter) + matching_ids(b, filter),
        matching_ids(Seq::<u32>::empty(), filter) == Seq::<u32>::empty(),
        matching_ids(seq![x], filter) == if filter.contains(x as usize) {
            seq![x]
        } else {
            Seq::<u32>::empty()
        },
{
    let keep = |id: u32| filter.contains(id as usize);
    Seq::filter_distributes_over_add(a, b, keep);
    reveal(Seq::filter);
    reveal_with_fuel(Seq::filter, 2);
    let none = Seq::<u32>::empty();
    assert(none.push(x) =~= seq![x]);
    none.lemma_filter_push(x, keep);
    assert(none.filter(keep) =~= none);
}

/// A row keeps its length. It begins with what is kept of the ids, all of them without a
/// filter and those that match with one, as far as they fit; behind them it is as it was.
pub proof fn law_recorded_row(row: Seq<u32>, ids: Seq<u32>, filter: Set<usize>)
    ensures
        ({
            let kept = ids.filter(|id: u32| filter.contains(id as usize));
            let after = recorded(row, ids, Some(filter));
            &&& after.len() == row.len()
            &&& forall|i: int| 0 <= i < row.len() && i < kept.len() ==> #[trigger] after[i] == kept[i]
            &&& forall|i: int| kept.len() <= i < row.len() ==> #[trigger] after[i] == row[i]
        }),
        ({
            let after = recorded(row, ids, None);
            &&& after.len() == row.len()
            &&& forall|i: int| 0 <= i < row.len() && i < ids.len() ==> #[trigger] after[i] == ids[i]
            &&& forall|i: int| ids.len() <= i < row.len() ==> #[trigger] after[i] == row[i]
        }),
{
}

/// A run starts with a row of zeros for each query and nothing brute-forced.
pub proof fn law_a_run_starts_with_zeros(num_queries: usize, k: usize, pass: SearchPass)
    requires
        call_ensures(SearchPass::new, (num_queries, k), pass),
    ensures
        pass@.rows.len() == num_queries,
        forall|q: int|
            0 <= q < num_queries ==> {
                &&& (#[trigger] pass@.rows[q]).len() == k
                &&& forall|i: int| 0 <= i < k ==> #[trigger] pass@.rows[q][i] == 0
            },
        pass@.brute_forced == 0,
{
}

/// The first repetition puts what is kept of the ids into the row of its query and touches no
/// other; it is counted as brute-forced exactly where it was. Later ones change nothing.
pub proof fn law_recording(
    pass: &mut SearchPass,
    repetition: usize,
    q: usize,
    path: SearchPath,
    ids: &Vec<u32>,
    filter: Option<&BitSet>,
)
    requires
        call_ensures(SearchPass::record, (pass, repetition, q, path, ids, filter), ()),
        q < pass@.rows.len(),
    ensures
        repetition > 0 ==> final(pass)@ == old(pass)@,
        final(pass)@.rows.len() == old(pass)@.rows.len(),
        forall|p: int|
            0 <= p < old(pass)@.rows.len() && p != q ==> #[trigger] final(pass)@.rows[p]
                == old(pass)@.rows[p],
        repetition == 0 ==> final(pass)@.brute_forced == old(pass)@.brute_forced + if path
            == SearchPath::BruteForce {
            1int
        } else {
            0int
        },
        repetition == 0 ==> ({
            let before = old(pass)@.rows[q as int];
            let after = final(pass)@.rows[q as int];
            let kept = match filter {
                Some(bitmap) => ids@.filter(|id: u32| members(*bitmap).contains(id as usize)),
                None => ids@,
            };
            &&& after.len() == before.len()
            &&& forall|i: int|
                0 <= i < before.len() ==> #[trigger] after[i] == if i < kept.len() {
                    kept[i]
                } else {
                    before[i]
                }
        }),
{
}

/// The rows lie one behind the other.
pub proof fn law_rows_lie_in_order(pass: &SearchPass, ids: &Vec<u32>, q: int, i: int)
    requires
        call_ensures(SearchPass::ids, (pass,), ids),
        0 <= q < pass@.rows.len(),
        0 <= i < pass.places(),
        (q + 1) * pass.places() <= ids@.len(),
    ensures
        ids@.len() == pass@.rows.len() * pass.places(),
        pass@.rows[q].len() == pass.places(),
        ids@[q * pass.places() + i] == pass@.rows[q][i],
{
    let k = pass.places();
    assert(q * k >= 0 && q * k + k == (q + 1) * k) by (nonlinear_arith)
        requires
            q >= 0,
            k > 0,
    ;
    assert(pass@.rows[q] == ids@.subrange(q * k, q * k + k));
}

/// A bitmap provider matches exactly the points of its bitmap.
pub proof fn law_provider_asks_its_bitmap(
    bitmap: BitSet,
    provider: BitmapLabelProvider,
    id: u32,
    r: bool,
)
    requires
        call_ensures(BitmapLabelProvider::new, (bitmap,), provider),
        call_ensures(BitmapLabelProvider::is_match, (&provider, id), r),
    ensures
        r <==> members(bitmap).contains(id as usize),
{
}

/// A build has the threads that are asked for; where none are, those of the machine.
pub proof fn law_threads_of_a_build(requested: usize, processors: usize, n: usize, here: usize)
    requires
        call_ensures(resolve_threads, (requested, processors), n),
        call_ensures(build_threads, (requested,), here),
    ensures
        requested > 0 ==> n == requested && here == requested,
        requested == 0 ==> n == processors,
        here > 0,
{
}

/// A build tells its progress after every ten thousand vectors and after the last.
pub proof fn law_progress_of_a_build(inserted: usize, total: usize, steps: nat, r: bool)
    requires
        call_ensures(reports_progress, (inserted, total), r),
    ensures
        inserted == total ==> r,
        inserted == 10_000 * steps ==> r,
        10_000 * steps < inserted < 10_000 * (steps + 1) && inserted != total ==> !r,
{
}

/// Progress in reading labels is told after every two hundred thousand lines.
pub proof fn law_progress_of_labels(read: usize, steps: nat, r: bool)
    requires
        call_ensures(reports_labels, (read,), r),
    ensures
        read == 200_000 * steps ==> r,
        200_000 * steps < read < 200_000 * (steps + 1) ==> !r,
{
}

} // verus!
