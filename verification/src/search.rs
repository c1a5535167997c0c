//! How a search run is set up, how each query is routed, and what is kept of its results.
use bit_set::BitSet;
use vstd::prelude::*;

use crate::bits::{has_bit, members};
use crate::distance::{distance_rank, is_nan, rank};
use crate::recall::row_of;

verus! {

/// The bit pattern of the number one.
pub const ONE: u32 = 0x3f80_0000;

/// Which filter strategy a search uses.
#[derive(Debug, Clone, Copy, PartialEq, Eq, Structural)]
pub enum FilterStrategy {
    /// The search knows of no filter; what does not match is discarded afterwards.
    NoFilter,
    /// Matching points are drawn nearer by a factor. What does not match can still be
    /// found.
    Beta,
    /// The search expands through points that do not match. Only matching points are found.
    Multihop,
    /// As `Beta`, with the filter evaluated on the labels of each point that is visited.
    InlineBeta,
    /// As `InlineBeta`, but a query with a rare clause is answered by a scan instead.
    InlineBetaBf,
    /// As `InlineBetaBf`, and graph search is augmented by a scan for rare labels.
    InlineBetaBfx,
}

impl FilterStrategy {
    /// The filter is evaluated on labels during the search, not by a bitmap beforehand.
    pub open spec fn inline(self) -> bool {
        self == FilterStrategy::InlineBeta || self.hybrid()
    }

    /// Queries may be answered by scans of posting lists.
    pub open spec fn hybrid(self) -> bool {
        self == FilterStrategy::InlineBetaBf || self == FilterStrategy::InlineBetaBfx
    }

    /// Matching points are drawn nearer by a factor.
    pub open spec fn scales(self) -> bool {
        self == FilterStrategy::Beta || self.inline()
    }

    /// Whether the filter is evaluated on labels during the search.
    pub fn is_inline(self) -> (r: bool)
        ensures
            r == self.inline(),
    {
        self == FilterStrategy::InlineBeta || self.is_hybrid()
    }

    /// Whether queries may be answered by scans of posting lists.
    pub fn is_hybrid(self) -> (r: bool)
        ensures
            r == self.hybrid(),
    {
        self == FilterStrategy::InlineBetaBf || self == FilterStrategy::InlineBetaBfx
    }

    /// Whether matching points are drawn nearer by a factor.
    pub fn uses_beta(self) -> (r: bool)
        ensures
            r == self.scales(),
    {
        self == FilterStrategy::Beta || self.is_inline()
    }
}

/// Why a search run cannot be set up.
#[derive(Debug, Clone, Copy, PartialEq, Eq, Structural)]
pub enum SetupError {
    /// The strategy needs the labels of both the points and the queries.
    LabelsRequired { strategy: FilterStrategy },
    /// The factor is not above zero and at most one.
    BetaOutOfRange,
    /// The strategy needs a threshold above zero for its scans.
    ThresholdRequired { strategy: FilterStrategy },
    /// Brute-force search needs the base vectors.
    DataPathRequired,
    /// Only one of the two label files is given.
    LabelsNotPaired,
}

/// How one query is answered.
#[derive(Debug, Clone, Copy, PartialEq, Eq, Structural)]
pub enum SearchPath {
    /// A scan of the matching points.
    BruteForce,
    /// Graph search with matching points drawn nearer.
    Beta,
    /// Graph search that expands through points that do not match.
    Multihop,
    /// Graph search with points drawn nearer whose labels match.
    InlineBeta,
    /// Graph search without regard to a filter.
    Plain,
}

/// What is reported of the filters of a run: over all queries the number of matching
/// points in total, the least and the greatest, and how many queries are brute-forced.
#[derive(Debug, Clone, Copy, PartialEq, Eq, Structural)]
pub struct FilterStats {
    pub total: u128,
    pub min: usize,
    pub max: usize,
    pub brute_forced: usize,
}

/// A factor, given by its bit pattern, is above zero and at most one.
pub open spec fn beta_in_range(beta: u32) -> bool {
    !is_nan(beta) && 0 < rank(beta) <= rank(ONE)
}

/// What is wrong with the arguments of a run, if anything.
pub open spec fn setup_fault(
    strategy: FilterStrategy,
    has_data_labels: bool,
    has_query_labels: bool,
    beta: u32,
    threshold: usize,
    has_data_path: bool,
) -> Option<SetupError> {
    if strategy != FilterStrategy::NoFilter && !(has_data_labels && has_query_labels) {
        Some(SetupError::LabelsRequired { strategy })
    } else if strategy.scales() && !beta_in_range(beta) {
        Some(SetupError::BetaOutOfRange)
    } else if strategy.hybrid() && threshold == 0 {
        Some(SetupError::ThresholdRequired { strategy })
    } else if threshold > 0 && !has_data_path {
        Some(SetupError::DataPathRequired)
    } else {
        None
    }
}

/// Checks the arguments of a run.
pub fn check_setup(
    strategy: FilterStrategy,
    has_data_labels: bool,
    has_query_labels: bool,
    beta: u32,
    threshold: usize,
    has_data_path: bool,
) -> (r: Result<(), SetupError>)
    ensures
        match r {
            Ok(_) => setup_fault(
                strategy,
                has_data_labels,
                has_query_labels,
                beta,
                threshold,
                has_data_path,
            ) is None,
            Err(error) => setup_fault(
                strategy,
                has_data_labels,
                has_query_labels,
                beta,
                threshold,
                has_data_path,
            ) == Some(error),
        },
{
    if strategy != FilterStrategy::NoFilter && !(has_data_labels && has_query_labels) {
        return Err(SetupError::LabelsRequired { strategy });
    }
    let beta_rank: i64 = distance_rank(beta);
    let one: i64 = distance_rank(ONE);
    if strategy.uses_beta() && !(0 < beta_rank && beta_rank <= one) {
        return Err(SetupError::BetaOutOfRange);
    }
    if strategy.is_hybrid() && threshold == 0 {
        return Err(SetupError::ThresholdRequired { strategy });
    }
    if threshold > 0 && !has_data_path {
        return Err(SetupError::DataPathRequired);
    }
    Ok(())
}

/// Whether a run filters: it does with both label files, does not with none, and cannot
/// be set up with one.
pub fn is_filtered(has_data_labels: bool, has_query_labels: bool) -> (r: Result<bool, SetupError>)
    ensures
        r == if has_data_labels != has_query_labels {
            Err::<bool, SetupError>(SetupError::LabelsNotPaired)
        } else {
            Ok::<bool, SetupError>(has_data_labels)
        },
{
    if has_data_labels != has_query_labels {
        Err(SetupError::LabelsNotPaired)
    } else {
        Ok(has_data_labels)
    }
}

/// The name under which a run is reported.
pub fn strategy_label(strategy: FilterStrategy, filtered: bool) -> (label: &'static str)
    ensures
        label@ == match strategy {
            FilterStrategy::NoFilter => if filtered {
                "post-filter"@
            } else {
                "unfiltered"@
            },
            FilterStrategy::Beta => "beta-filter"@,
            FilterStrategy::Multihop => "multihop"@,
            FilterStrategy::InlineBeta => "inline-beta"@,
            FilterStrategy::InlineBetaBf => "inline-beta-bf"@,
            FilterStrategy::InlineBetaBfx => "inline-beta-bfx"@,
        },
{
    match strategy {
        FilterStrategy::NoFilter => if filtered {
            "post-filter"
        } else {
            "unfiltered"
        },
        FilterStrategy::Beta => "beta-filter",
        FilterStrategy::Multihop => "multihop",
        FilterStrategy::InlineBeta => "inline-beta",
        FilterStrategy::InlineBetaBf => "inline-beta-bf",
        FilterStrategy::InlineBetaBfx => "inline-beta-bfx",
    }
}

/// The sum of the counts.
pub open spec fn sum_of(counts: Seq<usize>) -> int
    decreases counts.len(),
{
    if counts.len() == 0 {
        0
    } else {
        sum_of(counts.drop_last()) + counts.last()
    }
}

/// How many of the counts are below the threshold.
pub open spec fn below(counts: Seq<usize>, threshold: usize) -> int
    decreases counts.len(),
{
    if counts.len() == 0 {
        0
    } else {
        below(counts.drop_last(), threshold) + if counts.last() < threshold {
            1int
        } else {
            0int
        }
    }
}

/// Sums up the numbers of matching points. Without queries each number is 0.
pub fn filter_stats(counts: &Vec<usize>, threshold: usize) -> (stats: FilterStats)
    ensures
        stats.total == sum_of(counts@),
        stats.brute_forced == below(counts@, threshold),
        counts@.len() == 0 ==> stats.min == 0 && stats.max == 0,
        counts@.len() > 0 ==> counts@.contains(stats.min) && counts@.contains(stats.max),
        forall|i: int| 0 <= i < counts@.len() ==> stats.min <= #[trigger] counts@[i] <= stats.max,
{
    let n: usize = counts.len();
    let mut total: u128 = 0;
    let mut min: usize = 0;
    let mut max: usize = 0;
    let mut brute_forced: usize = 0;
    for i in 0..n
        invariant
            n == counts@.len(),
            total == sum_of(counts@.take(i as int)),
            total <= i * usize::MAX,
            brute_forced == below(counts@.take(i as int), threshold),
            brute_forced <= i,
            i == 0 ==> min == 0 && max == 0,
            i > 0 ==> counts@.contains(min) && counts@.contains(max),
            forall|j: int| 0 <= j < i ==> min <= #[trigger] counts@[j] <= max,
    {
        let count: usize = counts[i];
        proof {
            assert(counts@.take(i + 1).drop_last() =~= counts@.take(i as int));
            assert(counts@.contains(count));
            assert((i + 1) * usize::MAX == i * usize::MAX + usize::MAX) by (nonlinear_arith);
            assert((i + 1) * usize::MAX <= u128::MAX) by (nonlinear_arith)
                requires
                    0 <= i < usize::MAX <= 0xffff_ffff_ffff_ffff,
            ;
        }
        total = total + count as u128;
        if i == 0 || count < min {
            min = count;
        }
        if i == 0 || count > max {
            max = count;
        }
        if count < threshold {
            brute_forced = brute_forced + 1;
        }
    }
    assert(counts@.take(n as int) =~= counts@);
    FilterStats { total, min, max, brute_forced }
}

/// How many candidates each search of a run asks for. A list size below `k` is skipped.
/// Where results are filtered afterwards the whole list is asked for, so that more is left.
pub fn search_width(
    strategy: FilterStrategy,
    filtered: bool,
    l_search: usize,
    k: usize,
) -> (width: Option<usize>)
    ensures
        width == if l_search < k {
            None::<usize>
        } else if strategy == FilterStrategy::NoFilter && filtered {
            Some(l_search)
        } else {
            Some(k)
        },
{
    if l_search < k {
        None
    } else if strategy == FilterStrategy::NoFilter && filtered {
        Some(l_search)
    } else {
        Some(k)
    }
}

/// How a query is answered. A filter is given by the number of points that match it; one
/// that fewer points match than the threshold is brute-forced, whatever the strategy. An
/// inline strategy counts no matching points, and goes by its posting lists instead.
pub open spec fn path_of(
    strategy: FilterStrategy,
    matching: Option<usize>,
    threshold: usize,
) -> SearchPath {
    match matching {
        _ if strategy.inline() => SearchPath::InlineBeta,
        Some(count) if threshold > 0 && count < threshold => SearchPath::BruteForce,
        Some(_) if strategy == FilterStrategy::Beta => SearchPath::Beta,
        Some(_) if strategy == FilterStrategy::Multihop => SearchPath::Multihop,
        _ => SearchPath::Plain,
    }
}

/// Decides how a query is answered.
pub fn route_query(
    strategy: FilterStrategy,
    matching: Option<usize>,
    threshold: usize,
) -> (path: SearchPath)
    ensures
        path == path_of(strategy, matching, threshold),
{
    if strategy.is_inline() {
        return SearchPath::InlineBeta;
    }
    match matching {
        Some(count) => if threshold > 0 && count < threshold {
            SearchPath::BruteForce
        } else {
            match strategy {
                FilterStrategy::Beta => SearchPath::Beta,
                FilterStrategy::Multihop => SearchPath::Multihop,
                _ => SearchPath::Plain,
            }
        },
        None => SearchPath::Plain,
    }
}

/// The entries of a buffer of results: what was found, then zeros.
pub open spec fn padded(found: Seq<u32>, width: int) -> Seq<u32> {
    Seq::new(
        width as nat,
        |i: int|
            if i < found.len() {
                found[i]
            } else {
                0
            },
    )
}

/// Puts what brute-force search found into a buffer of results.
pub fn pad_ids(found: &Vec<u32>, width: usize) -> (ids: Vec<u32>)
    ensures
        ids@ == padded(found@, width as int),
{
    let mut ids: Vec<u32> = Vec::new();
    for i in 0..width
        invariant
            ids@ == padded(found@, i as int),
    {
        ids.push(if i < found.len() { found[i] } else { 0 });
        assert(ids@ =~= padded(found@, i + 1));
    }
    ids
}

/// The ids that match a filter, in their order.
pub open spec fn matching_ids(ids: Seq<u32>, filter: Set<usize>) -> Seq<u32> {
    ids.filter(|id: u32| filter.contains(id as usize))
}

/// What a row becomes when the ids of a search are recorded in it. Without a filter it is
/// the first ids; with one it is the first ids that match, and where there are fewer than
/// the row has places the other places stay as they were.
pub open spec fn recorded(row: Seq<u32>, ids: Seq<u32>, filter: Option<Set<usize>>) -> Seq<u32> {
    let kept = match filter {
        Some(filter) => matching_ids(ids, filter),
        None => ids,
    };
    Seq::new(
        row.len(),
        |i: int|
            if i < kept.len() {
                kept[i]
            } else {
                row[i]
            },
    )
}

/// The bitmap of a query as a set.
pub open spec fn filter_set(filter: Option<&BitSet>) -> Option<Set<usize>> {
    match filter {
        Some(bitmap) => Some(members(*bitmap)),
        None => None,
    }
}

/// What a run with one list size has found so far: a row of ids for each query, and how
/// many queries were brute-forced.
#[verifier::ext_equal]
pub struct PassView {
    pub rows: Seq<Seq<u32>>,
    pub brute_forced: int,
}

impl PassView {
    /// Nothing found yet: every row is zeros.
    pub open spec fn empty(num_queries: nat, k: nat) -> PassView {
        PassView {
            rows: Seq::new(num_queries, |q: int| Seq::new(k, |i: int| 0u32)),
            brute_forced: 0,
        }
    }

    /// After the ids of query `q` came in. Only the first repetition counts.
    pub open spec fn record(
        self,
        repetition: int,
        q: int,
        path: SearchPath,
        ids: Seq<u32>,
        filter: Option<Set<usize>>,
    ) -> PassView {
        if repetition == 0 {
            PassView {
                rows: self.rows.update(q, recorded(self.rows[q], ids, filter)),
                brute_forced: self.brute_forced + if path == SearchPath::BruteForce {
                    1int
                } else {
                    0int
                },
            }
        } else {
            self
        }
    }
}

/// A run with one list size.
pub struct SearchPass {
    num_queries: usize,
    k: usize,
    /// The rows, one behind the other.
    ids: Vec<u32>,
    brute_forced: usize,
}

impl View for SearchPass {
    type V = PassView;

    closed spec fn view(&self) -> PassView {
        PassView {
            rows: Seq::new(
                self.num_queries as nat,
                |q: int| row_of(self.ids@, q, self.k as int),
            ),
            brute_forced: self.brute_forced as int,
        }
    }
}

impl SearchPass {
    pub closed spec fn wf(&self) -> bool {
        self.ids@.len() == self.num_queries * self.k
    }

    /// The number of places of each row.
    pub closed spec fn places(&self) -> int {
        self.k as int
    }

    pub fn new(num_queries: usize, k: usize) -> (pass: Self)
        requires
            num_queries * k <= usize::MAX,
        ensures
            pass.wf(),
            pass.places() == k,
            pass@ == PassView::empty(num_queries as nat, k as nat),
    {
        let n: usize = num_queries * k;
        let mut ids: Vec<u32> = Vec::new();
        for i in 0..n
            invariant
                ids@.len() == i,
                forall|j: int| 0 <= j < i ==> ids@[j] == 0,
        {
            ids.push(0);
        }
        let pass = SearchPass { num_queries, k, ids, brute_forced: 0 };
        proof {
            let empty = PassView::empty(num_queries as nat, k as nat);
            assert forall|q: int| 0 <= q < num_queries implies #[trigger] pass@.rows[q]
                == empty.rows[q] by {
                lemma_row_inside(q, num_queries as int, k as int);
                assert(pass@.rows[q] =~= empty.rows[q]);
            }
            assert(pass@.rows =~= empty.rows);
        }
        pass
    }

    /// The rows one behind the other.
    pub fn ids(&self) -> (ids: &Vec<u32>)
        requires
            self.wf(),
        ensures
            ids@.len() == self@.rows.len() * self.places(),
            forall|q: int|
                0 <= q < self@.rows.len() ==> row_of(ids@, q, self.places())
                    == #[trigger] self@.rows[q],
    {
        &self.ids
    }

    /// How many queries were brute-forced.
    pub fn brute_forced(&self) -> (n: usize)
        ensures
            n == self@.brute_forced,
    {
        self.brute_forced
    }

    /// Takes in the ids that the search of query `q` gave.
    pub fn record(
        &mut self,
        repetition: usize,
        q: usize,
        path: SearchPath,
        ids: &Vec<u32>,
        filter: Option<&BitSet>,
    )
        requires
            old(self).wf(),
            q < old(self)@.rows.len(),
            old(self)@.brute_forced < usize::MAX,
            filter is None ==> ids@.len() >= old(self).places(),
            filter matches Some(bitmap) ==> old(self).places() > 0 || matching_ids(
                ids@,
                members(*bitmap),
            ).len() == 0,
        ensures
            final(self).wf(),
            final(self).places() == old(self).places(),
            final(self)@ == old(self)@.record(
                repetition as int,
                q as int,
                path,
                ids@,
                filter_set(filter),
            ),
    {
        if repetition > 0 {
            return;
        }
        let ghost before = self.ids@;
        let ghost old_row = row_of(before, q as int, self.k as int);
        let k: usize = self.k;
        assert(self.ids.len() == before.len());
        proof {
            lemma_row_inside(q as int, self.num_queries as int, k as int);
        }
        let start: usize = q * k;
        match filter {
            Some(bitmap) => {
                keep_matching(&mut self.ids, start, k, ids, bitmap);
            },
            None => {
                for i in 0..k
                    invariant
                        k <= ids@.len(),
                        start + k <= before.len() <= usize::MAX,
                        self.k == k,
                        self.ids@.len() == before.len(),
                        self.num_queries == old(self).num_queries,
                        self.brute_forced == old(self).brute_forced,
                        forall|j: int|
                            0 <= j < before.len() ==> #[trigger] self.ids@[j] == if start <= j
                                < start + i {
                                ids@[j - start]
                            } else {
                                before[j]
                            },
                {
                    self.ids.set(start + i, ids[i]);
                }
            },
        }
        if path == SearchPath::BruteForce {
            self.brute_forced = self.brute_forced + 1;
        }
        proof {
            let expected = old(self)@.record(0, q as int, path, ids@, filter_set(filter));
            assert(row_of(self.ids@, q as int, k as int) =~= recorded(
                old_row,
                ids@,
                filter_set(filter),
            ));
            assert forall|p: int| 0 <= p < self.num_queries implies #[trigger] self@.rows[p]
                == expected.rows[p] by {
                lemma_row_inside(p, self.num_queries as int, k as int);
                if p != q {
                    lemma_rows_apart(p, q as int, k as int);
                    assert(self@.rows[p] =~= row_of(before, p, k as int));
                }
            }
            assert(self@.rows =~= expected.rows);
        }
    }
}

/// Writes the first ids that match into `k` places from `start` on.
fn keep_matching(table: &mut Vec<u32>, start: usize, k: usize, ids: &Vec<u32>, bitmap: &BitSet)
    requires
        start + k <= old(table)@.len(),
    ensures
        final(table)@.len() == old(table)@.len(),
        ({
            let kept = matching_ids(ids@, members(*bitmap));
            forall|j: int|
                0 <= j < old(table)@.len() ==> #[trigger] final(table)@[j] == if start <= j < start
                    + k && j - start < kept.len() {
                    kept[j - start]
                } else {
                    old(table)@[j]
                }
        }),
{
    let ghost before = table@;
    assert(table.len() == before.len());
    let ghost keep = |id: u32| members(*bitmap).contains(id as usize);
    let n: usize = ids.len();
    let mut written: usize = 0;
    let mut i: usize = 0;
    while i < n && written < k
        invariant
            i <= n,
            n == ids@.len(),
            written <= k,
            start + k <= before.len(),
            before.len() <= usize::MAX,
            table@.len() == before.len(),
            keep == (|id: u32| members(*bitmap).contains(id as usize)),
            written == ids@.take(i as int).filter(keep).len(),
            forall|j: int|
                0 <= j < before.len() ==> #[trigger] table@[j] == if start <= j < start + written {
                    ids@.take(i as int).filter(keep)[j - start]
                } else {
                    before[j]
                },
        decreases n - i,
    {
        let id: u32 = ids[i];
        proof {
            let earlier = ids@.take(i as int);
            assert(ids@.take(i + 1) =~= earlier.push(id));
            earlier.lemma_filter_push(id, keep);
        }
        if has_bit(bitmap, id as usize) {
            table.set(start + written, id);
            written = written + 1;
        }
        i = i + 1;
    }
    proof {
        lemma_filter_prefix(ids@, i as int, keep);
        assert(ids@.take(n as int) =~= ids@);
    }
}

/// Filtering the head of a list gives the head of the filtered list.
proof fn lemma_filter_prefix(ids: Seq<u32>, n: int, keep: spec_fn(u32) -> bool)
    requires
        0 <= n <= ids.len(),
    ensures
        ids.take(n).filter(keep).len() <= ids.filter(keep).len(),
        forall|j: int|
            0 <= j < ids.take(n).filter(keep).len() ==> ids.take(n).filter(keep)[j] == ids.filter(
                keep,
            )[j],
    decreases ids.len() - n,
{
    if n == ids.len() {
        assert(ids.take(n) =~= ids);
    } else {
        assert(ids.take(n + 1) =~= ids.take(n).push(ids[n]));
        ids.take(n).lemma_filter_push(ids[n], keep);
        lemma_filter_prefix(ids, n + 1, keep);
    }
}

/// A row lies inside its table.
proof fn lemma_row_inside(q: int, rows: int, k: int)
    requires
        0 <= q < rows,
        0 <= k,
    ensures
        0 <= q * k,
        q * k + k <= rows * k,
{
    assert(0 <= q * k && q * k + k <= rows * k) by (nonlinear_arith)
        requires
            0 <= q < rows,
            0 <= k,
    ;
}

/// Two rows do not overlap.
proof fn lemma_rows_apart(p: int, q: int, k: int)
    requires
        p != q,
        0 <= k,
    ensures
        p * k + k <= q * k || q * k + k <= p * k,
{
    assert(p * k + k <= q * k || q * k + k <= p * k) by (nonlinear_arith)
        requires
            p != q,
            0 <= k,
    ;
}

/// A filter for graph search that asks a bitmap.
#[derive(Debug)]
pub struct BitmapLabelProvider {
    bitmap: BitSet,
}

impl BitmapLabelProvider {
    /// The points that match.
    pub closed spec fn points(&self) -> Set<usize> {
        members(self.bitmap)
    }

    pub fn new(bitmap: BitSet) -> (provider: Self)
        ensures
            provider.points() == members(bitmap),
    {
        BitmapLabelProvider { bitmap }
    }

    /// Whether a point matches.
    pub fn is_match(&self, vec_id: u32) -> (r: bool)
        ensures
            r == self.points().contains(vec_id as usize),
    {
        has_bit(&self.bitmap, vec_id as usize)
    }
}

} // verus!
