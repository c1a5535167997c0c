//! Routing of filtered queries by the posting lists of their labels.
//!
//! A filter that is a conjunction of disjunctions of labels is answered from the posting
//! lists where one of its clauses is rare enough; any other goes to graph search.
use roaring::RoaringTreemap;
use vstd::prelude::*;

use crate::filter_expr::{ASTIdExpr, EncodedFilterExpr};
use crate::knn::{ids_of_points, nearest, select_nearest, Neighbor};
use crate::recall::NO_NEIGHBOUR;
use crate::search::FilterStrategy;
use crate::store::RoaringAttributeStore;
use crate::store_model::StoreView;
use crate::treemap::{ids_of, list_ids};

verus! {

/// The labels of a disjunction of labels, with nested disjunctions flattened.
pub open spec fn literals(expr: ASTIdExpr) -> Option<Seq<u64>>
    decreases expr,
{
    match expr {
        ASTIdExpr::Terminal(label) => Some(seq![label]),
        ASTIdExpr::Or(subs) => literals_of_all(subs@),
        _ => None,
    }
}

/// The labels of several disjunctions, one behind the other.
pub open spec fn literals_of_all(subs: Seq<ASTIdExpr>) -> Option<Seq<u64>>
    decreases subs,
{
    if subs.len() == 0 {
        Some(Seq::empty())
    } else {
        match (literals_of_all(subs.drop_last()), literals(subs.last())) {
            (Some(before), Some(labels)) => Some(before + labels),
            _ => None,
        }
    }
}

/// The clauses of a conjunction of disjunctions of labels. A disjunction and a single
/// label are conjunctions of one clause; any other shape has no clauses.
pub open spec fn clauses(expr: ASTIdExpr) -> Option<Seq<Seq<u64>>> {
    match expr {
        ASTIdExpr::And(subs) => if forall|i: int|
            0 <= i < subs@.len() ==> literals(#[trigger] subs@[i]) is Some {
            Some(Seq::new(subs@.len(), |i: int| literals(subs@[i])->0))
        } else {
            None
        },
        _ => match literals(expr) {
            Some(labels) => Some(seq![labels]),
            None => None,
        },
    }
}

/// A list of label lists.
pub open spec fn label_lists(lists: Seq<Vec<u64>>) -> Seq<Seq<u64>> {
    lists.map_values(|list: Vec<u64>| list@)
}

/// The sum of the lengths of the posting lists of some labels.
pub open spec fn literal_sum(store: StoreView, labels: Seq<u64>) -> nat
    decreases labels.len(),
{
    if labels.len() == 0 {
        0
    } else {
        literal_sum(store, labels.drop_last()) + store.inverse[labels.last()].len()
    }
}

/// The first clause with the least sum, of the first `n`.
pub open spec fn cheapest(store: StoreView, list: Seq<Seq<u64>>, n: int) -> int
    decreases n,
{
    if n <= 1 {
        0
    } else {
        let before = cheapest(store, list, n - 1);
        if literal_sum(store, list[n - 1]) < literal_sum(store, list[before]) {
            n - 1
        } else {
            before
        }
    }
}

/// All labels of all clauses, one behind the other.
pub open spec fn flattened(list: Seq<Seq<u64>>) -> Seq<u64>
    decreases list.len(),
{
    if list.len() == 0 {
        Seq::empty()
    } else {
        flattened(list.drop_last()) + list.last()
    }
}

/// A label put into a list from rare to common, behind every label that is not more common.
pub open spec fn insert_rare(store: StoreView, list: Seq<u64>, label: u64) -> Seq<u64>
    decreases list.len(),
{
    if list.len() == 0 || store.inverse[list.last()].len() <= store.inverse[label].len() {
        list.push(label)
    } else {
        insert_rare(store, list.drop_last(), label).push(list.last())
    }
}

/// The labels from rare to common; of equally common ones the one that came first stays
/// first.
pub open spec fn rarest_first(store: StoreView, labels: Seq<u64>) -> Seq<u64>
    decreases labels.len(),
{
    if labels.len() == 0 {
        labels
    } else {
        insert_rare(store, rarest_first(store, labels.drop_last()), labels.last())
    }
}

/// How many labels from the front of a list the budget pays for.
pub open spec fn affordable(store: StoreView, labels: Seq<u64>, budget: nat) -> int
    decreases labels.len(),
{
    if labels.len() == 0 || literal_sum(store, labels) <= budget {
        labels.len() as int
    } else {
        affordable(store, labels.drop_last(), budget)
    }
}

/// The rare labels of a filter: as many of its rarest as the budget pays for.
pub open spec fn rare_labels(store: StoreView, list: Seq<Seq<u64>>, budget: nat) -> Seq<u64> {
    let sorted = rarest_first(store, flattened(list));
    sorted.take(affordable(store, sorted, budget))
}

/// Where a filtered query goes.
pub enum Route {
    /// The filter is no conjunction of disjunctions of labels: graph search.
    NonCanonical,
    /// No point can match.
    Unsatisfiable,
    /// A scan of the points that carry one of the labels of the cheapest clause.
    BruteForce { labels: Vec<u64>, upper_bound: u128 },
    /// Graph search, and a scan of the points that carry one of the rare labels.
    Augment { labels: Vec<u64>, upper_bound: u128, rare_sum: u128 },
    /// Graph search.
    Graph,
}

/// A route as plain values.
pub enum RouteView {
    NonCanonical,
    Unsatisfiable,
    BruteForce { labels: Seq<u64>, upper_bound: nat },
    Augment { labels: Seq<u64>, upper_bound: nat, rare_sum: nat },
    Graph,
}

impl View for Route {
    type V = RouteView;

    open spec fn view(&self) -> RouteView {
        match *self {
            Route::NonCanonical => RouteView::NonCanonical,
            Route::Unsatisfiable => RouteView::Unsatisfiable,
            Route::BruteForce { labels, upper_bound } => RouteView::BruteForce {
                labels: labels@,
                upper_bound: upper_bound as nat,
            },
            Route::Augment { labels, upper_bound, rare_sum } => RouteView::Augment {
                labels: labels@,
                upper_bound: upper_bound as nat,
                rare_sum: rare_sum as nat,
            },
            Route::Graph => RouteView::Graph,
        }
    }
}

/// The route of a filter. The cheapest clause bounds the number of matching points. A bound
/// of 0 means that nothing matches, and one within the budget that a scan of that clause
/// answers the query. Beyond the budget the query goes to graph search, which is augmented
/// by a scan for the rare labels where that is asked for and the budget pays for one.
/// An empty conjunction has no clause to bound it.
pub open spec fn route_of(
    store: StoreView,
    filter: ASTIdExpr,
    budget: nat,
    augment: bool,
) -> RouteView {
    route_of_clauses(store, clauses(filter), budget, augment)
}

/// The route of a filter by its clauses.
pub open spec fn route_of_clauses(
    store: StoreView,
    clauses: Option<Seq<Seq<u64>>>,
    budget: nat,
    augment: bool,
) -> RouteView {
    match clauses {
        None => RouteView::NonCanonical,
        Some(list) => if list.len() == 0 {
            RouteView::Graph
        } else {
            let clause = list[cheapest(store, list, list.len() as int)];
            let upper_bound = literal_sum(store, clause);
            let rare = rare_labels(store, list, budget);
            if upper_bound == 0 {
                RouteView::Unsatisfiable
            } else if upper_bound <= budget {
                RouteView::BruteForce { labels: clause, upper_bound }
            } else if augment && rare.len() > 0 {
                RouteView::Augment {
                    labels: rare,
                    upper_bound,
                    rare_sum: literal_sum(store, rare),
                }
            } else {
                RouteView::Graph
            }
        },
    }
}

/// The labels of a disjunction of labels.
fn collect_literals(expr: &ASTIdExpr) -> (labels: Option<Vec<u64>>)
    ensures
        match labels {
            Some(labels) => literals(*expr) == Some(labels@),
            None => literals(*expr) is None,
        },
    decreases *expr,
{
    match expr {
        ASTIdExpr::Terminal(label) => {
            let mut labels: Vec<u64> = Vec::new();
            labels.push(*label);
            assert(labels@ =~= seq![*label]);
            Some(labels)
        },
        ASTIdExpr::Or(subs) => collect_all_literals(subs.as_slice()),
        _ => None,
    }
}

/// The labels of several disjunctions, one behind the other.
fn collect_all_literals(subs: &[ASTIdExpr]) -> (labels: Option<Vec<u64>>)
    ensures
        match labels {
            Some(labels) => literals_of_all(subs@) == Some(labels@),
            None => literals_of_all(subs@) is None,
        },
    decreases subs@,
{
    let n: usize = subs.len();
    let mut labels: Vec<u64> = Vec::new();
    assert(subs@.take(0) =~= Seq::<ASTIdExpr>::empty());
    for i in 0..n
        invariant
            n == subs@.len(),
            literals_of_all(subs@.take(i as int)) == Some(labels@),
    {
        proof {
            assert(subs@.take(i + 1).drop_last() =~= subs@.take(i as int));
        }
        match collect_literals(&subs[i]) {
            Some(mut more) => {
                labels.append(&mut more);
            },
            None => {
                proof {
                    lemma_stays_none(subs@, i + 1);
                }
                return None;
            },
        }
    }
    assert(subs@.take(n as int) =~= subs@);
    Some(labels)
}

/// The clauses of a conjunction of disjunctions of labels, or nothing for another shape.
pub fn analyze_and_of_ors(expr: &ASTIdExpr) -> (list: Option<Vec<Vec<u64>>>)
    ensures
        match list {
            Some(list) => clauses(*expr) == Some(label_lists(list@)),
            None => clauses(*expr) is None,
        },
{
    let mut list: Vec<Vec<u64>> = Vec::new();
    match expr {
        ASTIdExpr::And(subs) => {
            let n: usize = subs.len();
            for i in 0..n
                invariant
                    *expr == ASTIdExpr::And(*subs),
                    n == subs@.len(),
                    list@.len() == i,
                    forall|j: int|
                        0 <= j < i ==> literals(#[trigger] subs@[j]) == Some(list@[j]@),
            {
                match collect_literals(&subs[i]) {
                    Some(labels) => {
                        list.push(labels);
                    },
                    None => {
                        assert(literals(subs@[i as int]) is None);
                        return None;
                    },
                }
            }
            assert(label_lists(list@) =~= Seq::new(subs@.len(), |i: int| literals(subs@[i])->0));
            Some(list)
        },
        _ => match collect_literals(expr) {
            Some(labels) => {
                list.push(labels);
                assert(label_lists(list@) =~= seq![labels@]);
                Some(list)
            },
            None => None,
        },
    }
}

/// Sums up the lengths of the posting lists of some labels.
fn sum_literals(store: &RoaringAttributeStore, labels: &Vec<u64>) -> (sum: u128)
    requires
        store.wf(),
    ensures
        sum == literal_sum(store@, labels@),
{
    let n: usize = labels.len();
    let mut sum: u128 = 0;
    for i in 0..n
        invariant
            store.wf(),
            n == labels@.len(),
            sum == literal_sum(store@, labels@.take(i as int)),
            sum <= i * usize::MAX,
    {
        let len: usize = store.posting_list_len(labels[i]);
        proof {
            assert(labels@.take(i + 1).drop_last() =~= labels@.take(i as int));
            lemma_product(i as int);
        }
        sum = sum + len as u128;
    }
    assert(labels@.take(n as int) =~= labels@);
    sum
}

/// The rare labels of a filter and the sum of the lengths of their posting lists.
fn select_rare(
    store: &RoaringAttributeStore,
    list: &Vec<Vec<u64>>,
    budget: u128,
) -> (rare: (Vec<u64>, u128))
    requires
        store.wf(),
    ensures
        rare.0@ == rare_labels(store@, label_lists(list@), budget as nat),
        rare.1 == literal_sum(store@, rare.0@),
{
    let sorted = sort_rarest_first(store, list);
    let n: usize = sorted.len();
    let mut sum: u128 = 0;
    let mut rare: Vec<u64> = Vec::new();
    let ghost all = sorted@;
    for i in 0..n
        invariant
            store.wf(),
            n == sorted@.len(),
            all == sorted@,
            rare@ == all.take(i as int),
            sum == literal_sum(store@, rare@),
            sum <= budget,
            sum <= i * usize::MAX,
            all == rarest_first(store@, flattened(label_lists(list@))),
    {
        let len: usize = store.posting_list_len(sorted[i]);
        proof {
            assert(all.take(i + 1).drop_last() =~= all.take(i as int));
            lemma_product(i as int);
        }
        if sum + len as u128 > budget {
            proof {
                lemma_affordable(store@, all, budget as nat, i as int);
            }
            return (rare, sum);
        }
        rare.push(sorted[i]);
        assert(rare@ =~= all.take(i + 1));
        sum = sum + len as u128;
    }
    assert(all.take(n as int) =~= all);
    (rare, sum)
}

/// The labels of all clauses from rare to common.
fn sort_rarest_first(store: &RoaringAttributeStore, list: &Vec<Vec<u64>>) -> (sorted: Vec<u64>)
    requires
        store.wf(),
    ensures
        sorted@ == rarest_first(store@, flattened(label_lists(list@))),
{
    let labels = flatten(list);
    let n: usize = labels.len();
    let mut sorted: Vec<u64> = Vec::with_capacity(n);
    assert(sorted@ =~= rarest_first(store@, labels@.take(0)));
    for i in 0..n
        invariant
            store.wf(),
            n == labels@.len(),
            sorted@ == rarest_first(store@, labels@.take(i as int)),
    {
        let label: u64 = labels[i];
        let len: usize = store.posting_list_len(label);
        let mut at: usize = sorted.len();
        while at > 0 && store.posting_list_len(sorted[at - 1]) > len
            invariant
                store.wf(),
                at <= sorted@.len(),
                len == store@.inverse[label].len(),
                forall|j: int|
                    at <= j < sorted@.len() ==> store@.inverse[#[trigger] sorted@[j]].len() > len,
            decreases at,
        {
            at = at - 1;
        }
        proof {
            lemma_insert_rare_at(store@, sorted@, label, at as int);
            assert(labels@.take(i + 1).drop_last() =~= labels@.take(i as int));
        }
        sorted.insert(at, label);
    }
    assert(labels@.take(n as int) =~= labels@);
    sorted
}

/// The labels of all clauses, one behind the other.
fn flatten(list: &Vec<Vec<u64>>) -> (labels: Vec<u64>)
    ensures
        labels@ == flattened(label_lists(list@)),
{
    let n: usize = list.len();
    let ghost lists = label_lists(list@);
    let mut labels: Vec<u64> = Vec::new();
    assert(lists.take(0) =~= Seq::<Seq<u64>>::empty());
    for i in 0..n
        invariant
            n == list@.len(),
            lists == label_lists(list@),
            labels@ == flattened(lists.take(i as int)),
    {
        let m: usize = list[i].len();
        let ghost before = labels@;
        for j in 0..m
            invariant
                i < list@.len(),
                m == list@[i as int]@.len(),
                labels@ == before + list@[i as int]@.take(j as int),
        {
            labels.push(list[i][j]);
            assert(labels@ =~= before + list@[i as int]@.take(j + 1));
        }
        proof {
            assert(list@[i as int]@.take(m as int) =~= list@[i as int]@);
            assert(lists.take(i + 1).drop_last() =~= lists.take(i as int));
        }
    }
    assert(lists.take(n as int) =~= lists);
    labels
}

/// Decides where a filtered query goes.
pub fn route_filter(
    store: &RoaringAttributeStore,
    filter: &EncodedFilterExpr,
    budget: usize,
    augment: bool,
) -> (route: Route)
    requires
        store.wf(),
    ensures
        route@ == route_of(store@, filter@, budget as nat, augment),
{
    let mut list: Vec<Vec<u64>> = match analyze_and_of_ors(filter.encoded_filter_expr()) {
        Some(list) => list,
        None => {
            return Route::NonCanonical;
        },
    };
    let n: usize = list.len();
    if n == 0 {
        return Route::Graph;
    }
    let ghost lists = label_lists(list@);
    let mut best: usize = 0;
    let mut upper_bound: u128 = sum_literals(store, &list[0]);
    for i in 1..n
        invariant
            store.wf(),
            n == list@.len(),
            lists == label_lists(list@),
            best < n,
            best == cheapest(store@, lists, i as int),
            upper_bound == literal_sum(store@, lists[best as int]),
    {
        let sum: u128 = sum_literals(store, &list[i]);
        if sum < upper_bound {
            best = i;
            upper_bound = sum;
        }
    }
    if upper_bound == 0 {
        return Route::Unsatisfiable;
    }
    if upper_bound <= budget as u128 {
        let labels: Vec<u64> = list.swap_remove(best);
        return Route::BruteForce { labels, upper_bound };
    }
    if augment {
        let (labels, rare_sum) = select_rare(store, &list, budget as u128);
        if labels.len() > 0 {
            return Route::Augment { labels, upper_bound, rare_sum };
        }
    }
    Route::Graph
}

/// The route of a query under a strategy: plain inline search knows graph search alone, the
/// hybrids are routed by posting lists, with or without augmentation, and no other strategy
/// is routed.
pub open spec fn route_under(
    store: StoreView,
    filter: ASTIdExpr,
    strategy: FilterStrategy,
    threshold: nat,
) -> RouteView {
    if strategy.hybrid() {
        route_of(store, filter, threshold, strategy == FilterStrategy::InlineBetaBfx)
    } else {
        RouteView::Graph
    }
}

/// Decides where a query goes under a strategy.
pub fn route_inline(
    store: &RoaringAttributeStore,
    filter: &EncodedFilterExpr,
    strategy: FilterStrategy,
    threshold: usize,
) -> (route: Route)
    requires
        store.wf(),
    ensures
        route@ == route_under(store@, filter@, strategy, threshold as nat),
{
    if strategy.is_hybrid() {
        route_filter(store, filter, threshold, strategy == FilterStrategy::InlineBetaBfx)
    } else {
        Route::Graph
    }
}

/// How many queries went where.
#[derive(Debug, Clone, Copy, PartialEq, Eq, Structural)]
pub struct RoutingSummary {
    pub unsatisfiable: usize,
    pub non_canonical: usize,
    pub brute_force: usize,
    pub augmented: usize,
    pub graph: usize,
}

/// The routes of a list of queries.
pub open spec fn route_views(routes: Seq<Route>) -> Seq<RouteView> {
    routes.map_values(|route: Route| route@)
}

/// How many routes are of a kind.
pub open spec fn tally(routes: Seq<RouteView>, kind: spec_fn(RouteView) -> bool) -> nat {
    routes.filter(kind).len()
}

/// Counts where the queries went.
pub fn summarize(routes: &Vec<Route>) -> (summary: RoutingSummary)
    ensures
        ({
            let views = route_views(routes@);
            &&& summary.unsatisfiable == tally(views, |r: RouteView| r is Unsatisfiable)
            &&& summary.non_canonical == tally(views, |r: RouteView| r is NonCanonical)
            &&& summary.brute_force == tally(views, |r: RouteView| r is BruteForce)
            &&& summary.augmented == tally(views, |r: RouteView| r is Augment)
            &&& summary.graph == tally(views, |r: RouteView| r is Graph)
        }),
{
    let ghost views = route_views(routes@);
    let ghost unsatisfiable = |r: RouteView| r is Unsatisfiable;
    let ghost non_canonical = |r: RouteView| r is NonCanonical;
    let ghost brute_force = |r: RouteView| r is BruteForce;
    let ghost augmented = |r: RouteView| r is Augment;
    let ghost graph = |r: RouteView| r is Graph;
    let n: usize = routes.len();
    let mut summary = RoutingSummary {
        unsatisfiable: 0,
        non_canonical: 0,
        brute_force: 0,
        augmented: 0,
        graph: 0,
    };
    proof {
        reveal(Seq::filter);
    }
    for i in 0..n
        invariant
            n == routes@.len(),
            views == route_views(routes@),
            unsatisfiable == (|r: RouteView| r is Unsatisfiable),
            non_canonical == (|r: RouteView| r is NonCanonical),
            brute_force == (|r: RouteView| r is BruteForce),
            augmented == (|r: RouteView| r is Augment),
            graph == (|r: RouteView| r is Graph),
            summary.unsatisfiable == tally(views.take(i as int), unsatisfiable),
            summary.non_canonical == tally(views.take(i as int), non_canonical),
            summary.brute_force == tally(views.take(i as int), brute_force),
            summary.augmented == tally(views.take(i as int), augmented),
            summary.graph == tally(views.take(i as int), graph),
    {
        proof {
            let earlier = views.take(i as int);
            let route = views[i as int];
            assert(views.take(i + 1) =~= earlier.push(route));
            earlier.lemma_filter_push(route, unsatisfiable);
            earlier.lemma_filter_push(route, non_canonical);
            earlier.lemma_filter_push(route, brute_force);
            earlier.lemma_filter_push(route, augmented);
            earlier.lemma_filter_push(route, graph);
            earlier.lemma_filter_len(unsatisfiable);
            earlier.lemma_filter_len(non_canonical);
            earlier.lemma_filter_len(brute_force);
            earlier.lemma_filter_len(augmented);
            earlier.lemma_filter_len(graph);
        }
        match &routes[i] {
            Route::Unsatisfiable => {
                summary.unsatisfiable = summary.unsatisfiable + 1;
            },
            Route::NonCanonical => {
                summary.non_canonical = summary.non_canonical + 1;
            },
            Route::BruteForce { .. } => {
                summary.brute_force = summary.brute_force + 1;
            },
            Route::Augment { .. } => {
                summary.augmented = summary.augmented + 1;
            },
            Route::Graph => {
                summary.graph = summary.graph + 1;
            },
        }
    }
    assert(views.take(n as int) =~= views);
    summary
}

/// The bounds and the sizes of scans, added up over queries.
#[derive(Debug, Clone, Copy, PartialEq, Eq, Structural)]
pub struct RoutingSums {
    /// The bounds of the queries that a scan answers.
    pub scan_bound: u128,
    /// The points that these scans visit.
    pub scan_size: u128,
    /// The bounds of the queries that a scan augments.
    pub augment_bound: u128,
    /// The lengths of the posting lists of their rare labels.
    pub rare_sum: u128,
    /// The points that these scans visit.
    pub augment_size: u128,
}

/// Sums of any size.
pub struct SumsView {
    pub scan_bound: nat,
    pub scan_size: nat,
    pub augment_bound: nat,
    pub rare_sum: nat,
    pub augment_size: nat,
}

impl View for RoutingSums {
    type V = SumsView;

    open spec fn view(&self) -> SumsView {
        SumsView {
            scan_bound: self.scan_bound as nat,
            scan_size: self.scan_size as nat,
            augment_bound: self.augment_bound as nat,
            rare_sum: self.rare_sum as nat,
            augment_size: self.augment_size as nat,
        }
    }
}

impl SumsView {
    pub open spec fn zero() -> SumsView {
        SumsView { scan_bound: 0, scan_size: 0, augment_bound: 0, rare_sum: 0, augment_size: 0 }
    }

    pub open spec fn plus(self, other: SumsView) -> SumsView {
        SumsView {
            scan_bound: self.scan_bound + other.scan_bound,
            scan_size: self.scan_size + other.scan_size,
            augment_bound: self.augment_bound + other.augment_bound,
            rare_sum: self.rare_sum + other.rare_sum,
            augment_size: self.augment_size + other.augment_size,
        }
    }

    /// 128 bits hold each of the sums.
    pub open spec fn fits(self) -> bool {
        &&& self.scan_bound <= u128::MAX
        &&& self.scan_size <= u128::MAX
        &&& self.augment_bound <= u128::MAX
        &&& self.rare_sum <= u128::MAX
        &&& self.augment_size <= u128::MAX
    }
}

/// What one query adds to the sums.
pub open spec fn sums_of_route(store: StoreView, route: RouteView) -> SumsView {
    match route {
        RouteView::BruteForce { labels, upper_bound } => SumsView {
            scan_bound: upper_bound,
            scan_size: store.union_of(labels).len(),
            ..SumsView::zero()
        },
        RouteView::Augment { labels, upper_bound, rare_sum } => SumsView {
            augment_bound: upper_bound,
            rare_sum,
            augment_size: store.union_of(labels).len(),
            ..SumsView::zero()
        },
        _ => SumsView::zero(),
    }
}

/// The sums over queries.
pub open spec fn sums_of(store: StoreView, routes: Seq<RouteView>) -> SumsView
    decreases routes.len(),
{
    if routes.len() == 0 {
        SumsView::zero()
    } else {
        sums_of(store, routes.drop_last()).plus(sums_of_route(store, routes.last()))
    }
}

impl RoutingSums {
    fn zero() -> (sums: Self)
        ensures
            sums@ == SumsView::zero(),
    {
        RoutingSums {
            scan_bound: 0,
            scan_size: 0,
            augment_bound: 0,
            rare_sum: 0,
            augment_size: 0,
        }
    }

    /// The sums of both, where 128 bits hold them.
    fn plus(self, other: RoutingSums) -> (sums: Option<RoutingSums>)
        ensures
            match sums {
                Some(sums) => sums@ == self@.plus(other@),
                None => !self@.plus(other@).fits(),
            },
    {
        Some(RoutingSums {
            scan_bound: match self.scan_bound.checked_add(other.scan_bound) {
                Some(sum) => sum,
                None => return None,
            },
            scan_size: match self.scan_size.checked_add(other.scan_size) {
                Some(sum) => sum,
                None => return None,
            },
            augment_bound: match self.augment_bound.checked_add(other.augment_bound) {
                Some(sum) => sum,
                None => return None,
            },
            rare_sum: match self.rare_sum.checked_add(other.rare_sum) {
                Some(sum) => sum,
                None => return None,
            },
            augment_size: match self.augment_size.checked_add(other.augment_size) {
                Some(sum) => sum,
                None => return None,
            },
        })
    }
}

/// What one query adds to the sums.
fn route_sums(store: &RoaringAttributeStore, route: &Route) -> (sums: RoutingSums)
    requires
        store.wf(),
    ensures
        sums@ == sums_of_route(store@, route@),
{
    match route {
        Route::BruteForce { labels, upper_bound } => RoutingSums {
            scan_bound: *upper_bound,
            scan_size: store.union_len(labels.as_slice()) as u128,
            ..RoutingSums::zero()
        },
        Route::Augment { labels, upper_bound, rare_sum } => RoutingSums {
            augment_bound: *upper_bound,
            rare_sum: *rare_sum,
            augment_size: store.union_len(labels.as_slice()) as u128,
            ..RoutingSums::zero()
        },
        _ => RoutingSums::zero(),
    }
}

/// Adds up the bounds and the sizes of the scans, of which the means are reported. There
/// are no sums where one of them takes more than 128 bits.
pub fn sum_routes(store: &RoaringAttributeStore, routes: &Vec<Route>) -> (sums: Option<
    RoutingSums,
>)
    requires
        store.wf(),
    ensures
        match sums {
            Some(sums) => sums@ == sums_of(store@, route_views(routes@)),
            None => !sums_of(store@, route_views(routes@)).fits(),
        },
{
    let ghost views = route_views(routes@);
    let n: usize = routes.len();
    let mut sums = RoutingSums::zero();
    for i in 0..n
        invariant
            store.wf(),
            n == routes@.len(),
            views == route_views(routes@),
            sums@ == sums_of(store@, views.take(i as int)),
    {
        let ghost before = views.take(i as int);
        assert(views.take(i + 1).drop_last() =~= before);
        match sums.plus(route_sums(store, &routes[i])) {
            Some(more) => {
                sums = more;
            },
            None => {
                proof {
                    lemma_sums_grow(store@, views, i + 1);
                }
                return None;
            },
        }
    }
    assert(views.take(n as int) =~= views);
    Some(sums)
}

/// Sums that are too large stay so.
proof fn lemma_sums_grow(store: StoreView, routes: Seq<RouteView>, n: int)
    requires
        0 <= n <= routes.len(),
        !sums_of(store, routes.take(n)).fits(),
    ensures
        !sums_of(store, routes).fits(),
    decreases routes.len() - n,
{
    if n == routes.len() {
        assert(routes.take(n) =~= routes);
    } else {
        assert(routes.take(n + 1).drop_last() =~= routes.take(n));
        lemma_sums_grow(store, routes, n + 1);
    }
}

/// The points with a row of data among those that graph search found, in their order.
pub fn found_rows(ids: &Vec<u32>, nrows: usize) -> (rows: Vec<usize>)
    ensures
        rows@ == ids@.filter(|id: u32| id < nrows).map_values(|id: u32| id as usize),
{
    let ghost keep = |id: u32| id < nrows;
    let ghost wide = |id: u32| id as usize;
    let n: usize = ids.len();
    let mut rows: Vec<usize> = Vec::new();
    proof {
        reveal(Seq::filter);
    }
    assert(rows@ =~= ids@.take(0).filter(keep).map_values(wide));
    for i in 0..n
        invariant
            n == ids@.len(),
            keep == (|id: u32| id < nrows),
            wide == (|id: u32| id as usize),
            rows@ == ids@.take(i as int).filter(keep).map_values(wide),
    {
        let id: u32 = ids[i];
        let ghost before = ids@.take(i as int);
        proof {
            assert(ids@.take(i + 1) =~= before.push(id));
            before.lemma_filter_push(id, keep);
        }
        if (id as usize) < nrows {
            rows.push(id as usize);
            assert(rows@ =~= before.filter(keep).push(id).map_values(wide));
        }
    }
    assert(ids@.take(n as int) =~= ids@);
    rows
}

/// The answer to a query that no point can match: no neighbour in any place.
pub fn unsatisfiable_row(k: usize) -> (ids: Vec<u32>)
    ensures
        ids@ == Seq::new(k as nat, |i: int| NO_NEIGHBOUR),
{
    let mut ids: Vec<u32> = Vec::new();
    for i in 0..k
        invariant
            ids@ == Seq::new(i as nat, |j: int| NO_NEIGHBOUR),
    {
        ids.push(NO_NEIGHBOUR);
        assert(ids@ =~= Seq::new((i + 1) as nat, |j: int| NO_NEIGHBOUR));
    }
    ids
}

/// The points of a candidate set that match the whole filter and have a row of data, in
/// ascending order.
pub fn matching_candidates(
    store: &RoaringAttributeStore,
    filter: &EncodedFilterExpr,
    candidates: &RoaringTreemap,
    nrows: usize,
) -> (points: Vec<usize>)
    requires
        store.wf(),
    ensures
        forall|id: usize| #[trigger]
            points@.contains(id) <==> {
                &&& id < nrows
                &&& ids_of(*candidates).contains(id as u64)
                &&& store@.matches(id as u64, filter@)
            },
        forall|i: int, j: int| 0 <= i < j < points@.len() ==> points@[i] < points@[j],
{
    let list = list_ids(candidates);
    let n: usize = list.len();
    let mut points: Vec<usize> = Vec::new();
    for i in 0..n
        invariant
            store.wf(),
            n == list@.len(),
            forall|a: int, b: int| 0 <= a < b < list@.len() ==> list@[a] < list@[b],
            forall|a: int, b: int| 0 <= a < b < points@.len() ==> points@[a] < points@[b],
            forall|id: usize| #[trigger]
                points@.contains(id) <==> {
                    &&& id < nrows
                    &&& list@.take(i as int).contains(id as u64)
                    &&& store@.matches(id as u64, filter@)
                },
    {
        let id: u64 = list[i];
        let ghost before = points@;
        let ghost earlier = list@.take(i as int);
        let ghost later = list@.take(i + 1);
        let keep: bool = id < nrows as u64 && store.matches_filter(id, filter);
        if keep {
            proof {
                assert forall|a: int| 0 <= a < before.len() implies before[a] < id by {
                    assert(before.contains(before[a]));
                    let k = earlier.index_of(before[a] as u64);
                    assert(list@[k] == before[a] as u64);
                }
            }
            points.push(id as usize);
        }
        proof {
            assert(later =~= earlier.push(id));
            assert(later[i as int] == id);
            assert forall|x: usize| #[trigger] points@.contains(x) <==> {
                &&& x < nrows
                &&& later.contains(x as u64)
                &&& store@.matches(x as u64, filter@)
            } by {
                if earlier.contains(x as u64) {
                    assert(later[earlier.index_of(x as u64)] == x as u64);
                }
                if before.contains(x) {
                    assert(points@[before.index_of(x)] == x);
                }
                if x == id && keep {
                    assert(points@[before.len() as int] == x);
                }
            }
        }
    }
    proof {
        assert(list@.take(n as int) =~= list@);
        assert forall|id: u64| list@.contains(id) <==> ids_of(*candidates).contains(id) by {
            assert(list@.to_set().contains(id) <==> list@.contains(id));
        }
    }
    points
}

/// The points that a scan for some labels visits and that match the whole filter: those
/// that carry one of the labels, match, and have a row of data, in ascending order.
pub fn scan_candidates(
    store: &RoaringAttributeStore,
    filter: &EncodedFilterExpr,
    labels: &Vec<u64>,
    nrows: usize,
) -> (points: Vec<usize>)
    requires
        store.wf(),
    ensures
        forall|id: usize| #[trigger]
            points@.contains(id) <==> {
                &&& id < nrows
                &&& store@.union_of(labels@).contains(id as u64)
                &&& store@.matches(id as u64, filter@)
            },
        forall|i: int, j: int| 0 <= i < j < points@.len() ==> points@[i] < points@[j],
{
    let visited = store.union_posting_lists(labels.as_slice());
    matching_candidates(store, filter, &visited, nrows)
}

/// The points of graph search that match the filter, in their order.
pub fn matching_results(
    store: &RoaringAttributeStore,
    filter: &EncodedFilterExpr,
    ids: &Vec<u32>,
) -> (kept: Vec<u32>)
    requires
        store.wf(),
    ensures
        kept@ == ids@.filter(|id: u32| store@.matches(id as u64, filter@)),
{
    let ghost keep = |id: u32| store@.matches(id as u64, filter@);
    let n: usize = ids.len();
    let mut kept: Vec<u32> = Vec::new();
    proof {
        reveal(Seq::filter);
    }
    assert(kept@ =~= ids@.take(0).filter(keep));
    for i in 0..n
        invariant
            store.wf(),
            n == ids@.len(),
            keep == (|id: u32| store@.matches(id as u64, filter@)),
            kept@ == ids@.take(i as int).filter(keep),
    {
        proof {
            assert(ids@.take(i + 1) =~= ids@.take(i as int).push(ids@[i as int]));
            ids@.take(i as int).lemma_filter_push(ids@[i as int], keep);
        }
        if store.matches_filter(ids[i] as u64, filter) {
            kept.push(ids[i]);
        }
    }
    assert(ids@.take(n as int) =~= ids@);
    kept
}

/// The points without those whose id an earlier point has.
pub open spec fn first_of_each(points: Seq<Neighbor>) -> Seq<Neighbor>
    decreases points.len(),
{
    if points.len() == 0 {
        points
    } else {
        let before = first_of_each(points.drop_last());
        if exists|i: int| 0 <= i < before.len() && (#[trigger] before[i]).id == points.last().id {
            before
        } else {
            before.push(points.last())
        }
    }
}

/// The ids of the `k` nearest points of two lists together, from near to far. A point that
/// both lists name counts once, with the distance of the first list.
pub fn merge_topk(graph: &Vec<Neighbor>, scan: &Vec<Neighbor>, k: usize) -> (ids: Vec<u32>)
    ensures
        ids@ == nearest(first_of_each(graph@ + scan@), k as int).map_values(|x: Neighbor| x.id),
{
    let mut points: Vec<Neighbor> = Vec::new();
    let ghost all = graph@ + scan@;
    assert(all.take(0) =~= Seq::<Neighbor>::empty());
    let n: usize = graph.len();
    for i in 0..n
        invariant
            n == graph@.len(),
            all == graph@ + scan@,
            points@ == first_of_each(all.take(i as int)),
    {
        assert(all.take(i + 1).drop_last() =~= all.take(i as int));
        push_new(&mut points, graph[i]);
    }
    let m: usize = scan.len();
    for i in 0..m
        invariant
            n == graph@.len(),
            m == scan@.len(),
            all == graph@ + scan@,
            points@ == first_of_each(all.take(n + i)),
    {
        assert(all.take(n + i + 1).drop_last() =~= all.take(n + i));
        push_new(&mut points, scan[i]);
    }
    assert(all.take(n + m) =~= all);
    let best = select_nearest(&points, k);
    ids_of_points(&best)
}

/// Appends a point unless its id is there.
fn push_new(points: &mut Vec<Neighbor>, point: Neighbor)
    ensures
        final(points)@ == if exists|i: int|
            0 <= i < old(points)@.len() && (#[trigger] old(points)@[i]).id == point.id {
            old(points)@
        } else {
            old(points)@.push(point)
        },
{
    let n: usize = points.len();
    for i in 0..n
        invariant
            n == points@.len(),
            points@ == old(points)@,
            forall|j: int| 0 <= j < i ==> (#[trigger] points@[j]).id != point.id,
    {
        if points[i].id == point.id {
            assert(old(points)@[i as int].id == point.id);
            return;
        }
    }
    points.push(point);
}

/// One part that is no disjunction of labels spoils the whole.
proof fn lemma_stays_none(subs: Seq<ASTIdExpr>, n: int)
    requires
        0 <= n <= subs.len(),
        literals_of_all(subs.take(n)) is None,
    ensures
        literals_of_all(subs) is None,
    decreases subs.len() - n,
{
    if n == subs.len() {
        assert(subs.take(n) =~= subs);
    } else {
        assert(subs.take(n + 1).drop_last() =~= subs.take(n));
        lemma_stays_none(subs, n + 1);
    }
}

proof fn lemma_product(i: int)
    requires
        0 <= i < usize::MAX,
    ensures
        (i + 1) * usize::MAX == i * usize::MAX + usize::MAX,
        (i + 1) * usize::MAX <= u128::MAX,
{
    assert((i + 1) * usize::MAX == i * usize::MAX + usize::MAX) by (nonlinear_arith);
    assert((i + 1) * usize::MAX <= u128::MAX) by (nonlinear_arith)
        requires
            0 <= i < usize::MAX <= 0xffff_ffff_ffff_ffff,
    ;
}

/// Longer lists cost no less.
pub(crate) proof fn lemma_sum_grows(store: StoreView, labels: Seq<u64>, n: int)
    requires
        0 <= n <= labels.len(),
    ensures
        literal_sum(store, labels.take(n)) <= literal_sum(store, labels),
    decreases labels.len(),
{
    if n < labels.len() {
        lemma_sum_grows(store, labels.drop_last(), n);
        assert(labels.drop_last().take(n) =~= labels.take(n));
    } else {
        assert(labels.take(n) =~= labels);
    }
}

/// The budget pays for exactly the labels before the first that exceeds it.
proof fn lemma_affordable(store: StoreView, labels: Seq<u64>, budget: nat, n: int)
    requires
        0 <= n < labels.len(),
        literal_sum(store, labels.take(n)) <= budget,
        literal_sum(store, labels.take(n + 1)) > budget,
    ensures
        affordable(store, labels, budget) == n,
    decreases labels.len(),
{
    lemma_sum_grows(store, labels, n + 1);
    let rest = labels.drop_last();
    if n + 1 < labels.len() {
        assert(rest.take(n) =~= labels.take(n));
        assert(rest.take(n + 1) =~= labels.take(n + 1));
        lemma_affordable(store, rest, budget, n);
    } else {
        assert(rest =~= labels.take(n));
        assert(affordable(store, rest, budget) == n);
    }
}

/// Where a label goes: behind the last one that is not more common.
proof fn lemma_insert_rare_at(store: StoreView, list: Seq<u64>, label: u64, at: int)
    requires
        0 <= at <= list.len(),
        at > 0 ==> store.inverse[list[at - 1]].len() <= store.inverse[label].len(),
        forall|i: int|
            at <= i < list.len() ==> store.inverse[#[trigger] list[i]].len()
                > store.inverse[label].len(),
    ensures
        insert_rare(store, list, label) == list.insert(at, label),
    decreases list.len(),
{
    if at == list.len() {
        assert(list.insert(at, label) =~= list.push(label));
    } else {
        let rest = list.drop_last();
        assert(store.inverse[list[list.len() - 1]].len() > store.inverse[label].len());
        lemma_insert_rare_at(store, rest, label, at);
        assert(list.insert(at, label) =~= rest.insert(at, label).push(list.last()));
    }
}

} // verus!
