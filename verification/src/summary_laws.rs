//! What is reported of routes, and what a search keeps of points.
use roaring::RoaringTreemap;
use vstd::prelude::*;

use crate::filter_expr::EncodedFilterExpr;
use crate::routing::{
    found_rows, matching_candidates, matching_results, route_views, scan_candidates, sum_routes,
    summarize, sums_of, sums_of_route, tally, unsatisfiable_row, Route, RouteView, RoutingSummary,
    RoutingSums, SumsView,
};
use crate::store::RoaringAttributeStore;
use crate::store_model::StoreView;
use crate::treemap::ids_of;

verus! {

/// The numbers of routes of each kind are those of the parts of a list together, and of a
/// list of one route that kind alone has one.
pub proof fn law_routes_are_counted(
    a: &Vec<Route>,
    b: &Vec<Route>,
    both: &Vec<Route>,
    of_a: RoutingSummary,
    of_b: RoutingSummary,
    of_both: RoutingSummary,
)
    requires
        call_ensures(summarize, (a,), of_a),
        call_ensures(summarize, (b,), of_b),
        call_ensures(summarize, (both,), of_both),
        both@ == a@ + b@,
    ensures
        of_both.unsatisfiable == of_a.unsatisfiable + of_b.unsatisfiable,
        of_both.non_canonical == of_a.non_canonical + of_b.non_canonical,
        of_both.brute_force == of_a.brute_force + of_b.brute_force,
        of_both.augmented == of_a.augmented + of_b.augmented,
        of_both.graph == of_a.graph + of_b.graph,
        a@.len() == 0 ==> {
            &&& of_a.unsatisfiable == 0
            &&& of_a.non_canonical == 0
            &&& of_a.brute_force == 0
            &&& of_a.augmented == 0
            &&& of_a.graph == 0
        },
        a@.len() == 1 ==> {
            &&& of_a.unsatisfiable == if a@[0] is Unsatisfiable {
                1int
            } else {
                0int
            }
            &&& of_a.non_canonical == if a@[0] is NonCanonical {
                1int
            } else {
                0int
            }
            &&& of_a.brute_force == if a@[0] is BruteForce {
                1int
            } else {
                0int
            }
            &&& of_a.augmented == if a@[0] is Augment {
                1int
            } else {
                0int
            }
            &&& of_a.graph == if a@[0] is Graph {
                1int
            } else {
                0int
            }
        },
{
    assert(route_views(both@) =~= route_views(a@) + route_views(b@));
    lemma_tally(route_views(a@), route_views(b@), |r: RouteView| r is Unsatisfiable);
    lemma_tally(route_views(a@), route_views(b@), |r: RouteView| r is NonCanonical);
    lemma_tally(route_views(a@), route_views(b@), |r: RouteView| r is BruteForce);
    lemma_tally(route_views(a@), route_views(b@), |r: RouteView| r is Augment);
    lemma_tally(route_views(a@), route_views(b@), |r: RouteView| r is Graph);
}

proof fn lemma_tally(a: Seq<RouteView>, b: Seq<RouteView>, kind: spec_fn(RouteView) -> bool)
    ensures
        tally(a + b, kind) == tally(a, kind) + tally(b, kind),
        a.len() == 0 ==> tally(a, kind) == 0,
        a.len() == 1 ==> tally(a, kind) == if kind(a[0]) {
            1int
        } else {
            0int
        },
{
    Seq::filter_distributes_over_add(a, b, kind);
    reveal(Seq::filter);
    if a.len() == 1 {
        let none = Seq::<RouteView>::empty();
        assert(none.push(a[0]) =~= a);
        none.lemma_filter_push(a[0], kind);
        assert(none.filter(kind) =~= none);
    }
}

/// Every route is counted once.
pub proof fn law_every_route_is_counted_once(routes: &Vec<Route>, summary: RoutingSummary)
    requires
        call_ensures(summarize, (routes,), summary),
    ensures
        summary.unsatisfiable + summary.non_canonical + summary.brute_force + summary.augmented
            + summary.graph == routes@.len(),
{
    lemma_all_kinds(route_views(routes@));
}

proof fn lemma_all_kinds(routes: Seq<RouteView>)
    ensures
        tally(routes, |r: RouteView| r is Unsatisfiable) + tally(
            routes,
            |r: RouteView| r is NonCanonical,
        ) + tally(routes, |r: RouteView| r is BruteForce) + tally(
            routes,
            |r: RouteView| r is Augment,
        ) + tally(routes, |r: RouteView| r is Graph) == routes.len(),
    decreases routes.len(),
{
    if routes.len() == 0 {
        lemma_tally(routes, routes, |r: RouteView| r is Unsatisfiable);
        lemma_tally(routes, routes, |r: RouteView| r is NonCanonical);
        lemma_tally(routes, routes, |r: RouteView| r is BruteForce);
        lemma_tally(routes, routes, |r: RouteView| r is Augment);
        lemma_tally(routes, routes, |r: RouteView| r is Graph);
    } else {
        let first = routes.take(1);
        let rest = routes.skip(1);
        assert(first + rest =~= routes);
        lemma_all_kinds(rest);
        lemma_tally(first, rest, |r: RouteView| r is Unsatisfiable);
        lemma_tally(first, rest, |r: RouteView| r is NonCanonical);
        lemma_tally(first, rest, |r: RouteView| r is BruteForce);
        lemma_tally(first, rest, |r: RouteView| r is Augment);
        lemma_tally(first, rest, |r: RouteView| r is Graph);
    }
}

/// What one query adds to the sums: a scan its bound and the number of points that it visits,
/// an augmented search its bound, the lengths of the lists of its rare labels and the number of
/// points that it scans, and any other nothing.
pub proof fn law_what_a_route_adds(store: StoreView, route: RouteView)
    ensures
        ({
            let sums = sums_of(store, seq![route]);
            &&& route matches RouteView::BruteForce { labels, upper_bound } ==> {
                &&& sums.scan_bound == upper_bound
                &&& sums.scan_size == store.union_of(labels).len()
            }
            &&& !(route is BruteForce) ==> sums.scan_bound == 0 && sums.scan_size == 0
            &&& route matches RouteView::Augment { labels, upper_bound, rare_sum } ==> {
                &&& sums.augment_bound == upper_bound
                &&& sums.rare_sum == rare_sum
                &&& sums.augment_size == store.union_of(labels).len()
            }
            &&& !(route is Augment) ==> sums.augment_bound == 0 && sums.rare_sum == 0
                && sums.augment_size == 0
        }),
{
    reveal_with_fuel(sums_of, 2);
    assert(seq![route].drop_last() =~= Seq::<RouteView>::empty());
    assert(sums_of(store, seq![route]) == SumsView::zero().plus(sums_of_route(store, route)));
}

/// Sums are those of the parts of a list together.
pub proof fn law_sums_add_up(store: StoreView, a: Seq<RouteView>, b: Seq<RouteView>)
    ensures
        ({
            let both = sums_of(store, a + b);
            let of_a = sums_of(store, a);
            let of_b = sums_of(store, b);
            &&& both.scan_bound == of_a.scan_bound + of_b.scan_bound
            &&& both.scan_size == of_a.scan_size + of_b.scan_size
            &&& both.augment_bound == of_a.augment_bound + of_b.augment_bound
            &&& both.rare_sum == of_a.rare_sum + of_b.rare_sum
            &&& both.augment_size == of_a.augment_size + of_b.augment_size
        }),
        ({
            let none = sums_of(store, Seq::empty());
            &&& none.scan_bound == 0
            &&& none.scan_size == 0
            &&& none.augment_bound == 0
            &&& none.rare_sum == 0
            &&& none.augment_size == 0
        }),
    decreases b.len(),
{
    if b.len() == 0 {
        assert(a + b =~= a);
    } else {
        law_sums_add_up(store, a, b.drop_last());
        assert((a + b).drop_last() =~= a + b.drop_last());
    }
}

/// The sums that are reported are these; there are none exactly where one of them takes more
/// than 128 bits.
pub proof fn law_reported_sums(
    store: &RoaringAttributeStore,
    routes: &Vec<Route>,
    reported: Option<RoutingSums>,
)
    requires
        call_ensures(sum_routes, (store, routes), reported),
    ensures
        ({
            let limit: int = 0xffff_ffff_ffff_ffff_ffff_ffff_ffff_ffff;
            let sums = sums_of(store@, Seq::new(routes@.len(), |i: int| routes@[i]@));
            &&& reported is None ==> sums.scan_bound > limit || sums.scan_size > limit
                || sums.augment_bound > limit || sums.rare_sum > limit || sums.augment_size > limit
            &&& reported matches Some(found) ==> {
                &&& found.scan_bound == sums.scan_bound
                &&& found.scan_size == sums.scan_size
                &&& found.augment_bound == sums.augment_bound
                &&& found.rare_sum == sums.rare_sum
                &&& found.augment_size == sums.augment_size
            }
        }),
{
    assert(route_views(routes@) =~= Seq::new(routes@.len(), |i: int| routes@[i]@));
}

/// A query that nothing can match is answered by entries with all bits set.
pub proof fn law_answer_without_matches(k: usize, ids: Vec<u32>)
    requires
        call_ensures(unsatisfiable_row, (k,), ids),
    ensures
        ids@.len() == k,
        forall|i: int| 0 <= i < k ==> #[trigger] ids@[i] == 0xffff_ffffu32,
{
}

/// A scan keeps exactly the points that it visits, that match the whole filter and that have a
/// row of data, each once and in ascending order.
pub proof fn law_what_a_scan_keeps(
    store: &RoaringAttributeStore,
    filter: &EncodedFilterExpr,
    candidates: &RoaringTreemap,
    labels: &Vec<u64>,
    nrows: usize,
    kept: Vec<usize>,
    scanned: Vec<usize>,
    id: usize,
)
    requires
        call_ensures(matching_candidates, (store, filter, candidates, nrows), kept),
        call_ensures(scan_candidates, (store, filter, labels, nrows), scanned),
    ensures
        kept@.contains(id) <==> {
            &&& id < nrows
            &&& ids_of(*candidates).contains(id as u64)
            &&& store@.forward[id as u64].len() > 0
            &&& filter@.holds(store@.forward[id as u64])
        },
        scanned@.contains(id) <==> {
            &&& id < nrows
            &&& exists|l: int|
                0 <= l < labels@.len() && (#[trigger] store@.inverse[labels@[l]]).contains(
                    id as u64,
                )
            &&& store@.forward[id as u64].len() > 0
            &&& filter@.holds(store@.forward[id as u64])
        },
        forall|i: int, j: int| 0 <= i < j < kept@.len() ==> kept@[i] < kept@[j],
        forall|i: int, j: int| 0 <= i < j < scanned@.len() ==> scanned@[i] < scanned@[j],
{
}

/// Of what graph search finds those points are kept that match, and those that have a row of
/// data, in their order.
pub proof fn law_what_is_kept_of_graph_search(
    store: &RoaringAttributeStore,
    filter: &EncodedFilterExpr,
    ids: &Vec<u32>,
    nrows: usize,
    kept: Vec<u32>,
    rows: Vec<usize>,
)
    requires
        call_ensures(matching_results, (store, filter, ids), kept),
        call_ensures(found_rows, (ids, nrows), rows),
    ensures
        kept@ == ids@.filter(
            |id: u32|
                store@.forward[id as u64].len() > 0 && filter@.holds(store@.forward[id as u64]),
        ),
        rows@.len() == ids@.filter(|id: u32| id < nrows).len(),
        forall|i: int|
            0 <= i < rows@.len() ==> #[trigger] rows@[i] == ids@.filter(|id: u32| id < nrows)[i],
{
    assert((|id: u32| store@.matches(id as u64, filter@)) =~= (|id: u32|
        store@.forward[id as u64].len() > 0 && filter@.holds(store@.forward[id as u64])));
}

/// The points of some labels are those in one of their posting lists.
pub proof fn law_union_of_lists(store: StoreView, labels: Seq<u64>, id: u64)
    ensures
        store.union_of(labels).contains(id) <==> exists|i: int|
            0 <= i < labels.len() && (#[trigger] store.inverse[labels[i]]).contains(id),
{
}

/// A route seen as plain values has the labels and the sums that it holds.
pub proof fn law_views_of_routes(route: Route)
    ensures
        route is NonCanonical <==> route@ is NonCanonical,
        route is Unsatisfiable <==> route@ is Unsatisfiable,
        route is Graph <==> route@ is Graph,
        route matches Route::BruteForce { labels, upper_bound } ==> route@
            == (RouteView::BruteForce { labels: labels@, upper_bound: upper_bound as nat }),
        route matches Route::Augment { labels, upper_bound, rare_sum } ==> route@
            == (RouteView::Augment {
            labels: labels@,
            upper_bound: upper_bound as nat,
            rare_sum: rare_sum as nat,
        }),
{
}

} // verus!
