//! What routing by posting lists promises.
use vstd::prelude::*;

use crate::distance::rank;
use crate::filter_expr::{carries, lemma_or_holds, ASTIdExpr};
use crate::knn::{nearest, Neighbor};
use crate::knn_laws::{distinct_ids, law_nothing_nearer_is_left_out};
use crate::routing::{
    affordable, cheapest, clauses, first_of_each, flattened, insert_rare, literal_sum, literals,
    literals_of_all, rare_labels, rarest_first, route_of, RouteView,
};
use crate::store_model::{finite_lists, StoreView};

verus! {

/// A point with these labels carries one of a clause.
pub open spec fn meets(labels: Seq<u32>, clause: Seq<u64>) -> bool {
    exists|i: int| 0 <= i < clause.len() && carries(labels, #[trigger] clause[i])
}

/// A conjunction of disjunctions holds for a point exactly where the point carries a label
/// of each clause.
pub proof fn law_clauses_mean_the_filter(filter: ASTIdExpr, labels: Seq<u32>)
    requires
        clauses(filter) is Some,
    ensures
        filter.holds(labels) <==> forall|c: int|
            0 <= c < (clauses(filter)->0).len() ==> meets(labels, #[trigger] (clauses(filter)->0)[c]),
{
    let list = clauses(filter)->0;
    match filter {
        ASTIdExpr::And(subs) => {
            assert forall|c: int| 0 <= c < list.len() implies subs@[c].holds(labels) == meets(
                labels,
                #[trigger] list[c],
            ) by {
                assert(literals(subs@[c]) is Some);
                lemma_literals(subs@[c], labels);
            }
            if filter.holds(labels) {
                assert forall|c: int| 0 <= c < list.len() implies meets(
                    labels,
                    #[trigger] list[c],
                ) by {
                    assert(subs@[c].holds(labels));
                }
            } else {
                let c = choose|c: int|
                    0 <= c < subs@.len() && !(#[trigger] subs@[c]).holds(labels);
                assert(!meets(labels, list[c]));
            }
        },
        _ => {
            lemma_literals(filter, labels);
            assert(list[0] == literals(filter)->0);
        },
    }
}

/// A point that matches the filter is in the union of the posting lists of each clause, so a
/// scan of any one clause meets every matching point.
pub proof fn law_every_clause_covers_the_matches(
    store: StoreView,
    filter: ASTIdExpr,
    c: int,
    id: u64,
)
    requires
        store.consistent(),
        clauses(filter) is Some,
        0 <= c < (clauses(filter)->0).len(),
        store.matches(id, filter),
    ensures
        store.union_of((clauses(filter)->0)[c]).contains(id),
{
    let clause = (clauses(filter)->0)[c];
    let labels = store.forward[id];
    law_clauses_mean_the_filter(filter, labels);
    assert(meets(labels, clause));
    let i = choose|i: int| 0 <= i < clause.len() && carries(labels, #[trigger] clause[i]);
    assert(store.inverse[clause[i]].contains(id));
}

/// No more points carry one of some labels than the posting lists are long together.
pub proof fn law_union_is_no_longer_than_its_lists(store: StoreView, labels: Seq<u64>)
    requires
        finite_lists(store),
    ensures
        store.union_of(labels).finite(),
        store.union_of(labels).len() <= literal_sum(store, labels),
    decreases labels.len(),
{
    if labels.len() == 0 {
        assert(store.union_of(labels) =~= Set::<u64>::empty());
    } else {
        let rest = labels.drop_last();
        law_union_is_no_longer_than_its_lists(store, rest);
        let last = store.inverse[labels.last()];
        assert(store.union_of(labels) =~= store.union_of(rest).union(last)) by {
            assert forall|id: u64| store.union_of(labels).contains(id) <==> store.union_of(
                rest,
            ).contains(id) || last.contains(id) by {
                if store.union_of(rest).contains(id) {
                    let i = choose|i: int|
                        0 <= i < rest.len() && (#[trigger] store.inverse[rest[i]]).contains(id);
                    assert(store.inverse[labels[i]].contains(id));
                }
                if last.contains(id) {
                    assert(store.inverse[labels[labels.len() - 1]].contains(id));
                }
                if store.union_of(labels).contains(id) && !last.contains(id) {
                    let i = choose|i: int|
                        0 <= i < labels.len() && (#[trigger] store.inverse[labels[i]]).contains(id);
                    assert(store.inverse[rest[i]].contains(id));
                }
            }
        }
        vstd::set_lib::lemma_len_union(store.union_of(rest), last);
    }
}

/// The sum of any clause bounds the number of points that match the filter.
pub proof fn law_clause_bounds_the_matches(store: StoreView, filter: ASTIdExpr, c: int)
    requires
        store.consistent(),
        finite_lists(store),
        clauses(filter) is Some,
        0 <= c < (clauses(filter)->0).len(),
    ensures
        ({
            let matching = Set::new(|id: u64| store.matches(id, filter));
            matching.finite() && matching.len() <= literal_sum(store, (clauses(filter)->0)[c])
        }),
{
    let clause = (clauses(filter)->0)[c];
    let matching = Set::new(|id: u64| store.matches(id, filter));
    law_union_is_no_longer_than_its_lists(store, clause);
    assert forall|id: u64| matching.contains(id) implies store.union_of(clause).contains(id) by {
        law_every_clause_covers_the_matches(store, filter, c, id);
    }
    vstd::set_lib::lemma_len_subset(matching, store.union_of(clause));
}

/// The cheapest clause has the least sum.
pub proof fn law_cheapest_clause_is_least(store: StoreView, list: Seq<Seq<u64>>, n: int, c: int)
    requires
        0 <= c < n <= list.len(),
    ensures
        0 <= cheapest(store, list, n) < n,
        literal_sum(store, list[cheapest(store, list, n)]) <= literal_sum(store, list[c]),
    decreases n,
{
    if n > 1 {
        if c < n - 1 {
            law_cheapest_clause_is_least(store, list, n - 1, c);
        } else {
            law_cheapest_clause_is_least(store, list, n - 1, 0);
        }
    }
}

/// A query that is routed as unsatisfiable is matched by no point.
pub proof fn law_unsatisfiable_matches_nothing(
    store: StoreView,
    filter: ASTIdExpr,
    budget: nat,
    augment: bool,
    id: u64,
)
    requires
        store.consistent(),
        finite_lists(store),
        route_of(store, filter, budget, augment) is Unsatisfiable,
    ensures
        !store.matches(id, filter),
{
    let list = clauses(filter)->0;
    let c = cheapest(store, list, list.len() as int);
    law_cheapest_clause_is_least(store, list, list.len() as int, 0);
    law_clause_bounds_the_matches(store, filter, c);
    let matching = Set::new(|id: u64| store.matches(id, filter));
    if store.matches(id, filter) {
        assert(matching.contains(id));
        assert(matching =~= Set::<u64>::empty());
    }
}

/// A query that is routed to a scan has its every match among the scanned points, and no
/// more points are scanned than the bound says, which is within the budget.
pub proof fn law_scan_meets_every_match(
    store: StoreView,
    filter: ASTIdExpr,
    budget: nat,
    augment: bool,
    id: u64,
)
    requires
        store.consistent(),
        finite_lists(store),
        route_of(store, filter, budget, augment) is BruteForce,
    ensures
        route_of(store, filter, budget, augment) matches RouteView::BruteForce {
            labels,
            upper_bound,
        } && {
            &&& store.matches(id, filter) ==> store.union_of(labels).contains(id)
            &&& store.union_of(labels).finite()
            &&& store.union_of(labels).len() <= upper_bound <= budget
        },
{
    let list = clauses(filter)->0;
    let c = cheapest(store, list, list.len() as int);
    law_cheapest_clause_is_least(store, list, list.len() as int, 0);
    law_union_is_no_longer_than_its_lists(store, list[c]);
    if store.matches(id, filter) {
        law_every_clause_covers_the_matches(store, filter, c, id);
    }
}

/// What is left of a routed scan after each point was checked against the whole filter is
/// exactly the points that match it, as far as they have a row of data.
pub proof fn law_routed_scan_is_exact(
    store: StoreView,
    filter: ASTIdExpr,
    budget: nat,
    augment: bool,
    nrows: usize,
    points: Seq<usize>,
    id: usize,
)
    requires
        store.consistent(),
        finite_lists(store),
        route_of(store, filter, budget, augment) is BruteForce,
        points.contains(id) <==> {
            &&& id < nrows
            &&& store.union_of(route_of(store, filter, budget, augment)->BruteForce_labels).contains(
                id as u64,
            )
            &&& store.matches(id as u64, filter)
        },
    ensures
        points.contains(id) <==> id < nrows && store.matches(id as u64, filter),
{
    law_scan_meets_every_match(store, filter, budget, augment, id as u64);
}

/// The scan that augments graph search stays within the budget, and every match that
/// carries a rare label is among the scanned points.
pub proof fn law_augmenting_scan(
    store: StoreView,
    filter: ASTIdExpr,
    budget: nat,
    id: u64,
    i: int,
)
    requires
        store.consistent(),
        finite_lists(store),
        route_of(store, filter, budget, true) is Augment,
    ensures
        route_of(store, filter, budget, true) matches RouteView::Augment {
            labels,
            upper_bound,
            rare_sum,
        } && {
            &&& labels.len() > 0
            &&& upper_bound > budget
            &&& store.union_of(labels).finite()
            &&& store.union_of(labels).len() <= rare_sum <= budget
            &&& 0 <= i < labels.len() && carries(store.forward[id], labels[i])
                ==> store.union_of(labels).contains(id)
        },
{
    let list = clauses(filter)->0;
    let rare = rare_labels(store, list, budget);
    let sorted = rarest_first(store, flattened(list));
    lemma_affordable_fits(store, sorted, budget);
    law_union_is_no_longer_than_its_lists(store, rare);
    if 0 <= i < rare.len() && carries(store.forward[id], rare[i]) {
        assert(store.inverse[rare[i]].contains(id));
    }
}

/// The rare labels are labels of the filter, and no label that was passed over is rarer.
pub proof fn law_rare_labels_are_the_rarest(
    store: StoreView,
    list: Seq<Seq<u64>>,
    budget: nat,
    i: int,
)
    requires
        0 <= i < rare_labels(store, list, budget).len(),
    ensures
        flattened(list).contains(rare_labels(store, list, budget)[i]),
        forall|label: u64|
            #![trigger store.inverse[label]]
            flattened(list).contains(label) && !rare_labels(store, list, budget).contains(label)
                ==> store.inverse[rare_labels(store, list, budget)[i]].len()
                <= store.inverse[label].len(),
{
    let all = flattened(list);
    let sorted = rarest_first(store, all);
    let rare = rare_labels(store, list, budget);
    lemma_affordable_fits(store, sorted, budget);
    lemma_rarest_first(store, all);
    assert(sorted.contains(sorted[i]));
    assert forall|label: u64|
        #![trigger store.inverse[label]]
        all.contains(label) && !rare.contains(label) implies store.inverse[rare[i]].len()
        <= store.inverse[label].len() by {
        assert(sorted.contains(label));
        let j = sorted.index_of(label);
        if j < rare.len() {
            assert(rare[j] == label);
        }
        assert(sorted[i] == rare[i]);
    }
}

/// No id comes twice out of a merge.
pub proof fn law_merge_has_distinct_ids(points: Seq<Neighbor>)
    ensures
        distinct_ids(first_of_each(points)),
    decreases points.len(),
{
    if points.len() > 0 {
        law_merge_has_distinct_ids(points.drop_last());
    }
}

/// A merge leaves out a point of either list only in favour of others that are no farther:
/// every id of the lists stands, with the distance of its first mention, among the points
/// that the nearest are taken from.
pub proof fn law_merge_keeps_the_nearest(
    graph: Seq<Neighbor>,
    scan: Seq<Neighbor>,
    k: nat,
    i: int,
    j: int,
)
    requires
        0 <= i < (graph + scan).len(),
        0 <= j < nearest(first_of_each(graph + scan), k as int).len(),
    ensures
        ({
            let found = nearest(first_of_each(graph + scan), k as int);
            exists|m: int|
                0 <= m <= i && (#[trigger] (graph + scan)[m]).id == (graph + scan)[i].id && (
                found.contains((graph + scan)[m]) || rank(found[j].distance) <= rank(
                    (graph + scan)[m].distance,
                ))
        }),
{
    broadcast use vstd::seq_lib::group_to_multiset_ensures;

    let all = graph + scan;
    let points = first_of_each(all);
    let found = nearest(points, k as int);
    lemma_first_mention(all, i);
    let m = choose|m: int|
        0 <= m <= i && (#[trigger] all[m]).id == all[i].id && points.contains(all[m]);
    assert(points.to_multiset().count(all[m]) > 0);
    if !found.contains(all[m]) {
        assert(found.to_multiset().count(all[m]) == 0);
        law_nothing_nearer_is_left_out(points, k, all[m], j);
    }
    assert((graph + scan)[m] == all[m]);
}

/// The first mention of every id is kept.
pub(crate) proof fn lemma_first_mention(all: Seq<Neighbor>, i: int)
    requires
        0 <= i < all.len(),
    ensures
        exists|m: int|
            0 <= m <= i && (#[trigger] all[m]).id == all[i].id && first_of_each(all).contains(
                all[m],
            ),
    decreases all.len(),
{
    let rest = all.drop_last();
    let before = first_of_each(rest);
    let points = first_of_each(all);
    assert forall|x: Neighbor| before.contains(x) implies points.contains(x) by {
        let p = before.index_of(x);
        assert(points[p] == x);
    }
    if i < rest.len() {
        lemma_first_mention(rest, i);
        let m = choose|m: int|
            0 <= m <= i && (#[trigger] rest[m]).id == rest[i].id && before.contains(rest[m]);
        assert(all[m].id == all[i].id && points.contains(all[m]));
    } else if exists|p: int| 0 <= p < before.len() && (#[trigger] before[p]).id == all.last().id {
        let p = choose|p: int| 0 <= p < before.len() && (#[trigger] before[p]).id == all.last().id;
        lemma_kept_is_mentioned(rest, p);
        let m = choose|m: int| 0 <= m < rest.len() && #[trigger] rest[m] == before[p];
        assert(before.contains(rest[m]));
        assert(all[m].id == all[i].id && points.contains(all[m]));
    } else {
        assert(points.last() == all[i]);
        assert(points.contains(all[i]));
    }
}

pub(crate) proof fn lemma_kept_is_mentioned(points: Seq<Neighbor>, p: int)
    requires
        0 <= p < first_of_each(points).len(),
    ensures
        exists|m: int| 0 <= m < points.len() && #[trigger] points[m] == first_of_each(points)[p],
    decreases points.len(),
{
    let rest = points.drop_last();
    let before = first_of_each(rest);
    if p < before.len() {
        lemma_kept_is_mentioned(rest, p);
        let m = choose|m: int| 0 <= m < rest.len() && #[trigger] rest[m] == before[p];
        assert(points[m] == first_of_each(points)[p]);
    } else {
        assert(points[points.len() - 1] == first_of_each(points)[p]);
    }
}

/// A disjunction of labels holds for a point exactly where the point carries one of them.
proof fn lemma_literals(expr: ASTIdExpr, labels: Seq<u32>)
    requires
        literals(expr) is Some,
    ensures
        expr.holds(labels) <==> meets(labels, literals(expr)->0),
    decreases expr,
{
    match expr {
        ASTIdExpr::Terminal(label) => {
            let list = literals(expr)->0;
            assert(list[0] == label);
        },
        ASTIdExpr::Or(subs) => {
            lemma_or_holds(subs, labels);
            lemma_literals_of_all(subs@, labels);
        },
        _ => {},
    }
}

proof fn lemma_literals_of_all(subs: Seq<ASTIdExpr>, labels: Seq<u32>)
    requires
        literals_of_all(subs) is Some,
    ensures
        (exists|i: int| 0 <= i < subs.len() && (#[trigger] subs[i]).holds(labels)) <==> meets(
            labels,
            literals_of_all(subs)->0,
        ),
    decreases subs,
{
    if subs.len() > 0 {
        let rest = subs.drop_last();
        let before = literals_of_all(rest)->0;
        let last = literals(subs.last())->0;
        let all = literals_of_all(subs)->0;
        lemma_literals_of_all(rest, labels);
        lemma_literals(subs.last(), labels);
        if meets(labels, all) {
            let i = choose|i: int| 0 <= i < all.len() && carries(labels, #[trigger] all[i]);
            if i < before.len() {
                assert(carries(labels, before[i]));
                let j = choose|j: int| 0 <= j < rest.len() && (#[trigger] rest[j]).holds(labels);
                assert(subs[j].holds(labels));
            } else {
                assert(carries(labels, last[i - before.len()]));
                assert(subs[subs.len() - 1].holds(labels));
            }
        }
        if exists|i: int| 0 <= i < subs.len() && (#[trigger] subs[i]).holds(labels) {
            let i = choose|i: int| 0 <= i < subs.len() && (#[trigger] subs[i]).holds(labels);
            if i < rest.len() {
                assert(rest[i].holds(labels));
                let j = choose|j: int|
                    0 <= j < before.len() && carries(labels, #[trigger] before[j]);
                assert(carries(labels, all[j]));
            } else {
                let j = choose|j: int| 0 <= j < last.len() && carries(labels, #[trigger] last[j]);
                assert(all[before.len() + j] == last[j]);
            }
        }
    }
}

pub(crate) proof fn lemma_affordable_fits(store: StoreView, labels: Seq<u64>, budget: nat)
    ensures
        0 <= affordable(store, labels, budget) <= labels.len(),
        literal_sum(store, labels.take(affordable(store, labels, budget))) <= budget,
    decreases labels.len(),
{
    if labels.len() == 0 || literal_sum(store, labels) <= budget {
        assert(labels.take(labels.len() as int) =~= labels);
    } else {
        let rest = labels.drop_last();
        lemma_affordable_fits(store, rest, budget);
        let n = affordable(store, rest, budget);
        assert(rest.take(n) =~= labels.take(n));
    }
}

/// Sorting from rare to common keeps the labels and puts them in order.
pub(crate) proof fn lemma_rarest_first(store: StoreView, labels: Seq<u64>)
    ensures
        forall|label: u64| #[trigger]
            rarest_first(store, labels).contains(label) <==> labels.contains(label),
        forall|i: int, j: int|
            0 <= i < j < rarest_first(store, labels).len() ==> store.inverse[rarest_first(
                store,
                labels,
            )[i]].len() <= store.inverse[rarest_first(store, labels)[j]].len(),
    decreases labels.len(),
{
    if labels.len() > 0 {
        let rest = labels.drop_last();
        lemma_rarest_first(store, rest);
        lemma_insert_rare(store, rarest_first(store, rest), labels.last());
        assert forall|label: u64| labels.contains(label) <==> rest.contains(label) || label
            == labels.last() by {
            if labels.contains(label) && label != labels.last() {
                assert(rest[labels.index_of(label)] == label);
            }
            if rest.contains(label) {
                assert(labels[rest.index_of(label)] == label);
            }
            assert(labels[labels.len() - 1] == labels.last());
        }
    }
}

proof fn lemma_insert_rare(store: StoreView, list: Seq<u64>, label: u64)
    requires
        forall|i: int, j: int|
            0 <= i < j < list.len() ==> store.inverse[list[i]].len() <= store.inverse[list[j]].len(),
    ensures
        forall|x: u64| #[trigger]
            insert_rare(store, list, label).contains(x) <==> list.contains(x) || x == label,
        forall|i: int, j: int|
            0 <= i < j < insert_rare(store, list, label).len() ==> store.inverse[insert_rare(
                store,
                list,
                label,
            )[i]].len() <= store.inverse[insert_rare(store, list, label)[j]].len(),
    decreases list.len(),
{
    let after = insert_rare(store, list, label);
    if list.len() == 0 || store.inverse[list.last()].len() <= store.inverse[label].len() {
        assert forall|x: u64| #[trigger] after.contains(x) <==> list.contains(x) || x == label by {
            if list.contains(x) {
                assert(after[list.index_of(x)] == x);
            }
            assert(after[list.len() as int] == label);
        }
    } else {
        let rest = list.drop_last();
        let inner = insert_rare(store, rest, label);
        lemma_insert_rare(store, rest, label);
        assert forall|i: int| 0 <= i < inner.len() implies store.inverse[#[trigger] inner[i]].len()
            <= store.inverse[list.last()].len() by {
            assert(inner.contains(inner[i]));
            if inner[i] != label {
                let j = rest.index_of(inner[i]);
                assert(list[j] == inner[i]);
            }
        }
        assert forall|x: u64| #[trigger] after.contains(x) <==> list.contains(x) || x == label by {
            if after.contains(x) {
                let p = after.index_of(x);
                if p < inner.len() {
                    assert(inner.contains(x));
                    if x != label {
                        assert(list[rest.index_of(x)] == x);
                    }
                } else {
                    assert(list[list.len() - 1] == x);
                }
            }
            if list.contains(x) || x == label {
                if x == label || x != list.last() {
                    if x != label {
                        assert(rest[list.index_of(x)] == x);
                    }
                    assert(inner.contains(x));
                    assert(after[inner.index_of(x)] == x);
                } else {
                    assert(after[inner.len() as int] == x);
                }
            }
        }
    }
}

} // verus!
