//! Where a filtered query goes, said of its clauses and the lengths of posting lists.
use vstd::prelude::*;

use crate::filter_expr::{ASTIdExpr, EncodedFilterExpr};
use crate::routing::{
    affordable, analyze_and_of_ors, cheapest, clauses, flattened, insert_rare, label_lists,
    literal_sum, literals, literals_of_all, rare_labels, rarest_first, route_filter, route_inline,
    route_of, Route, RouteView,
};
use crate::routing_laws::{
    law_cheapest_clause_is_least, lemma_affordable_fits, lemma_rarest_first,
};
use crate::search::FilterStrategy;
use crate::store::RoaringAttributeStore;
use crate::store_model::StoreView;

verus! {

/// A label is a disjunction of itself. Neither a negation nor a conjunction is one of labels.
pub proof fn law_which_filters_are_disjunctions(
    label: u64,
    sub: Box<ASTIdExpr>,
    subs: Vec<ASTIdExpr>,
)
    ensures
        literals(ASTIdExpr::Terminal(label)) == Some(seq![label]),
        literals(ASTIdExpr::Not(sub)) is None,
        literals(ASTIdExpr::And(subs)) is None,
        subs@.len() == 0 ==> literals(ASTIdExpr::Or(subs)) == Some(Seq::<u64>::empty()),
        subs@.len() == 1 ==> literals(ASTIdExpr::Or(subs)) == literals(subs@[0]),
{
    let or = ASTIdExpr::Or(subs);
    assert(literals(or) == literals_of_all((or->Or_0)@));
    if subs@.len() == 1 {
        reveal_with_fuel(literals_of_all, 2);
        assert(subs@.drop_last() =~= Seq::<ASTIdExpr>::empty());
        if let Some(labels) = literals(subs@[0]) {
            assert(Seq::<u64>::empty() + labels =~= labels);
        }
    }
}

/// A disjunction of many parts has the labels of all of them, one part behind the other, and
/// none where a part has none.
pub proof fn law_labels_of_a_disjunction(
    front: Vec<ASTIdExpr>,
    back: Vec<ASTIdExpr>,
    whole: Vec<ASTIdExpr>,
)
    requires
        whole@ == front@ + back@,
    ensures
        literals(ASTIdExpr::Or(whole)) == match (
            literals(ASTIdExpr::Or(front)),
            literals(ASTIdExpr::Or(back)),
        ) {
            (Some(a), Some(b)) => Some(a + b),
            _ => None,
        },
{
    let (f, b, w) = (ASTIdExpr::Or(front), ASTIdExpr::Or(back), ASTIdExpr::Or(whole));
    assert(literals(f) == literals_of_all((f->Or_0)@));
    assert(literals(b) == literals_of_all((b->Or_0)@));
    assert(literals(w) == literals_of_all((w->Or_0)@));
    lemma_literals_join(front@, back@);
}

proof fn lemma_literals_join(front: Seq<ASTIdExpr>, back: Seq<ASTIdExpr>)
    ensures
        literals_of_all(front + back) == match (literals_of_all(front), literals_of_all(back)) {
            (Some(a), Some(b)) => Some(a + b),
            _ => None,
        },
    decreases back.len(),
{
    if back.len() == 0 {
        assert(front + back =~= front);
        if let Some(a) = literals_of_all(front) {
            assert(a + Seq::<u64>::empty() =~= a);
        }
    } else {
        lemma_literals_join(front, back.drop_last());
        assert((front + back).drop_last() =~= front + back.drop_last());
        assert((front + back).last() == back.last());
        if let (Some(a), Some(b), Some(c)) = (
            literals_of_all(front),
            literals_of_all(back.drop_last()),
            literals(back.last()),
        ) {
            assert(a + b + c =~= a + (b + c));
        }
    }
}

/// A conjunction has one clause for each part, which is the labels of that part, and no
/// clauses where a part is no disjunction of labels. Any other filter has one clause.
pub proof fn law_clauses_of_a_filter(filter: ASTIdExpr)
    ensures
        filter matches ASTIdExpr::And(subs) ==> {
            &&& clauses(filter) is Some <==> forall|i: int|
                0 <= i < subs@.len() ==> literals(#[trigger] subs@[i]) is Some
            &&& clauses(filter) matches Some(list) ==> {
                &&& list.len() == subs@.len()
                &&& forall|i: int|
                    0 <= i < list.len() ==> literals(subs@[i]) == Some(#[trigger] list[i])
            }
        },
        !(filter is And) ==> {
            &&& clauses(filter) is Some <==> literals(filter) is Some
            &&& clauses(filter) matches Some(list) ==> list.len() == 1 && literals(filter) == Some(
                list[0],
            )
        },
{
    if let ASTIdExpr::And(subs) = filter {
        if let Some(list) = clauses(filter) {
            assert forall|i: int| 0 <= i < list.len() implies literals(subs@[i]) == Some(
                #[trigger] list[i],
            ) by {
                assert(literals(subs@[i]) is Some);
            }
        }
    }
}

/// The analysis of a filter finds these clauses.
pub proof fn law_analysis_finds_the_clauses(filter: ASTIdExpr, found: Option<Vec<Vec<u64>>>)
    requires
        call_ensures(analyze_and_of_ors, (&filter,), found),
    ensures
        filter matches ASTIdExpr::And(subs) ==> {
            &&& found is Some <==> forall|i: int|
                0 <= i < subs@.len() ==> literals(#[trigger] subs@[i]) is Some
            &&& found matches Some(list) ==> {
                &&& list@.len() == subs@.len()
                &&& forall|i: int|
                    0 <= i < list@.len() ==> literals(subs@[i]) == Some((#[trigger] list@[i])@)
            }
        },
        !(filter is And) ==> {
            &&& found is Some <==> literals(filter) is Some
            &&& found matches Some(list) ==> list@.len() == 1 && literals(filter) == Some(list@[0]@)
        },
        filter is Not ==> found is None,
        filter matches ASTIdExpr::Terminal(label) ==> {
            &&& found matches Some(list)
            &&& list@.len() == 1
            &&& list@[0]@ == seq![label]
        },
{
    law_clauses_of_a_filter(filter);
    if let Some(list) = found {
        let views = label_lists(list@);
        assert(clauses(filter) == Some(views));
        assert forall|i: int| 0 <= i < list@.len() implies views[i] == (#[trigger] list@[i])@ by {}
        if let ASTIdExpr::And(subs) = filter {
            assert forall|i: int| 0 <= i < list@.len() implies literals(subs@[i]) == Some(
                (#[trigger] list@[i])@,
            ) by {
                assert(literals(subs@[i]) == Some(views[i]));
            }
        }
    }
}

/// The lengths of the posting lists of labels add up over the parts of a list.
pub proof fn law_lengths_add_up(store: StoreView, a: Seq<u64>, b: Seq<u64>, label: u64)
    ensures
        literal_sum(store, a + b) == literal_sum(store, a) + literal_sum(store, b),
        literal_sum(store, Seq::<u64>::empty()) == 0,
        literal_sum(store, seq![label]) == store.inverse[label].len(),
    decreases b.len(),
{
    reveal_with_fuel(literal_sum, 2);
    assert(seq![label].drop_last() =~= Seq::<u64>::empty());
    if b.len() == 0 {
        assert(a + b =~= a);
    } else {
        law_lengths_add_up(store, a, b.drop_last(), label);
        assert((a + b).drop_last() =~= a + b.drop_last());
    }
}

/// The cheapest clause is the first of those with the least sum.
pub proof fn law_cheapest_clause_is_the_first_of_the_least(
    store: StoreView,
    list: Seq<Seq<u64>>,
    c: int,
)
    requires
        0 <= c < list.len(),
    ensures
        ({
            let best = cheapest(store, list, list.len() as int);
            &&& 0 <= best < list.len()
            &&& literal_sum(store, list[best]) <= literal_sum(store, list[c])
            &&& c < best ==> literal_sum(store, list[best]) < literal_sum(store, list[c])
        }),
{
    law_cheapest_clause_is_least(store, list, list.len() as int, c);
    lemma_first_of_least(store, list, list.len() as int, c);
}

proof fn lemma_first_of_least(store: StoreView, list: Seq<Seq<u64>>, n: int, c: int)
    requires
        0 <= c < n <= list.len(),
    ensures
        c < cheapest(store, list, n) ==> literal_sum(store, list[cheapest(store, list, n)])
            < literal_sum(store, list[c]),
    decreases n,
{
    if n > 1 {
        if c < n - 1 {
            lemma_first_of_least(store, list, n - 1, c);
            law_cheapest_clause_is_least(store, list, n - 1, c);
        } else {
            law_cheapest_clause_is_least(store, list, n - 1, 0);
        }
    }
}

/// Every label of every clause is a candidate, as often as it occurs in all of them together.
pub proof fn law_every_label_of_every_clause_counts(
    a: Seq<Seq<u64>>,
    b: Seq<Seq<u64>>,
    clause: Seq<u64>,
)
    ensures
        flattened(a + b) == flattened(a) + flattened(b),
        flattened(Seq::<Seq<u64>>::empty()) == Seq::<u64>::empty(),
        flattened(seq![clause]) == clause,
        forall|label: u64| #[trigger]
            flattened(a).contains(label) <==> exists|c: int|
                0 <= c < a.len() && (#[trigger] a[c]).contains(label),
        forall|c: int, label: u64|
            0 <= c < a.len() ==> (#[trigger] a[c]).to_multiset().count(label) <= #[trigger] flattened(
                a,
            ).to_multiset().count(label),
    decreases a.len() + b.len(),
{
    lemma_flattened_join(a, b);
    reveal_with_fuel(flattened, 2);
    assert(seq![clause].drop_last() =~= Seq::<Seq<u64>>::empty());
    assert(Seq::<u64>::empty() + clause =~= clause);
    assert forall|label: u64| #[trigger] flattened(a).contains(label) <==> exists|c: int|
        0 <= c < a.len() && (#[trigger] a[c]).contains(label) by {
        lemma_flattened_contains(a, label);
    }
    assert forall|c: int, label: u64| 0 <= c < a.len() implies (
    #[trigger] a[c]).to_multiset().count(label) <= #[trigger] flattened(a).to_multiset().count(
        label,
    ) by {
        lemma_flattened_count(a, c, label);
    }
}

proof fn lemma_flattened_join(a: Seq<Seq<u64>>, b: Seq<Seq<u64>>)
    ensures
        flattened(a + b) == flattened(a) + flattened(b),
    decreases b.len(),
{
    if b.len() == 0 {
        assert(a + b =~= a);
        assert(flattened(a) + Seq::<u64>::empty() =~= flattened(a));
    } else {
        lemma_flattened_join(a, b.drop_last());
        assert((a + b).drop_last() =~= a + b.drop_last());
        assert(flattened(a) + flattened(b.drop_last()) + b.last() =~= flattened(a) + (flattened(
            b.drop_last(),
        ) + b.last()));
    }
}

proof fn lemma_flattened_contains(list: Seq<Seq<u64>>, label: u64)
    ensures
        flattened(list).contains(label) <==> exists|c: int|
            0 <= c < list.len() && (#[trigger] list[c]).contains(label),
    decreases list.len(),
{
    if list.len() > 0 {
        let rest = list.drop_last();
        let before = flattened(rest);
        let all = flattened(list);
        lemma_flattened_contains(rest, label);
        if all.contains(label) {
            let p = all.index_of(label);
            if p < before.len() {
                assert(before[p] == label);
                let c = choose|c: int| 0 <= c < rest.len() && (#[trigger] rest[c]).contains(label);
                assert(list[c].contains(label));
            } else {
                assert(list.last()[p - before.len()] == label);
                assert(list[list.len() - 1].contains(label));
            }
        }
        if exists|c: int| 0 <= c < list.len() && (#[trigger] list[c]).contains(label) {
            let c = choose|c: int| 0 <= c < list.len() && (#[trigger] list[c]).contains(label);
            if c < rest.len() {
                assert(rest[c].contains(label));
                assert(all[before.index_of(label)] == label);
            } else {
                assert(all[before.len() + list[c].index_of(label)] == label);
            }
        }
    }
}

proof fn lemma_flattened_count(list: Seq<Seq<u64>>, c: int, label: u64)
    requires
        0 <= c < list.len(),
    ensures
        list[c].to_multiset().count(label) <= flattened(list).to_multiset().count(label),
    decreases list.len(),
{
    let rest = list.drop_last();
    vstd::seq_lib::lemma_multiset_commutative(flattened(rest), list.last());
    if c < rest.len() {
        lemma_flattened_count(rest, c, label);
    }
}

/// Sorting from rare to common keeps every label as often as it was there, puts none behind a
/// more common one, and leaves equally common ones in their order.
pub proof fn law_rarest_labels_come_first(store: StoreView, labels: Seq<u64>, length: nat)
    ensures
        ({
            let sorted = rarest_first(store, labels);
            let alike = |label: u64| store.inverse[label].len() == length;
            &&& sorted.to_multiset() == labels.to_multiset()
            &&& forall|i: int, j: int|
                0 <= i < j < sorted.len() ==> store.inverse[sorted[i]].len()
                    <= store.inverse[sorted[j]].len()
            &&& sorted.filter(alike) == labels.filter(alike)
        }),
{
    lemma_rarest_first(store, labels);
    lemma_rarest_kept(store, labels, length);
}

proof fn lemma_rarest_kept(store: StoreView, labels: Seq<u64>, length: nat)
    ensures
        rarest_first(store, labels).to_multiset() == labels.to_multiset(),
        rarest_first(store, labels).filter(
            |label: u64| store.inverse[label].len() == length,
        ) == labels.filter(|label: u64| store.inverse[label].len() == length),
    decreases labels.len(),
{
    broadcast use vstd::seq_lib::group_to_multiset_ensures;

    let alike = |label: u64| store.inverse[label].len() == length;
    if labels.len() > 0 {
        let rest = labels.drop_last();
        lemma_rarest_kept(store, rest, length);
        lemma_insert_kept(store, rarest_first(store, rest), labels.last(), length);
        assert(rest.push(labels.last()) =~= labels);
        rest.lemma_filter_push(labels.last(), alike);
        rarest_first(store, rest).lemma_filter_push(labels.last(), alike);
    }
}

proof fn lemma_insert_kept(store: StoreView, list: Seq<u64>, label: u64, length: nat)
    ensures
        insert_rare(store, list, label).to_multiset() == list.to_multiset().insert(label),
        insert_rare(store, list, label).filter(|x: u64| store.inverse[x].len() == length)
            == list.push(label).filter(|x: u64| store.inverse[x].len() == length),
    decreases list.len(),
{
    broadcast use vstd::seq_lib::group_to_multiset_ensures;

    let alike = |x: u64| store.inverse[x].len() == length;
    if list.len() == 0 || store.inverse[list.last()].len() <= store.inverse[label].len() {
    } else {
        let rest = list.drop_last();
        let inner = insert_rare(store, rest, label);
        lemma_insert_kept(store, rest, label, length);
        assert(rest.push(list.last()) =~= list);
        inner.lemma_filter_push(list.last(), alike);
        rest.lemma_filter_push(label, alike);
        rest.lemma_filter_push(list.last(), alike);
        list.lemma_filter_push(label, alike);
        assert(inner.push(list.last()).to_multiset() =~= list.to_multiset().insert(label));
    }
}

/// The rare labels stay within the budget, and a label of any clause that was passed over
/// would exceed it and is not rarer than any that was taken. Some are taken wherever one label
/// of any clause fits the budget.
pub proof fn law_rare_labels_fill_the_budget(
    store: StoreView,
    list: Seq<Seq<u64>>,
    budget: nat,
    c: int,
    label: u64,
)
    requires
        0 <= c < list.len(),
        list[c].contains(label),
    ensures
        ({
            let rare = rare_labels(store, list, budget);
            &&& literal_sum(store, rare) <= budget
            &&& forall|i: int|
                0 <= i < rare.len() ==> exists|d: int|
                    0 <= d < list.len() && (#[trigger] list[d]).contains(#[trigger] rare[i])
            &&& !rare.contains(label) ==> {
                &&& literal_sum(store, rare) + store.inverse[label].len() > budget
                &&& forall|i: int|
                    0 <= i < rare.len() ==> store.inverse[#[trigger] rare[i]].len()
                        <= store.inverse[label].len()
            }
            &&& store.inverse[label].len() <= budget ==> rare.len() > 0
        }),
{
    let all = flattened(list);
    let sorted = rarest_first(store, all);
    let rare = rare_labels(store, list, budget);
    lemma_affordable_fits(store, sorted, budget);
    lemma_rarest_first(store, all);
    lemma_flattened_contains(list, label);
    assert(sorted.contains(label));
    let n = affordable(store, sorted, budget);
    lemma_next_exceeds(store, sorted, budget);
    let j = sorted.index_of(label);
    if !rare.contains(label) {
        if j < n {
            assert(rare[j] == label);
        }
        assert(sorted.take(n + 1) =~= rare.push(sorted[n]));
        assert(rare.push(sorted[n]) =~= rare + seq![sorted[n]]);
        law_lengths_add_up(store, rare, seq![sorted[n]], sorted[n]);
        assert(store.inverse[sorted[n]].len() <= store.inverse[sorted[j]].len());
        assert forall|i: int| 0 <= i < rare.len() implies store.inverse[#[trigger] rare[i]].len()
            <= store.inverse[label].len() by {
            assert(rare[i] == sorted[i]);
        }
    }
    if rare.len() == 0 {
        assert(!rare.contains(label));
        assert(rare =~= Seq::<u64>::empty());
    }
    assert forall|i: int| 0 <= i < rare.len() implies exists|d: int|
        0 <= d < list.len() && (#[trigger] list[d]).contains(#[trigger] rare[i]) by {
        assert(sorted.contains(sorted[i]));
        lemma_flattened_contains(list, rare[i]);
    }
}

/// What comes behind the labels that the budget pays for would exceed it.
proof fn lemma_next_exceeds(store: StoreView, labels: Seq<u64>, budget: nat)
    ensures
        ({
            let n = affordable(store, labels, budget);
            n < labels.len() ==> literal_sum(store, labels.take(n + 1)) > budget
        }),
    decreases labels.len(),
{
    if labels.len() > 0 && literal_sum(store, labels) > budget {
        let rest = labels.drop_last();
        lemma_next_exceeds(store, rest, budget);
        lemma_affordable_fits(store, rest, budget);
        let n = affordable(store, rest, budget);
        if n < rest.len() {
            assert(rest.take(n + 1) =~= labels.take(n + 1));
        } else {
            assert(labels.take(n + 1) =~= labels);
        }
    }
}

/// A filter goes to graph search unrouted exactly where it has no clauses. With clauses it
/// matches nothing exactly where the lists of one clause are empty, is scanned exactly where
/// those of one clause fit the budget otherwise, and beyond the budget goes to graph search,
/// augmented exactly where that is asked for and the list of one label of any clause fits.
pub proof fn law_which_route_a_filter_takes(
    store: &RoaringAttributeStore,
    filter: &EncodedFilterExpr,
    budget: usize,
    augment: bool,
    route: Route,
)
    requires
        call_ensures(route_filter, (store, filter, budget, augment), route),
    ensures
        route is NonCanonical <==> clauses(filter@) is None,
        clauses(filter@) matches Some(list) ==> {
            let empty = exists|c: int|
                0 <= c < list.len() && literal_sum(store@, #[trigger] list[c]) == 0;
            let small = exists|c: int|
                0 <= c < list.len() && literal_sum(store@, #[trigger] list[c]) <= budget;
            let rare = exists|c: int, label: u64|
                0 <= c < list.len() && (#[trigger] list[c]).contains(label)
                    && #[trigger] store@.inverse[label].len() <= budget;
            &&& route is Unsatisfiable <==> empty
            &&& route is BruteForce <==> !empty && small
            &&& route is Augment <==> list.len() > 0 && !empty && !small && augment && rare
            &&& route is Graph <==> list.len() == 0 || (!empty && !small && !(augment && rare))
        },
{
    if let Some(list) = clauses(filter@) {
        let n = list.len() as int;
        if n > 0 {
            let best = cheapest(store@, list, n);
            law_cheapest_clause_is_least(store@, list, n, 0);
            let least = literal_sum(store@, list[best]);
            assert forall|c: int| 0 <= c < n implies least <= literal_sum(
                store@,
                #[trigger] list[c],
            ) by {
                law_cheapest_clause_is_least(store@, list, n, c);
            }
            let taken = rare_labels(store@, list, budget as nat);
            if exists|c: int, label: u64|
                0 <= c < list.len() && (#[trigger] list[c]).contains(label)
                    && #[trigger] store@.inverse[label].len() <= budget {
                let (c, label) = choose|c: int, label: u64|
                    0 <= c < list.len() && (#[trigger] list[c]).contains(label)
                        && #[trigger] store@.inverse[label].len() <= budget;
                law_rare_labels_fill_the_budget(store@, list, budget as nat, c, label);
            }
            if taken.len() > 0 {
                let sorted = rarest_first(store@, flattened(list));
                lemma_affordable_fits(store@, sorted, budget as nat);
                lemma_rarest_first(store@, flattened(list));
                assert(sorted.contains(sorted[0]));
                assert(taken[0] == sorted[0]);
                lemma_flattened_contains(list, taken[0]);
                let c = choose|c: int|
                    0 <= c < list.len() && (#[trigger] list[c]).contains(taken[0]);
                lemma_first_fits(store@, taken);
                assert(list[c].contains(taken[0]) && store@.inverse[taken[0]].len() <= budget);
            }
        }
    }
}

/// The first of some labels costs no more than all of them.
proof fn lemma_first_fits(store: StoreView, labels: Seq<u64>)
    requires
        labels.len() > 0,
    ensures
        store.inverse[labels[0]].len() <= literal_sum(store, labels),
{
    let rest = labels.skip(1);
    assert(labels =~= seq![labels[0]] + rest);
    law_lengths_add_up(store, seq![labels[0]], rest, labels[0]);
}

/// A scan is of a clause with the least sum, the first of those, and its bound is that sum,
/// within the budget.
pub proof fn law_what_a_routed_scan_visits(
    store: &RoaringAttributeStore,
    filter: &EncodedFilterExpr,
    budget: usize,
    augment: bool,
    labels: Vec<u64>,
    upper_bound: u128,
    c: int,
)
    requires
        call_ensures(
            route_filter,
            (store, filter, budget, augment),
            Route::BruteForce { labels, upper_bound },
        ),
        clauses(filter@) is Some,
        0 <= c < (clauses(filter@)->0).len(),
    ensures
        0 < upper_bound <= budget,
        upper_bound == literal_sum(store@, labels@),
        upper_bound <= literal_sum(store@, (clauses(filter@)->0)[c]),
        exists|best: int|
            0 <= best < (clauses(filter@)->0).len() && #[trigger] (clauses(filter@)->0)[best]
                == labels@ && (c < best ==> upper_bound < literal_sum(
                store@,
                (clauses(filter@)->0)[c],
            )),
{
    let list = clauses(filter@)->0;
    let best = cheapest(store@, list, list.len() as int);
    law_cheapest_clause_is_the_first_of_the_least(store@, list, c);
    let route = Route::BruteForce { labels, upper_bound };
    assert(route@ == RouteView::BruteForce { labels: labels@, upper_bound: upper_bound as nat });
    assert(list[best] == labels@);
}

/// An augmenting scan is of labels of the filter and within the budget. What it passes over,
/// of any clause, would exceed the budget and is not rarer than anything that it takes.
pub proof fn law_what_an_augmenting_scan_visits(
    store: &RoaringAttributeStore,
    filter: &EncodedFilterExpr,
    budget: usize,
    labels: Vec<u64>,
    upper_bound: u128,
    rare_sum: u128,
    c: int,
    label: u64,
)
    requires
        call_ensures(
            route_filter,
            (store, filter, budget, true),
            Route::Augment { labels, upper_bound, rare_sum },
        ),
        clauses(filter@) is Some,
        0 <= c < (clauses(filter@)->0).len(),
        (clauses(filter@)->0)[c].contains(label),
    ensures
        labels@.len() > 0,
        rare_sum == literal_sum(store@, labels@),
        rare_sum <= budget < upper_bound,
        upper_bound <= literal_sum(store@, (clauses(filter@)->0)[c]),
        exists|best: int|
            0 <= best < (clauses(filter@)->0).len() && literal_sum(
                store@,
                #[trigger] (clauses(filter@)->0)[best],
            ) == upper_bound,
        forall|i: int|
            0 <= i < labels@.len() ==> exists|d: int|
                0 <= d < (clauses(filter@)->0).len() && (#[trigger] (clauses(
                    filter@,
                )->0)[d]).contains(#[trigger] labels@[i]),
        !labels@.contains(label) ==> {
            &&& rare_sum + store@.inverse[label].len() > budget
            &&& forall|i: int|
                0 <= i < labels@.len() ==> store@.inverse[#[trigger] labels@[i]].len()
                    <= store@.inverse[label].len()
        },
{
    let list = clauses(filter@)->0;
    let best = cheapest(store@, list, list.len() as int);
    law_cheapest_clause_is_least(store@, list, list.len() as int, c);
    law_rare_labels_fill_the_budget(store@, list, budget as nat, c, label);
    let route = Route::Augment { labels, upper_bound, rare_sum };
    assert(route@ == (RouteView::Augment {
        labels: labels@,
        upper_bound: upper_bound as nat,
        rare_sum: rare_sum as nat,
    }));
    assert(literal_sum(store@, list[best]) == upper_bound);
}

/// Only the hybrid strategies are routed; `InlineBetaBfx` alone augments.
pub proof fn law_which_strategies_are_routed(
    store: &RoaringAttributeStore,
    filter: &EncodedFilterExpr,
    strategy: FilterStrategy,
    threshold: usize,
    route: Route,
    plain: Route,
    augmented: Route,
)
    requires
        call_ensures(route_inline, (store, filter, strategy, threshold), route),
        call_ensures(route_filter, (store, filter, threshold, false), plain),
        call_ensures(route_filter, (store, filter, threshold, true), augmented),
    ensures
        strategy == FilterStrategy::InlineBetaBf ==> route@ == plain@,
        strategy == FilterStrategy::InlineBetaBfx ==> route@ == augmented@,
        strategy != FilterStrategy::InlineBetaBf && strategy != FilterStrategy::InlineBetaBfx
            ==> route is Graph,
        !(plain is Augment),
        !(augmented is Augment) ==> plain@ == augmented@,
        augmented is Augment ==> plain is Graph,
{
}

/// The rare labels are among the labels of the clauses, none more often than there.
pub proof fn law_rare_labels_come_from_the_clauses(
    store: StoreView,
    list: Seq<Seq<u64>>,
    budget: nat,
    label: u64,
)
    ensures
        rare_labels(store, list, budget).to_multiset().count(label) <= flattened(
            list,
        ).to_multiset().count(label),
{
    let sorted = rarest_first(store, flattened(list));
    let n = affordable(store, sorted, budget);
    lemma_affordable_fits(store, sorted, budget);
    lemma_rarest_kept(store, flattened(list), 0);
    vstd::seq_lib::lemma_multiset_commutative(sorted.take(n), sorted.skip(n));
    assert(sorted.take(n) + sorted.skip(n) =~= sorted);
}

/// Filters with the same clauses take the same route, and only a bound above 0 and within the
/// budget leads to a scan.
pub proof fn law_clauses_decide_the_route(
    store: StoreView,
    filter: ASTIdExpr,
    other: ASTIdExpr,
    budget: nat,
    augment: bool,
)
    requires
        clauses(filter) == clauses(other),
    ensures
        route_of(store, filter, budget, augment) == route_of(store, other, budget, augment),
        route_of(store, filter, budget, augment) matches RouteView::BruteForce {
            upper_bound,
            ..
        } ==> 0 < upper_bound <= budget,
{
}

} // verus!
