//! Inline evaluation over label ids answers as evaluation over fields does.
use vstd::prelude::*;

use crate::ast::ASTExpr;
use crate::filter_expr::{carries, ASTIdExpr};
use crate::inline_labels::{
    accepts_labels, carries_one, clauses_of, lists_document, wanted, wanted_labels, with_fields,
};
use crate::label_laws::{
    accepts, indexed, law_index_selects_what_documents_accept, lemma_comparison, lemma_disjunction,
};
use crate::labels::{doc_id_name, has_value, FieldView, InvertedIndexView};
use crate::load_laws::{lemma_loaded_exists, lists_any};
use crate::routing::{cheapest, clauses, literal_sum, route_of, route_of_clauses, RouteView};
use crate::routing_laws::law_cheapest_clause_is_least;
use crate::store_laws::lemma_loaded_forward;
use crate::store_model::{loaded_forward, StoreView};
use crate::values::{CompareOp, ValueView};

verus! {

/// The labels of a point are those of the fields of a document, all of them known.
pub open spec fn labels_of_document(
    labels: Seq<u32>,
    known: Seq<FieldView>,
    fields: Seq<FieldView>,
) -> bool {
    &&& forall|l: int|
        0 <= l < known.len() ==> (carries(labels, l as u64) <==> has_value(
            fields,
            (#[trigger] known[l]).0,
            known[l].1,
        ))
    &&& forall|name: Seq<char>, value: ValueView| #[trigger]
        has_value(fields, name, value) ==> known.contains((name, value))
}

/// An expression holds for the labels of a document exactly where it holds for its fields.
pub proof fn law_labels_answer_as_fields(
    expr: ASTExpr,
    known: Seq<FieldView>,
    fields: Seq<FieldView>,
    labels: Seq<u32>,
)
    requires
        labels_of_document(labels, known, fields),
    ensures
        accepts_labels(expr, known, labels) == accepts(expr, fields),
    decreases expr,
{
    match expr {
        ASTExpr::And(subs) => {
            assert forall|k: int| 0 <= k < subs@.len() implies accepts_labels(
                #[trigger] subs@[k],
                known,
                labels,
            ) == accepts(subs@[k], fields) by {
                law_labels_answer_as_fields(subs@[k], known, fields, labels);
            }
        },
        ASTExpr::Or(subs) => {
            assert forall|k: int| 0 <= k < subs@.len() implies accepts_labels(
                #[trigger] subs@[k],
                known,
                labels,
            ) == accepts(subs@[k], fields) by {
                law_labels_answer_as_fields(subs@[k], known, fields, labels);
            }
            lemma_disjunction(subs, InvertedIndexView::empty(), 0, 0, fields);
            if accepts(expr, fields) {
                let k = choose|k: int|
                    0 <= k < subs@.len() && accepts(#[trigger] subs@[k], fields);
                assert(accepts_labels(subs@[k], known, labels));
                let inner = expr->Or_0;
                assert(exists|j: int|
                    0 <= j < inner@.len() && accepts_labels(#[trigger] inner@[j], known, labels));
            }
            if accepts_labels(expr, known, labels) {
                let k = choose|k: int|
                    0 <= k < subs@.len() && accepts_labels(#[trigger] subs@[k], known, labels);
                assert(accepts(subs@[k], fields));
            }
        },
        ASTExpr::Not(sub) => {
            law_labels_answer_as_fields(*sub, known, fields, labels);
        },
        ASTExpr::Compare { field, op } => {
            lemma_comparison(field, op, InvertedIndexView::empty(), 0, 0, fields);
            lemma_compared_labels(known, fields, labels, field@, op);
        },
    }
}

/// The bitmap of a query and inline evaluation agree on every document.
pub proof fn law_bitmap_and_labels_agree(
    docs: Seq<(usize, Seq<FieldView>)>,
    expr: ASTExpr,
    i: int,
    known: Seq<FieldView>,
    labels: Seq<u32>,
)
    requires
        docs.len() <= usize::MAX,
        forall|a: int, b: int| 0 <= a < b < docs.len() ==> docs[a].0 != docs[b].0,
        forall|a: int| 0 <= a < docs.len() ==> (#[trigger] docs[a]).0 < docs.len(),
        0 <= i < docs.len(),
        labels_of_document(labels, known, docs[i].1),
    ensures
        expr.selects(indexed(docs), docs.len() as usize, docs[i].0) <==> accepts_labels(
            expr,
            known,
            labels,
        ),
{
    law_index_selects_what_documents_accept(docs, expr, i);
    law_labels_answer_as_fields(expr, known, docs[i].1, labels);
}

/// What is known after documents that came one after the other.
pub open spec fn known_of(all: Seq<Seq<FieldView>>) -> Seq<FieldView>
    decreases all.len(),
{
    if all.len() == 0 {
        Seq::empty()
    } else {
        with_fields(known_of(all.drop_last()), all.last())
    }
}

/// The labels of a document stay its labels when more becomes known.
pub proof fn law_labels_outlast_growth(
    labels: Seq<u64>,
    known: Seq<FieldView>,
    grown: Seq<FieldView>,
    fields: Seq<FieldView>,
)
    requires
        lists_document(labels, known, fields),
        known.is_prefix_of(grown),
        grown.no_duplicates(),
        grown.len() <= u64::MAX,
    ensures
        lists_document(labels, grown, fields),
{
    assert forall|l: int| 0 <= l < grown.len() implies (labels.contains(l as u64) <==> has_value(
        fields,
        (#[trigger] grown[l]).0,
        grown[l].1,
    )) by {
        if l < known.len() {
            assert(known[l] == grown[l]);
        } else {
            if labels.contains(l as u64) {
                let k = labels.index_of(l as u64);
                assert(labels[k] < known.len());
            }
            if has_value(fields, grown[l].0, grown[l].1) {
                assert(known.contains(grown[l]));
                let j = known.index_of(grown[l]);
                assert(grown[j] == grown[l]);
            }
        }
    }
    assert forall|f: FieldView| has_value(fields, f.0, f.1) implies #[trigger] grown.contains(
        f,
    ) by {
        assert(known.contains(f));
        assert(grown[known.index_of(f)] == f);
    }
}

/// After a load of documents with distinct ids, whose lists name exactly the entries of a
/// table that each document has, every point carries the labels of its document.
pub proof fn law_loaded_points_carry_their_documents(
    docs: Seq<(u64, Seq<u64>)>,
    known: Seq<FieldView>,
    all: Seq<Seq<FieldView>>,
    i: int,
)
    requires
        forall|a: int, b: int| 0 <= a < b < docs.len() ==> docs[a].0 != docs[b].0,
        known.no_duplicates(),
        known.len() <= 0x1_0000_0000,
        all.len() == docs.len(),
        forall|a: int|
            0 <= a < docs.len() ==> lists_document((#[trigger] docs[a]).1, known, all[a]),
        0 <= i < docs.len(),
    ensures
        labels_of_document(loaded_forward(docs)[docs[i].0], known, all[i]),
{
    let labels = loaded_forward(docs)[docs[i].0];
    let texts = Seq::new(known.len(), |l: int| Seq::<char>::empty());
    assert forall|a: int, k: int| 0 <= a < docs.len() && 0 <= k < docs[a].1.len() implies
        #[trigger] docs[a].1[k] < texts.len() by {
        assert(lists_document(docs[a].1, known, all[a]));
    }
    assert(lists_document(docs[i].1, known, all[i]));
    assert forall|l: int| 0 <= l < known.len() implies (carries(labels, l as u64) <==> has_value(
        all[i],
        (#[trigger] known[l]).0,
        known[l].1,
    )) by {
        lemma_loaded_forward(texts, docs, l as u64, docs[i].0);
        if carries(labels, l as u64) {
            let a = choose|a: int|
                0 <= a < docs.len() && (#[trigger] docs[a]).0 == docs[i].0 && docs[a].1.contains(
                    l as u64,
                );
            assert(a == i);
        }
    }
    assert forall|name: Seq<char>, value: ValueView| #[trigger]
        has_value(all[i], name, value) implies known.contains((name, value)) by {
        let f = (name, value);
        assert(has_value(all[i], f.0, f.1));
    }
}

/// Inline evaluation of an encoded expression on loaded documents: a point matches exactly
/// where the expression holds for the fields of its document. A document without a field is
/// not in the store, and its point matches no filter, not even one that its fields accept.
/// The lists are those that the documents got as they came, with what was known by then.
pub proof fn law_inline_search_answers_as_fields(
    attributes: Seq<Seq<char>>,
    docs: Seq<(u64, Seq<u64>)>,
    all: Seq<Seq<FieldView>>,
    expr: ASTExpr,
    filter: ASTIdExpr,
    i: int,
)
    requires
        forall|a: int, b: int| 0 <= a < b < docs.len() ==> docs[a].0 != docs[b].0,
        known_of(all).len() <= 0x1_0000_0000,
        all.len() == docs.len(),
        forall|a: int|
            0 <= a < docs.len() ==> lists_document(
                (#[trigger] docs[a]).1,
                known_of(all.take(a + 1)),
                all[a],
            ),
        forall|labels: Seq<u32>| #[trigger]
            filter.holds(labels) == accepts_labels(expr, known_of(all), labels),
        0 <= i < docs.len(),
    ensures
        StoreView::loaded(attributes, docs, attributes.len() as int).matches(docs[i].0, filter)
            <==> (exists|f: FieldView| #[trigger] all[i].contains(f) && f.0 != doc_id_name())
            && accepts(expr, all[i]),
{
    let known = known_of(all);
    let id = docs[i].0;
    let labels = loaded_forward(docs)[id];
    lemma_known_distinct(all);
    assert forall|a: int| 0 <= a < docs.len() implies lists_document(
        (#[trigger] docs[a]).1,
        known,
        all[a],
    ) by {
        lemma_known_grows(all, a + 1);
        law_labels_outlast_growth(docs[a].1, known_of(all.take(a + 1)), known, all[a]);
    }
    law_loaded_points_carry_their_documents(docs, known, all, i);
    law_labels_answer_as_fields(expr, known, all[i], labels);
    lemma_loaded_exists(docs, id);
    assert(lists_document(docs[i].1, known, all[i]));
    if lists_any(docs, id) {
        let a = choose|a: int|
            0 <= a < docs.len() && (#[trigger] docs[a]).0 == id && docs[a].1.len() > 0;
        assert(a == i);
        let label = docs[i].1[0];
        assert(docs[i].1.contains(label));
        let f = known[label as int];
        assert(has_value(all[i], f.0, f.1));
        assert(all[i].contains(f) && f.0 != doc_id_name());
    }
    if exists|f: FieldView| #[trigger] all[i].contains(f) && f.0 != doc_id_name() {
        let f = choose|f: FieldView| #[trigger] all[i].contains(f) && f.0 != doc_id_name();
        assert(has_value(all[i], f.0, f.1));
        assert(known.contains(f));
        let l = known.index_of(f);
        assert(known[l] == f);
        assert(docs[i].1.contains(l as u64));
        assert(docs[i].0 == id && docs[i].1.len() > 0);
    }
}

/// The bitmap of a query and inline search of loaded documents agree on every document that
/// has a field.
pub proof fn law_bitmap_and_inline_search_agree(
    attributes: Seq<Seq<char>>,
    docs: Seq<(u64, Seq<u64>)>,
    all: Seq<Seq<FieldView>>,
    expr: ASTExpr,
    filter: ASTIdExpr,
    i: int,
)
    requires
        docs.len() <= usize::MAX,
        forall|a: int, b: int| 0 <= a < b < docs.len() ==> docs[a].0 != docs[b].0,
        forall|a: int| 0 <= a < docs.len() ==> (#[trigger] docs[a]).0 < docs.len(),
        known_of(all).len() <= 0x1_0000_0000,
        all.len() == docs.len(),
        forall|a: int|
            0 <= a < docs.len() ==> lists_document(
                (#[trigger] docs[a]).1,
                known_of(all.take(a + 1)),
                all[a],
            ),
        forall|labels: Seq<u32>| #[trigger]
            filter.holds(labels) == accepts_labels(expr, known_of(all), labels),
        0 <= i < docs.len(),
        exists|f: FieldView| #[trigger] all[i].contains(f) && f.0 != doc_id_name(),
    ensures
        StoreView::loaded(attributes, docs, attributes.len() as int).matches(docs[i].0, filter)
            <==> expr.selects(
            indexed(Seq::new(docs.len(), |a: int| (docs[a].0 as usize, all[a]))),
            docs.len() as usize,
            docs[i].0 as usize,
        ),
{
    let base = Seq::new(docs.len(), |a: int| (docs[a].0 as usize, all[a]));
    assert forall|a: int, b: int| 0 <= a < b < base.len() implies base[a].0 != base[b].0 by {
        assert(docs[a].0 != docs[b].0);
        assert(docs[a].0 < docs.len() && docs[b].0 < docs.len());
    }
    law_index_selects_what_documents_accept(base, expr, i);
    law_inline_search_answers_as_fields(attributes, docs, all, expr, filter, i);
}

/// A query goes where the clauses of its expression say. One that is no conjunction of
/// comparisons and disjunctions of them goes to graph search; one with a comparison or
/// disjunction for which no known value stands matches nothing.
pub proof fn law_expression_decides_the_route(
    store: StoreView,
    known: Seq<FieldView>,
    expr: ASTExpr,
    filter: ASTIdExpr,
    budget: nat,
    augment: bool,
)
    requires
        clauses(filter) == clauses_of(expr, known),
    ensures
        route_of(store, filter, budget, augment) == route_of_clauses(
            store,
            clauses_of(expr, known),
            budget,
            augment,
        ),
        clauses_of(expr, known) is None ==> route_of(store, filter, budget, augment)
            == RouteView::NonCanonical,
        clauses_of(expr, known) matches Some(list) ==> (exists|c: int|
            0 <= c < list.len() && (#[trigger] list[c]).len() == 0) ==> route_of(
            store,
            filter,
            budget,
            augment,
        ) == RouteView::Unsatisfiable,
{
    if let Some(list) = clauses_of(expr, known) {
        if exists|c: int| 0 <= c < list.len() && (#[trigger] list[c]).len() == 0 {
            let c = choose|c: int| 0 <= c < list.len() && (#[trigger] list[c]).len() == 0;
            law_cheapest_clause_is_least(store, list, list.len() as int, c);
            assert(literal_sum(store, list[c]) == 0);
            assert(literal_sum(store, list[cheapest(store, list, list.len() as int)]) == 0);
        }
    }
}

/// A comparison that holds for no known value matches nothing.
pub proof fn law_unknown_value_is_unsatisfiable(
    store: StoreView,
    known: Seq<FieldView>,
    field: String,
    op: CompareOp,
    filter: ASTIdExpr,
    budget: nat,
    augment: bool,
)
    requires
        clauses(filter) == clauses_of(ASTExpr::Compare { field, op }, known),
        forall|l: int| 0 <= l < known.len() ==> !#[trigger] wanted(known, field@, op, l),
        known.len() <= u64::MAX,
    ensures
        route_of(store, filter, budget, augment) == RouteView::Unsatisfiable,
{
    let expr = ASTExpr::Compare { field, op };
    let labels = wanted_labels(known, field@, op, known.len() as int);
    assert(clauses_of(expr, known) == Some(seq![labels]));
    let places = Seq::new(known.len(), |l: int| l as u64);
    let keep = |l: u64| wanted(known, field@, op, l as int);
    if labels.len() > 0 {
        places.lemma_filter_contains_rev(keep, labels[0]);
        places.lemma_filter_pred(keep, 0);
        let l = places.index_of(labels[0]);
        assert(wanted(known, field@, op, l));
    }
    assert(seq![labels][0].len() == 0);
    law_expression_decides_the_route(store, known, expr, filter, budget, augment);
}

/// No field becomes known twice.
proof fn lemma_fields_distinct(known: Seq<FieldView>, fields: Seq<FieldView>)
    requires
        known.no_duplicates(),
    ensures
        with_fields(known, fields).no_duplicates(),
        known.is_prefix_of(with_fields(known, fields)),
    decreases fields.len(),
{
    if fields.len() > 0 {
        lemma_fields_distinct(known, fields.drop_last());
        let before = with_fields(known, fields.drop_last());
        let after = with_fields(known, fields);
        if after != before {
            assert forall|a: int, b: int| 0 <= a < b < after.len() implies after[a] != after[b] by {
                if b == before.len() {
                    assert(before.contains(before[a]));
                }
            }
        }
    }
}

proof fn lemma_known_distinct(all: Seq<Seq<FieldView>>)
    ensures
        known_of(all).no_duplicates(),
    decreases all.len(),
{
    if all.len() > 0 {
        lemma_known_distinct(all.drop_last());
        lemma_fields_distinct(known_of(all.drop_last()), all.last());
    }
}

/// What was known after the first documents keeps its place.
proof fn lemma_known_grows(all: Seq<Seq<FieldView>>, n: int)
    requires
        0 <= n <= all.len(),
    ensures
        known_of(all.take(n)).is_prefix_of(known_of(all)),
    decreases all.len(),
{
    if n == all.len() {
        assert(all.take(n) =~= all);
    } else {
        let rest = all.drop_last();
        lemma_known_grows(rest, n);
        assert(rest.take(n) =~= all.take(n));
        lemma_known_distinct(rest);
        lemma_fields_distinct(known_of(rest), all.last());
    }
}

proof fn lemma_compared_labels(
    known: Seq<FieldView>,
    fields: Seq<FieldView>,
    labels: Seq<u32>,
    name: Seq<char>,
    op: CompareOp,
)
    requires
        labels_of_document(labels, known, fields),
    ensures
        carries_one(known, name, op, labels) <==> exists|value: ValueView| #[trigger]
            has_value(fields, name, value) && op.holds(Some(value)),
{
    if carries_one(known, name, op, labels) {
        let l = choose|l: int|
            0 <= l < known.len() && #[trigger] wanted(known, name, op, l) && carries(
                labels,
                l as u64,
            );
        assert(has_value(fields, known[l].0, known[l].1));
    }
    if exists|value: ValueView| #[trigger]
        has_value(fields, name, value) && op.holds(Some(value)) {
        let value = choose|value: ValueView| #[trigger]
            has_value(fields, name, value) && op.holds(Some(value));
        assert(known.contains((name, value)));
        let l = known.index_of((name, value));
        assert(known[l] == (name, value));
        assert(wanted(known, name, op, l) && carries(labels, l as u64));
    }
}

} // verus!
