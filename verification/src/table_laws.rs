//! What the label table tells, said of the fields that it was given.
use vstd::prelude::*;

use crate::ast::ASTExpr;
use crate::filter_expr::{carries, ASTIdExpr};
use crate::inline_labels::{
    clauses_of, labels_of, labels_of_all, wanted, wanted_labels, with_fields, LabelTable,
};
use crate::labels::{field_views, has_value, FieldView, LabelField};
use crate::routing::{clauses, literals};
use crate::values::CompareOp;

verus! {

/// A field becomes known once, behind what was known, and its label is its place.
pub proof fn law_labels_are_places(table: &mut LabelTable, field: &LabelField, label: u64)
    requires
        call_ensures(LabelTable::intern, (table, field), label),
    ensures
        ({
            let known = (field.name@, field.value@);
            &&& old(table)@.contains(known) ==> final(table)@ == old(table)@
            &&& !old(table)@.contains(known) ==> final(table)@ == old(table)@.push(known)
            &&& label < final(table)@.len()
            &&& final(table)@[label as int] == known
        }),
{
}

/// Fields become known one after the other. One that is known, and `doc_id`, adds nothing.
pub proof fn law_fields_become_known_in_order(
    known: Seq<FieldView>,
    a: Seq<FieldView>,
    b: Seq<FieldView>,
    field: FieldView,
)
    ensures
        with_fields(known, Seq::<FieldView>::empty()) == known,
        with_fields(known, a + b) == with_fields(with_fields(known, a), b),
        with_fields(known, seq![field]) == if field.0 == "doc_id"@ || known.contains(field) {
            known
        } else {
            known.push(field)
        },
    decreases b.len(),
{
    reveal_with_fuel(with_fields, 2);
    assert(seq![field].drop_last() =~= Seq::<FieldView>::empty());
    if b.len() == 0 {
        assert(a + b =~= a);
    } else {
        law_fields_become_known_in_order(known, a, b.drop_last(), field);
        assert((a + b).drop_last() =~= a + b.drop_last());
        assert((a + b).last() == b.last());
    }
}

/// The labels of a document are the places of its fields, each once; `doc_id` has none. What
/// was known stays, and only fields of the document become known.
pub proof fn law_labels_of_a_document(
    table: &mut LabelTable,
    fields: &Vec<LabelField>,
    labels: Vec<u64>,
    label: u64,
)
    requires
        call_ensures(LabelTable::document_labels, (table, fields), labels),
    ensures
        old(table)@.is_prefix_of(final(table)@),
        labels@.no_duplicates(),
        labels@.contains(label) <==> label < final(table)@.len() && final(table)@[label as int].0
            != "doc_id"@ && exists|i: int|
            0 <= i < fields@.len() && (#[trigger] fields@[i]).name@ == final(
                table)@[label as int].0 && fields@[i].value@ == final(table)@[label as int].1,
        forall|i: int|
            0 <= i < fields@.len() && (#[trigger] fields@[i]).name@ != "doc_id"@ ==> final(
                table)@.contains((fields@[i].name@, fields@[i].value@)),
        old(table)@.len() <= label < final(table)@.len() ==> labels@.contains(label),
{
    let views = field_views(fields@);
    let known = final(table)@;
    final(table).lemma_wf();
    if labels@.contains(label) {
        let k = labels@.index_of(label);
        assert(labels@[k] < known.len());
    }
    if label < known.len() {
        let f = known[label as int];
        assert(labels@.contains(label as int as u64) <==> has_value(views, f.0, f.1));
        if has_value(views, f.0, f.1) {
            let i = views.index_of(f);
            assert(views[i] == f);
            assert(fields@[i].name@ == f.0);
        }
        if f.0 != "doc_id"@ && exists|i: int|
            0 <= i < fields@.len() && (#[trigger] fields@[i]).name@ == f.0 && fields@[i].value@
                == f.1 {
            let i = choose|i: int|
                0 <= i < fields@.len() && (#[trigger] fields@[i]).name@ == f.0
                    && fields@[i].value@ == f.1;
            assert(views[i] == f);
        }
        if label >= old(table)@.len() {
            lemma_new_is_field(old(table)@, views, label as int);
        }
    }
    assert forall|i: int|
        0 <= i < fields@.len() && (#[trigger] fields@[i]).name@ != "doc_id"@ implies known.contains(
        (fields@[i].name@, fields@[i].value@),
    ) by {
        let f = (fields@[i].name@, fields@[i].value@);
        assert(views[i] == f);
        assert(has_value(views, f.0, f.1));
    }
}

/// What became known is a field of the document.
proof fn lemma_new_is_field(known: Seq<FieldView>, fields: Seq<FieldView>, i: int)
    requires
        known.len() <= i < with_fields(known, fields).len(),
    ensures
        ({
            let f = with_fields(known, fields)[i];
            has_value(fields, f.0, f.1)
        }),
    decreases fields.len(),
{
    if fields.len() > 0 {
        let rest = fields.drop_last();
        let before = with_fields(known, rest);
        let f = with_fields(known, fields)[i];
        if i < before.len() {
            lemma_new_is_field(known, rest, i);
            assert(rest.contains((f.0, f.1)));
            assert(fields[rest.index_of((f.0, f.1))] == (f.0, f.1));
        } else {
            assert(fields[fields.len() - 1] == f);
        }
    }
}

/// A comparison asks for the labels of the field whose values make it hold, in ascending
/// order.
pub proof fn law_labels_of_a_comparison(
    known: Seq<FieldView>,
    name: Seq<char>,
    op: CompareOp,
    label: u64,
)
    requires
        known.len() <= 0xffff_ffff_ffff_ffff,
    ensures
        ({
            let labels = wanted_labels(known, name, op, known.len() as int);
            &&& labels.contains(label) <==> label < known.len() && known[label as int].0 == name
                && op.holds(Some(known[label as int].1))
            &&& forall|i: int, j: int| 0 <= i < j < labels.len() ==> labels[i] < labels[j]
        }),
{
    lemma_wanted(known, name, op, known.len() as int, label);
}

proof fn lemma_wanted(known: Seq<FieldView>, name: Seq<char>, op: CompareOp, n: int, label: u64)
    requires
        0 <= n <= 0xffff_ffff_ffff_ffff,
    ensures
        ({
            let labels = wanted_labels(known, name, op, n);
            &&& labels.contains(label) <==> label < n && wanted(known, name, op, label as int)
            &&& forall|i: int| 0 <= i < labels.len() ==> #[trigger] labels[i] < n
            &&& forall|i: int, j: int| 0 <= i < j < labels.len() ==> labels[i] < labels[j]
        }),
    decreases n,
{
    let keep = |l: u64| wanted(known, name, op, l as int);
    let places = Seq::new(n as nat, |l: int| l as u64);
    reveal(Seq::filter);
    if n > 0 {
        lemma_wanted(known, name, op, n - 1, label);
        let before = Seq::new((n - 1) as nat, |l: int| l as u64);
        let last = (n - 1) as u64;
        assert(places =~= before.push(last));
        before.lemma_filter_push(last, keep);
        let earlier = wanted_labels(known, name, op, n - 1);
        let labels = wanted_labels(known, name, op, n);
        if keep(last) {
            assert(labels == earlier.push(last));
            assert(labels[earlier.len() as int] == last);
            if earlier.contains(label) {
                assert(labels[earlier.index_of(label)] == label);
            }
            if labels.contains(label) && label != last {
                assert(earlier[labels.index_of(label)] == label);
            }
        } else {
            assert(labels == earlier);
        }
    }
}

/// Which expressions ask for one of some labels: a comparison for its own, a disjunction for
/// those of its parts, one part behind the other, and no negation or conjunction.
pub proof fn law_labels_of_an_expression(
    field: String,
    op: CompareOp,
    sub: Box<ASTExpr>,
    front: Vec<ASTExpr>,
    back: Vec<ASTExpr>,
    whole: Vec<ASTExpr>,
    known: Seq<FieldView>,
)
    requires
        whole@ == front@ + back@,
    ensures
        labels_of(ASTExpr::Compare { field, op }, known) == Some(
            wanted_labels(known, field@, op, known.len() as int),
        ),
        labels_of(ASTExpr::Not(sub), known) is None,
        labels_of(ASTExpr::And(whole), known) is None,
        labels_of(ASTExpr::Or(whole), known) == match (
            labels_of(ASTExpr::Or(front), known),
            labels_of(ASTExpr::Or(back), known),
        ) {
            (Some(a), Some(b)) => Some(a + b),
            _ => None,
        },
        front@.len() == 0 ==> labels_of(ASTExpr::Or(front), known) == Some(Seq::<u64>::empty()),
        front@.len() == 1 ==> labels_of(ASTExpr::Or(front), known) == labels_of(front@[0], known),
{
    let compare = ASTExpr::Compare { field, op };
    assert(labels_of(compare, known) == Some(
        wanted_labels(known, (compare->field)@, compare->op, known.len() as int),
    ));
    let (f, b, w) = (ASTExpr::Or(front), ASTExpr::Or(back), ASTExpr::Or(whole));
    assert(labels_of(f, known) == labels_of_all((f->Or_0)@, known));
    assert(labels_of(b, known) == labels_of_all((b->Or_0)@, known));
    assert(labels_of(w, known) == labels_of_all((w->Or_0)@, known));
    lemma_labels_join(front@, back@, known);
    if front@.len() == 1 {
        reveal_with_fuel(labels_of_all, 2);
        assert(front@.drop_last() =~= Seq::<ASTExpr>::empty());
        if let Some(labels) = labels_of(front@[0], known) {
            assert(Seq::<u64>::empty() + labels =~= labels);
        }
    }
}

proof fn lemma_labels_join(front: Seq<ASTExpr>, back: Seq<ASTExpr>, known: Seq<FieldView>)
    ensures
        labels_of_all(front + back, known) == match (
            labels_of_all(front, known),
            labels_of_all(back, known),
        ) {
            (Some(a), Some(b)) => Some(a + b),
            _ => None,
        },
    decreases back.len(),
{
    if back.len() == 0 {
        assert(front + back =~= front);
        if let Some(a) = labels_of_all(front, known) {
            assert(a + Seq::<u64>::empty() =~= a);
        }
    } else {
        lemma_labels_join(front, back.drop_last(), known);
        assert((front + back).drop_last() =~= front + back.drop_last());
        assert((front + back).last() == back.last());
        if let (Some(a), Some(b), Some(c)) = (
            labels_of_all(front, known),
            labels_of_all(back.drop_last(), known),
            labels_of(back.last(), known),
        ) {
            assert(a + b + c =~= a + (b + c));
        }
    }
}

/// A conjunction has one clause for each part, which is what that part asks for, and no
/// clauses where a part asks for something else. Any other expression has one clause.
pub proof fn law_clauses_of_an_expression(expr: ASTExpr, known: Seq<FieldView>)
    ensures
        expr matches ASTExpr::And(subs) ==> {
            &&& clauses_of(expr, known) is Some <==> forall|i: int|
                0 <= i < subs@.len() ==> labels_of(#[trigger] subs@[i], known) is Some
            &&& clauses_of(expr, known) matches Some(list) ==> {
                &&& list.len() == subs@.len()
                &&& forall|i: int|
                    0 <= i < list.len() ==> labels_of(subs@[i], known) == Some(#[trigger] list[i])
            }
        },
        !(expr is And) ==> {
            &&& clauses_of(expr, known) is Some <==> labels_of(expr, known) is Some
            &&& clauses_of(expr, known) matches Some(list) ==> list.len() == 1 && labels_of(
                expr,
                known,
            ) == Some(list[0])
        },
{
    if let ASTExpr::And(subs) = expr {
        if let Some(list) = clauses_of(expr, known) {
            assert forall|i: int| 0 <= i < list.len() implies labels_of(subs@[i], known) == Some(
                #[trigger] list[i],
            ) by {
                assert(labels_of(subs@[i], known) is Some);
            }
        }
    }
}

/// An encoded comparison asks for one of the labels of its field whose values make it hold,
/// and is a single clause of these in ascending order.
pub proof fn law_encoded_comparison(
    table: &LabelTable,
    field: String,
    op: CompareOp,
    filter: ASTIdExpr,
    labels: Seq<u32>,
    label: u64,
)
    requires
        call_ensures(LabelTable::encode_filter, (table, &ASTExpr::Compare { field, op }), filter),
        table@.len() <= 0xffff_ffff_ffff_ffff,
    ensures
        literals(filter) matches Some(list) && {
            &&& list.contains(label) <==> label < table@.len() && table@[label as int].0 == field@
                && op.holds(Some(table@[label as int].1))
            &&& forall|i: int, j: int| 0 <= i < j < list.len() ==> list[i] < list[j]
            &&& clauses(filter) == Some(seq![list])
        },
        filter.holds(labels) <==> exists|l: int|
            {
                &&& 0 <= l < table@.len()
                &&& (#[trigger] table@[l]).0 == field@
                &&& op.holds(Some(table@[l].1))
                &&& carries(labels, l as u64)
            },
{
    let expr = ASTExpr::Compare { field, op };
    assert(labels_of(expr, table@) == Some(
        wanted_labels(table@, (expr->field)@, expr->op, table@.len() as int),
    ));
    law_labels_of_a_comparison(table@, field@, op, label);
    law_clauses_of_an_expression(expr, table@);
    if let Some(list) = clauses(filter) {
        assert(list =~= seq![literals(filter)->0]);
    }
    crate::inline_labels::lemma_comparison(field, op, table@, labels);
    if filter.holds(labels) {
        let l = choose|l: int|
            0 <= l < table@.len() && #[trigger] wanted(table@, field@, op, l) && carries(
                labels,
                l as u64,
            );
        assert(table@[l].0 == field@);
    }
    if exists|l: int|
        {
            &&& 0 <= l < table@.len()
            &&& (#[trigger] table@[l]).0 == field@
            &&& op.holds(Some(table@[l].1))
            &&& carries(labels, l as u64)
        } {
        let l = choose|l: int|
            {
                &&& 0 <= l < table@.len()
                &&& (#[trigger] table@[l]).0 == field@
                &&& op.holds(Some(table@[l].1))
                &&& carries(labels, l as u64)
            };
        assert(wanted(table@, field@, op, l));
    }
}

/// An encoded negation holds where what it negates does not, and has no clauses.
pub proof fn law_encoded_negation(
    table: &LabelTable,
    sub: Box<ASTExpr>,
    filter: ASTIdExpr,
    of_sub: ASTIdExpr,
    labels: Seq<u32>,
)
    requires
        call_ensures(LabelTable::encode_filter, (table, &ASTExpr::Not(sub)), filter),
        call_ensures(LabelTable::encode_filter, (table, &*sub), of_sub),
    ensures
        filter.holds(labels) <==> !of_sub.holds(labels),
        clauses(filter) is None,
        literals(filter) is None,
{
}

/// An encoded conjunction holds where all of its parts do, and has the labels of each part as
/// its clauses.
pub proof fn law_encoded_conjunction(
    table: &LabelTable,
    subs: Vec<ASTExpr>,
    filter: ASTIdExpr,
    parts: Seq<ASTIdExpr>,
    labels: Seq<u32>,
)
    requires
        call_ensures(LabelTable::encode_filter, (table, &ASTExpr::And(subs)), filter),
        parts.len() == subs@.len(),
        forall|i: int|
            0 <= i < subs@.len() ==> call_ensures(
                LabelTable::encode_filter,
                (table, &subs@[i]),
                #[trigger] parts[i],
            ),
    ensures
        filter.holds(labels) <==> forall|i: int|
            0 <= i < parts.len() ==> (#[trigger] parts[i]).holds(labels),
        clauses(filter) is Some <==> forall|i: int|
            0 <= i < parts.len() ==> literals(#[trigger] parts[i]) is Some,
        clauses(filter) matches Some(list) ==> {
            &&& list.len() == parts.len()
            &&& forall|i: int|
                0 <= i < parts.len() ==> literals(#[trigger] parts[i]) == Some(list[i])
        },
{
    let expr = ASTExpr::And(subs);
    let inner = expr->And_0;
    law_clauses_of_an_expression(expr, table@);
    assert forall|i: int| 0 <= i < parts.len() implies literals(#[trigger] parts[i]) == labels_of(
        subs@[i],
        table@,
    ) && parts[i].holds(labels) == crate::inline_labels::accepts_labels(
        inner@[i],
        table@,
        labels,
    ) by {
        assert(call_ensures(LabelTable::encode_filter, (table, &subs@[i]), parts[i]));
    }
    if filter.holds(labels) {
        assert forall|i: int| 0 <= i < parts.len() implies (#[trigger] parts[i]).holds(labels) by {
            assert(crate::inline_labels::accepts_labels(inner@[i], table@, labels));
        }
    }
    if forall|i: int| 0 <= i < parts.len() ==> (#[trigger] parts[i]).holds(labels) {
        assert forall|i: int| 0 <= i < inner@.len() implies crate::inline_labels::accepts_labels(
            #[trigger] inner@[i],
            table@,
            labels,
        ) by {
            assert(parts[i].holds(labels));
        }
    }
    if forall|i: int| 0 <= i < parts.len() ==> literals(#[trigger] parts[i]) is Some {
        assert forall|i: int| 0 <= i < subs@.len() implies labels_of(
            #[trigger] subs@[i],
            table@,
        ) is Some by {
            assert(literals(parts[i]) is Some);
        }
    }
    if clauses(filter) is Some {
        assert forall|i: int| 0 <= i < parts.len() implies literals(
            #[trigger] parts[i],
        ) is Some by {
            assert(labels_of(subs@[i], table@) is Some);
        }
        let list = clauses(filter)->0;
        assert forall|i: int| 0 <= i < parts.len() implies literals(#[trigger] parts[i]) == Some(
            list[i],
        ) by {
            assert(labels_of(subs@[i], table@) == Some(list[i]));
        }
    }
}

/// An encoded disjunction holds where one of its parts does.
pub proof fn law_encoded_disjunction(
    table: &LabelTable,
    subs: Vec<ASTExpr>,
    filter: ASTIdExpr,
    parts: Seq<ASTIdExpr>,
    labels: Seq<u32>,
)
    requires
        call_ensures(LabelTable::encode_filter, (table, &ASTExpr::Or(subs)), filter),
        parts.len() == subs@.len(),
        forall|i: int|
            0 <= i < subs@.len() ==> call_ensures(
                LabelTable::encode_filter,
                (table, &subs@[i]),
                #[trigger] parts[i],
            ),
    ensures
        filter.holds(labels) <==> exists|i: int|
            0 <= i < parts.len() && (#[trigger] parts[i]).holds(labels),
        literals(filter) == labels_of_all(subs@, table@),
{
    let expr = ASTExpr::Or(subs);
    let inner = expr->Or_0;
    assert(labels_of(expr, table@) == labels_of_all(inner@, table@));
    assert forall|i: int| 0 <= i < parts.len() implies (#[trigger] parts[i]).holds(labels)
        == crate::inline_labels::accepts_labels(inner@[i], table@, labels) by {
        assert(call_ensures(LabelTable::encode_filter, (table, &subs@[i]), parts[i]));
    }
    if filter.holds(labels) {
        let i = choose|i: int|
            0 <= i < inner@.len() && crate::inline_labels::accepts_labels(
                #[trigger] inner@[i],
                table@,
                labels,
            );
        assert(parts[i].holds(labels));
    }
    if exists|i: int| 0 <= i < parts.len() && (#[trigger] parts[i]).holds(labels) {
        let i = choose|i: int| 0 <= i < parts.len() && (#[trigger] parts[i]).holds(labels);
        assert(crate::inline_labels::accepts_labels(inner@[i], table@, labels));
        assert(exists|j: int|
            0 <= j < inner@.len() && crate::inline_labels::accepts_labels(
                #[trigger] inner@[j],
                table@,
                labels,
            ));
    }
}

} // verus!
