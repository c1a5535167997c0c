//! Laws of the filter bitmaps.
use vstd::prelude::*;

use crate::ast::ASTExpr;
use crate::labels::{has_value, FieldView, InvertedIndexView};
use crate::values::{equal, units_of, CompareOp, LabelValue, ValueView};

verus! {

/// The index of documents that were added one after the other.
pub open spec fn indexed(docs: Seq<(usize, Seq<FieldView>)>) -> InvertedIndexView
    decreases docs.len(),
{
    if docs.len() == 0 {
        InvertedIndexView::empty()
    } else {
        indexed(docs.drop_last()).add_document(docs.last().0, docs.last().1)
    }
}

/// The expression holds for one document: every part of a conjunction, some part of a
/// disjunction, not what is negated, and a comparison where it holds for a value that the
/// document has under the field.
pub open spec fn accepts(expr: ASTExpr, fields: Seq<FieldView>) -> bool
    decreases expr,
{
    match expr {
        ASTExpr::And(subs) => forall|i: int|
            0 <= i < subs@.len() ==> accepts(#[trigger] subs@[i], fields),
        ASTExpr::Or(subs) => exists|i: int|
            0 <= i < subs@.len() && accepts(#[trigger] subs@[i], fields),
        ASTExpr::Not(sub) => !accepts(*sub, fields),
        ASTExpr::Compare { field, op } => exists|value: ValueView| #[trigger]
            has_value(fields, field@, value) && op.holds(Some(value)),
    }
}

/// The index gives a document a value under a field exactly where the document has it.
pub proof fn law_postings_are_values(
    docs: Seq<(usize, Seq<FieldView>)>,
    name: Seq<char>,
    value: ValueView,
    id: usize,
)
    ensures
        indexed(docs).num_base == docs.len(),
        indexed(docs).documents(name, value).contains(id) <==> exists|i: int|
            0 <= i < docs.len() && (#[trigger] docs[i]).0 == id && has_value(
                docs[i].1,
                name,
                value,
            ),
    decreases docs.len(),
{
    if docs.len() > 0 {
        let rest = docs.drop_last();
        let last = docs.len() - 1;
        law_postings_are_values(rest, name, value, id);
        assert(docs[last] == docs.last());
        assert(indexed(docs).documents(name, value).contains(id) <==> (indexed(rest).documents(
            name,
            value,
        ).contains(id) || (docs.last().0 == id && has_value(docs.last().1, name, value))));
        if indexed(rest).documents(name, value).contains(id) {
            let i = choose|i: int|
                0 <= i < rest.len() && (#[trigger] rest[i]).0 == id && has_value(
                    rest[i].1,
                    name,
                    value,
                );
            assert(docs[i] == rest[i]);
        }
        assert forall|i: int|
            0 <= i < docs.len() && (#[trigger] docs[i]).0 == id && has_value(
                docs[i].1,
                name,
                value,
            ) implies indexed(docs).documents(name, value).contains(id) by {
            if i < last {
                assert(rest[i] == docs[i]);
            }
        }
    }
}

/// The set operations on the inverted index select the same documents as evaluating
/// the expression against every document, where the documents are numbered from 0
/// without gaps or repetitions.
pub proof fn law_index_selects_what_documents_accept(
    docs: Seq<(usize, Seq<FieldView>)>,
    expr: ASTExpr,
    i: int,
)
    requires
        docs.len() <= usize::MAX,
        forall|a: int, b: int| 0 <= a < b < docs.len() ==> docs[a].0 != docs[b].0,
        forall|a: int| 0 <= a < docs.len() ==> (#[trigger] docs[a]).0 < docs.len(),
        0 <= i < docs.len(),
    ensures
        expr.selects(indexed(docs), docs.len() as usize, docs[i].0) <==> accepts(
            expr,
            docs[i].1,
        ),
    decreases expr,
{
    let index = indexed(docs);
    let universe = docs.len() as usize;
    let (id, fields) = docs[i];
    match expr {
        ASTExpr::And(subs) => {
            assert forall|k: int| 0 <= k < subs@.len() implies (#[trigger] subs@[k]).selects(
                index,
                universe,
                id,
            ) == accepts(subs@[k], fields) by {
                law_index_selects_what_documents_accept(docs, subs@[k], i);
            }
        },
        ASTExpr::Or(subs) => {
            assert forall|k: int| 0 <= k < subs@.len() implies (#[trigger] subs@[k]).selects(
                index,
                universe,
                id,
            ) == accepts(subs@[k], fields) by {
                law_index_selects_what_documents_accept(docs, subs@[k], i);
            }
            lemma_disjunction(subs, index, universe, id, fields);
            if expr.selects(index, universe, id) {
                let k = choose|k: int|
                    0 <= k < subs@.len() && (#[trigger] subs@[k]).selects(index, universe, id);
                assert(accepts(subs@[k], fields));
            }
            if accepts(expr, fields) {
                let k = choose|k: int| 0 <= k < subs@.len() && accepts(#[trigger] subs@[k], fields);
                assert(subs@[k].selects(index, universe, id));
            }
        },
        ASTExpr::Not(sub) => {
            law_index_selects_what_documents_accept(docs, *sub, i);
        },
        ASTExpr::Compare { field, op } => {
            assert forall|value: ValueView|
                #![trigger index.posting(field@).contains((value, id))]
                #![trigger has_value(fields, field@, value)]
                index.posting(field@).contains((value, id)) <==> has_value(
                    fields,
                    field@,
                    value,
                ) by {
                law_postings_are_values(docs, field@, value, id);
                assert(index.documents(field@, value).contains(id) <==> index.posting(
                    field@,
                ).contains((value, id)));
                assert(docs[i].0 == id);
            }
            lemma_comparison(field, op, index, universe, id, fields);
        },
    }
}

/// What a disjunction means.
pub(crate) proof fn lemma_disjunction(
    subs: Vec<ASTExpr>,
    index: InvertedIndexView,
    universe: usize,
    id: usize,
    fields: Seq<FieldView>,
)
    ensures
        ASTExpr::Or(subs).selects(index, universe, id) == exists|k: int|
            0 <= k < subs@.len() && (#[trigger] subs@[k]).selects(index, universe, id),
        accepts(ASTExpr::Or(subs), fields) == exists|k: int|
            0 <= k < subs@.len() && accepts(#[trigger] subs@[k], fields),
{
    let expr = ASTExpr::Or(subs);
    if expr.selects(index, universe, id) {
        let k = choose|k: int|
            0 <= k < subs@.len() && (#[trigger] subs@[k]).selects(index, universe, id);
        assert(0 <= k < subs@.len() && subs@[k].selects(index, universe, id));
    }
    if exists|k: int| 0 <= k < subs@.len() && (#[trigger] subs@[k]).selects(index, universe, id) {
        let k = choose|k: int|
            0 <= k < subs@.len() && (#[trigger] subs@[k]).selects(index, universe, id);
        let parts = expr->Or_0;
        assert(parts@[k].selects(index, universe, id));
        assert(exists|j: int|
            0 <= j < parts@.len() && (#[trigger] parts@[j]).selects(index, universe, id));
        assert(expr.selects(index, universe, id));
    }
    if accepts(expr, fields) {
        let k = choose|k: int| 0 <= k < subs@.len() && accepts(#[trigger] subs@[k], fields);
        assert(0 <= k < subs@.len() && accepts(subs@[k], fields));
    }
    if exists|k: int| 0 <= k < subs@.len() && accepts(#[trigger] subs@[k], fields) {
        let k = choose|k: int| 0 <= k < subs@.len() && accepts(#[trigger] subs@[k], fields);
        let parts = expr->Or_0;
        assert(accepts(parts@[k], fields));
        assert(exists|j: int| 0 <= j < parts@.len() && accepts(#[trigger] parts@[j], fields));
        assert(accepts(expr, fields));
    }
}

/// What a comparison means.
pub(crate) proof fn lemma_comparison(
    field: String,
    op: CompareOp,
    index: InvertedIndexView,
    universe: usize,
    id: usize,
    fields: Seq<FieldView>,
)
    ensures
        (ASTExpr::Compare { field, op }).selects(index, universe, id) == exists|value: ValueView|
            #[trigger]
            index.posting(field@).contains((value, id)) && op.holds(Some(value)),
        accepts(ASTExpr::Compare { field, op }, fields) == exists|value: ValueView| #[trigger]
            has_value(fields, field@, value) && op.holds(Some(value)),
{
    let expr = ASTExpr::Compare { field, op };
    let name = expr->field@;
    let comparison = expr->op;
    if exists|value: ValueView| #[trigger]
        index.posting(field@).contains((value, id)) && op.holds(Some(value)) {
        assert(exists|value: ValueView| #[trigger]
            index.posting(name).contains((value, id)) && comparison.holds(Some(value)));
        assert(expr.selects(index, universe, id));
    }
    if exists|value: ValueView| #[trigger]
        has_value(fields, field@, value) && op.holds(Some(value)) {
        assert(exists|value: ValueView| #[trigger]
            has_value(fields, name, value) && comparison.holds(Some(value)));
        assert(accepts(expr, fields));
    }
}

/// Nothing beyond the documents is selected.
pub proof fn law_only_documents_are_selected(
    docs: Seq<(usize, Seq<FieldView>)>,
    expr: ASTExpr,
    id: usize,
)
    requires
        docs.len() <= usize::MAX,
        forall|a: int| 0 <= a < docs.len() ==> (#[trigger] docs[a]).0 < docs.len(),
        expr.selects(indexed(docs), docs.len() as usize, id),
    ensures
        id < docs.len(),
    decreases expr,
{
    let index = indexed(docs);
    let universe = docs.len() as usize;
    match expr {
        ASTExpr::And(subs) => {
            if subs@.len() > 0 {
                assert(subs@[0].selects(index, universe, id));
                law_only_documents_are_selected(docs, subs@[0], id);
            }
        },
        ASTExpr::Or(subs) => {
            let k = choose|k: int|
                0 <= k < subs@.len() && (#[trigger] subs@[k]).selects(index, universe, id);
            law_only_documents_are_selected(docs, subs@[k], id);
        },
        ASTExpr::Not(sub) => {},
        ASTExpr::Compare { field, op } => {
            let value = choose|value: ValueView| #[trigger]
                index.posting(field@).contains((value, id)) && op.holds(Some(value));
            law_postings_are_values(docs, field@, value, id);
            assert(index.documents(field@, value).contains(id));
        },
    }
}

/// Under a field that a document has, a comparison and its opposite exclude each other, and
/// one of them holds; orders do so among numbers.
pub proof fn law_opposite_comparisons(
    value: ValueView,
    other: LabelValue,
    list: Vec<LabelValue>,
)
    ensures
        CompareOp::Ne(other).holds(Some(value)) <==> !CompareOp::Eq(other).holds(Some(value)),
        CompareOp::Nin(list).holds(Some(value)) <==> !CompareOp::In(list).holds(Some(value)),
        units_of(value) is Some && units_of(other@) is Some ==> {
            &&& CompareOp::Lt(other).holds(Some(value)) <==> !CompareOp::Gte(other).holds(
                Some(value),
            )
            &&& CompareOp::Gt(other).holds(Some(value)) <==> !CompareOp::Lte(other).holds(
                Some(value),
            )
        },
{
}

/// Of two numbers, however they are held, one is the lesser or they are equal; and to be
/// not the greater is to be the lesser or equal.
pub proof fn law_numbers_are_ordered(value: ValueView, other: LabelValue)
    requires
        units_of(value) is Some,
        units_of(other@) is Some,
    ensures
        ({
            let lt = CompareOp::Lt(other).holds(Some(value));
            let eq = CompareOp::Eq(other).holds(Some(value));
            let gt = CompareOp::Gt(other).holds(Some(value));
            &&& lt || eq || gt
            &&& !(lt && eq) && !(eq && gt) && !(gt && lt)
            &&& CompareOp::Lte(other).holds(Some(value)) == (lt || eq)
            &&& CompareOp::Gte(other).holds(Some(value)) == (gt || eq)
        }),
{
}

/// To be among values is to equal one of them.
pub proof fn law_membership_is_equality(value: ValueView, list: Vec<LabelValue>)
    ensures
        CompareOp::In(list).holds(Some(value)) <==> exists|i: int|
            0 <= i < list@.len() && CompareOp::Eq(#[trigger] list@[i]).holds(Some(value)),
{
    if CompareOp::In(list).holds(Some(value)) {
        let i = choose|i: int| 0 <= i < list@.len() && equal(value, (#[trigger] list@[i])@);
        assert(CompareOp::Eq(list@[i]).holds(Some(value)));
    }
}

/// A comparison holds for nothing where the document has no value under the field.
pub proof fn law_absent_fields_compare_to_nothing(op: CompareOp)
    ensures
        !op.holds(None),
{
}

} // verus!
