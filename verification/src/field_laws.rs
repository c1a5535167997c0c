//! Which fields a label line gives a document, and which documents an expression selects.
use bit_set::BitSet;
use vstd::prelude::*;

use crate::ast::ASTExpr;
use crate::bits::members;
use crate::field_index::FieldIndex;
use crate::label_laws::{accepts, indexed, lemma_comparison, lemma_disjunction};
use crate::labels::{
    compute_filter_bitmaps, doc_id_name, doc_id_of, dotted, evaluate_ast_with_inverted_index,
    field_views, has_field, has_value, is_true_field, json_line, nested, post_fields,
    read_document, unsigned_of, FieldView, InvertedIndex, InvertedIndexView, LabelError,
    LabelField,
};
use crate::values::{CompareOp, LabelValue, ValueView};

verus! {

/// Where a member of a document holds an object, each member of the object is a field under
/// the names of both with a dot between.
pub proof fn law_members_of_objects_are_fields(
    fields: Seq<FieldView>,
    i: int,
    text: Seq<char>,
    inner: Seq<FieldView>,
    j: int,
)
    requires
        0 <= i < fields.len(),
        fields[i].1 == ValueView::Other(text),
        json_line(text) == Some(Some(inner)),
        0 <= j < inner.len(),
    ensures
        nested(fields).contains((fields[i].0 + "."@ + inner[j].0, inner[j].1)),
    decreases fields.len(),
{
    let rest = fields.drop_last();
    let before = nested(rest);
    let all = nested(fields);
    let field = (fields[i].0 + "."@ + inner[j].0, inner[j].1);
    if i < rest.len() {
        law_members_of_objects_are_fields(rest, i, text, inner, j);
        assert(all[before.index_of(field)] == field);
    } else {
        assert(all == before + dotted(fields[i].0, inner));
        assert(all[before.len() + j] == field);
    }
}

/// No other fields have dotted names added: each comes from a member of an object that a
/// member of the document holds.
pub proof fn law_added_fields_are_members_of_objects(fields: Seq<FieldView>, field: FieldView)
    requires
        nested(fields).contains(field),
    ensures
        exists|i: int, inner: Seq<FieldView>, j: int|
            {
                &&& 0 <= i < fields.len()
                &&& #[trigger] fields[i].1 is Other
                &&& json_line(fields[i].1->Other_0) == Some(Some(inner))
                &&& 0 <= j < inner.len()
                &&& field == (fields[i].0 + "."@ + (#[trigger] inner[j]).0, inner[j].1)
            },
    decreases fields.len(),
{
    let rest = fields.drop_last();
    let before = nested(rest);
    let all = nested(fields);
    let p = all.index_of(field);
    if p < before.len() {
        assert(before[p] == field);
        law_added_fields_are_members_of_objects(rest, field);
        let (i, inner, j) = choose|i: int, inner: Seq<FieldView>, j: int|
            {
                &&& 0 <= i < rest.len()
                &&& #[trigger] rest[i].1 is Other
                &&& json_line(rest[i].1->Other_0) == Some(Some(inner))
                &&& 0 <= j < inner.len()
                &&& field == (rest[i].0 + "."@ + (#[trigger] inner[j]).0, inner[j].1)
            };
        assert(fields[i] == rest[i]);
        assert(fields[i].1 is Other && field == (fields[i].0 + "."@ + inner[j].0, inner[j].1));
    } else {
        let last = fields.len() - 1;
        assert(fields[last].1 is Other);
        let inner = json_line(fields[last].1->Other_0)->0->0;
        let j = p - before.len();
        assert(all == before + dotted(fields[last].0, inner));
        assert(field == (fields[last].0 + "."@ + inner[j].0, inner[j].1));
    }
}

/// A document that was read has the members of its line, in their order.
pub proof fn law_members_of_a_line_are_fields(
    line: &str,
    number: usize,
    document: (u64, Vec<LabelField>),
    fields: Seq<FieldView>,
    i: int,
)
    requires
        call_ensures(read_document, (line, number), Ok(document)),
        json_line(line@) == Some(Some(fields)),
        0 <= i < fields.len(),
    ensures
        document.1@.len() >= fields.len(),
        document.1@[i].name@ == fields[i].0,
        document.1@[i].value@ == fields[i].1,
{
    let views = field_views(document.1@);
    assert(views == fields + nested(fields));
    assert(views[i] == fields[i]);
    assert(views[i] == document.1@[i]@);
}

/// It also has every member of an object among them under its dotted name.
pub proof fn law_dotted_fields_of_a_line(
    line: &str,
    number: usize,
    document: (u64, Vec<LabelField>),
    fields: Seq<FieldView>,
    i: int,
    inner: Seq<FieldView>,
    j: int,
)
    requires
        call_ensures(read_document, (line, number), Ok(document)),
        json_line(line@) == Some(Some(fields)),
        0 <= i < fields.len(),
        fields[i].1 is Other,
        json_line(fields[i].1->Other_0) == Some(Some(inner)),
        0 <= j < inner.len(),
    ensures
        exists|p: int|
            {
                &&& 0 <= p < document.1@.len()
                &&& (#[trigger] document.1@[p]).name@ == fields[i].0 + "."@ + inner[j].0
                &&& document.1@[p].value@ == inner[j].1
            },
{
    let views = field_views(document.1@);
    assert(views == fields + nested(fields));
    law_members_of_objects_are_fields(fields, i, fields[i].1->Other_0, inner, j);
    let field = (fields[i].0 + "."@ + inner[j].0, inner[j].1);
    let p = fields.len() + nested(fields).index_of(field);
    assert(views[p] == field);
    assert(document.1@[p]@ == field);
}

/// And it has nothing else: what is not a member of the line is a member of an object among
/// them.
pub proof fn law_no_other_fields_of_a_line(
    line: &str,
    number: usize,
    document: (u64, Vec<LabelField>),
    fields: Seq<FieldView>,
    p: int,
)
    requires
        call_ensures(read_document, (line, number), Ok(document)),
        json_line(line@) == Some(Some(fields)),
        fields.len() <= p < document.1@.len(),
    ensures
        exists|i: int, inner: Seq<FieldView>, j: int|
            {
                &&& 0 <= i < fields.len()
                &&& #[trigger] fields[i].1 is Other
                &&& json_line(fields[i].1->Other_0) == Some(Some(inner))
                &&& 0 <= j < inner.len()
                &&& document.1@[p].name@ == fields[i].0 + "."@ + (#[trigger] inner[j]).0
                &&& document.1@[p].value@ == inner[j].1
            },
{
    let views = field_views(document.1@);
    assert(views == fields + nested(fields));
    let field = views[p];
    assert(field == nested(fields)[p - fields.len()]);
    law_added_fields_are_members_of_objects(fields, field);
    let (i, inner, j) = choose|i: int, inner: Seq<FieldView>, j: int|
        {
            &&& 0 <= i < fields.len()
            &&& #[trigger] fields[i].1 is Other
            &&& json_line(fields[i].1->Other_0) == Some(Some(inner))
            &&& 0 <= j < inner.len()
            &&& field == (fields[i].0 + "."@ + (#[trigger] inner[j]).0, inner[j].1)
        };
    assert(document.1@[p]@ == field);
    assert(fields[i].1 is Other && document.1@[p].name@ == fields[i].0 + "."@ + inner[j].0);
}

/// The first member named `doc_id` names the document, by a whole number of at most 64 bits
/// that is not negative; no other member does.
pub proof fn law_what_names_a_document(fields: Seq<FieldView>, i: int)
    requires
        0 <= i < fields.len(),
        fields[i].0 == "doc_id"@,
        forall|j: int| 0 <= j < i ==> (#[trigger] fields[j]).0 != "doc_id"@,
    ensures
        match fields[i].1 {
            ValueView::Number(number) => if 0 <= number <= 0xffff_ffff_ffff_ffff {
                doc_id_of(fields) == Some(number as u64)
            } else {
                doc_id_of(fields) is None
            },
            _ => doc_id_of(fields) is None,
        },
    decreases fields.len(),
{
    if i > 0 {
        assert(fields[0].0 != "doc_id"@);
        let rest = fields.drop_first();
        assert(rest[i - 1] == fields[i]);
        assert forall|j: int| 0 <= j < i - 1 implies (#[trigger] rest[j]).0 != "doc_id"@ by {
            assert(rest[j] == fields[j + 1]);
        }
        law_what_names_a_document(rest, i - 1);
    }
}

/// Without a member named `doc_id` nothing names the document.
pub proof fn law_without_doc_id(fields: Seq<FieldView>)
    requires
        forall|j: int| 0 <= j < fields.len() ==> (#[trigger] fields[j]).0 != "doc_id"@,
    ensures
        doc_id_of(fields) is None,
    decreases fields.len(),
{
    if fields.len() > 0 {
        let rest = fields.drop_first();
        assert forall|j: int| 0 <= j < rest.len() implies (#[trigger] rest[j]).0 != "doc_id"@ by {
            assert(rest[j] == fields[j + 1]);
        }
        law_without_doc_id(rest);
    }
}

/// A line is read exactly where it is an object that names its document; a line that is no
/// JSON is told apart from one that names none, and either by its number.
pub proof fn law_which_lines_are_read(
    line: &str,
    number: usize,
    r: Result<(u64, Vec<LabelField>), LabelError>,
)
    requires
        call_ensures(read_document, (line, number), r),
    ensures
        json_line(line@) is None <==> (r matches Err(LabelError::Json { line: n, .. }) && n
            == number),
        r matches Ok(document) ==> {
            &&& json_line(line@) matches Some(Some(fields))
            &&& doc_id_of(fields) == Some(document.0)
        },
        (json_line(line@) matches Some(Some(fields)) && doc_id_of(fields) is Some) ==> r is Ok,
        json_line(line@) is Some && r is Err ==> (r matches Err(
            LabelError::MissingDocId { line: n },
        ) && n == number),
{
}

/// What a value of a field means: some member other than `doc_id` has that name and value.
pub proof fn law_what_a_document_has(
    fields: Seq<FieldView>,
    name: Seq<char>,
    value: ValueView,
)
    ensures
        has_value(fields, name, value) <==> name != "doc_id"@ && exists|i: int|
            0 <= i < fields.len() && #[trigger] fields[i] == (name, value),
        has_field(fields, name) <==> name != "doc_id"@ && exists|i: int|
            0 <= i < fields.len() && (#[trigger] fields[i]).0 == name,
        is_true_field(fields, name) <==> name != "doc_id"@ && exists|i: int|
            0 <= i < fields.len() && #[trigger] fields[i] == (name, ValueView::Bool(true)),
        doc_id_name() == "doc_id"@,
        unsigned_of(value) is Some <==> (value matches ValueView::Number(n) && 0 <= n
            <= 0xffff_ffff_ffff_ffff),
        unsigned_of(value) matches Some(n) ==> value == ValueView::Number(n as int),
{
    if has_value(fields, name, value) {
        assert(fields[fields.index_of((name, value))] == (name, value));
    }
    if is_true_field(fields, name) {
        let field = (name, ValueView::Bool(true));
        assert(fields[fields.index_of(field)] == field);
    }
    if has_field(fields, name) {
        let v = choose|v: ValueView| has_value(fields, name, v);
        assert(fields[fields.index_of((name, v))].0 == name);
    }
    if name != "doc_id"@ && exists|i: int| 0 <= i < fields.len() && (#[trigger] fields[i]).0
        == name {
        let i = choose|i: int| 0 <= i < fields.len() && (#[trigger] fields[i]).0 == name;
        assert(fields.contains((name, fields[i].1)));
        assert(has_value(fields, name, fields[i].1));
    }
}

/// One more document is counted, and gives its values, and no others, to the index; what was
/// there stays.
pub proof fn law_one_more_document(
    index: InvertedIndexView,
    doc_id: usize,
    fields: Seq<FieldView>,
    name: Seq<char>,
    value: ValueView,
    id: usize,
)
    ensures
        index.add_document(doc_id, fields).num_base == index.num_base + 1,
        index.add_document(doc_id, fields).posting(name).contains((value, id)) <==> {
            ||| index.posting(name).contains((value, id))
            ||| id == doc_id && name != "doc_id"@ && fields.contains((name, value))
        },
        index.add_document(doc_id, fields).postings.dom().contains(name) <==> {
            ||| index.postings.dom().contains(name)
            ||| name != "doc_id"@ && exists|i: int|
                0 <= i < fields.len() && (#[trigger] fields[i]).0 == name
        },
        index.count_document().num_base == index.num_base + 1,
        index.count_document().posting(name) == index.posting(name),
        !InvertedIndexView::empty().posting(name).contains((value, id)),
        InvertedIndexView::empty().num_base == 0,
{
    let after = index.add_document(doc_id, fields);
    law_what_a_document_has(fields, name, value);
    assert(after.postings == post_fields(index, doc_id, fields));
    if fields.contains((name, value)) && name != "doc_id"@ {
        assert(has_value(fields, name, value));
        assert(fields[fields.index_of((name, value))].0 == name);
    }
}

/// Adding the line of a document gives it its values, those of objects under dotted names,
/// and changes nothing else; a line that is refused changes nothing at all.
pub proof fn law_adding_a_line(
    index: &mut InvertedIndex,
    line: &str,
    r: Result<(), LabelError>,
    name: Seq<char>,
    value: ValueView,
    id: usize,
)
    requires
        call_ensures(InvertedIndex::add_line, (index, line), r),
    ensures
        r is Err ==> final(index)@ == old(index)@,
        r is Ok ==> final(index)@.num_base == old(index)@.num_base + 1,
        r is Ok ==> json_line(line@) matches Some(Some(_)),
        r is Ok ==> ({
            let fields = json_line(line@)->0->0;
            &&& doc_id_of(fields) is Some
            &&& doc_id_of(fields)->0 < usize::MAX ==> (final(index)@.posting(name).contains(
                (value, id),
            ) <==> {
                ||| old(index)@.posting(name).contains((value, id))
                ||| {
                    &&& id == doc_id_of(fields)->0
                    &&& name != "doc_id"@
                    &&& fields.contains((name, value)) || exists|
                        i: int,
                        inner: Seq<FieldView>,
                        j: int,
                    |
                        {
                            &&& 0 <= i < fields.len()
                            &&& #[trigger] fields[i].1 is Other
                            &&& json_line(fields[i].1->Other_0) == Some(Some(inner))
                            &&& 0 <= j < inner.len()
                            &&& name == fields[i].0 + "."@ + (#[trigger] inner[j]).0
                            &&& value == inner[j].1
                        }
                }
            })
        }),
{
    if r is Ok {
        let fields = json_line(line@)->0->0;
        let doc_id = doc_id_of(fields)->0;
        if doc_id < usize::MAX {
            let all = fields + nested(fields);
            law_one_more_document(old(index)@, doc_id as usize, all, name, value, id);
            let field = (name, value);
            if all.contains(field) {
                let p = all.index_of(field);
                if p < fields.len() {
                    assert(fields[p] == field);
                } else {
                    assert(nested(fields)[p - fields.len()] == field);
                    law_added_fields_are_members_of_objects(fields, field);
                    let (i, inner, j) = choose|i: int, inner: Seq<FieldView>, j: int|
                        {
                            &&& 0 <= i < fields.len()
                            &&& #[trigger] fields[i].1 is Other
                            &&& json_line(fields[i].1->Other_0) == Some(Some(inner))
                            &&& 0 <= j < inner.len()
                            &&& field == (fields[i].0 + "."@ + (#[trigger] inner[j]).0, inner[j].1)
                        };
                    assert(fields[i].1 is Other && name == fields[i].0 + "."@ + inner[j].0);
                }
            }
            if fields.contains(field) {
                assert(all[fields.index_of(field)] == field);
            }
            if exists|i: int, inner: Seq<FieldView>, j: int|
                {
                    &&& 0 <= i < fields.len()
                    &&& #[trigger] fields[i].1 is Other
                    &&& json_line(fields[i].1->Other_0) == Some(Some(inner))
                    &&& 0 <= j < inner.len()
                    &&& name == fields[i].0 + "."@ + (#[trigger] inner[j]).0
                    &&& value == inner[j].1
                } {
                let (i, inner, j) = choose|i: int, inner: Seq<FieldView>, j: int|
                    {
                        &&& 0 <= i < fields.len()
                        &&& #[trigger] fields[i].1 is Other
                        &&& json_line(fields[i].1->Other_0) == Some(Some(inner))
                        &&& 0 <= j < inner.len()
                        &&& name == fields[i].0 + "."@ + (#[trigger] inner[j]).0
                        &&& value == inner[j].1
                    };
                law_members_of_objects_are_fields(fields, i, fields[i].1->Other_0, inner, j);
                assert(all[fields.len() + nested(fields).index_of(field)] == field);
            }
        }
    }
}

/// A line is added exactly where it is an object that names its document, and, if no bit set
/// has room for the document, no member other than `doc_id` is `true`; then the document is
/// only counted. What is refused is told apart, by the number of documents before it.
pub proof fn law_which_lines_are_added(
    index: &mut InvertedIndex,
    line: &str,
    r: Result<(), LabelError>,
)
    requires
        call_ensures(InvertedIndex::add_line, (index, line), r),
    ensures
        r is Ok <==> {
            &&& json_line(line@) is Some
            &&& json_line(line@)->0 is Some
            &&& doc_id_of(json_line(line@)->0->0) is Some
            &&& doc_id_of(json_line(line@)->0->0)->0 < usize::MAX || forall|i: int|
                0 <= i < (json_line(line@)->0->0).len() && (#[trigger] (json_line(line@)->0->0)[i]).0
                    != "doc_id"@ ==> (json_line(line@)->0->0)[i].1 != ValueView::Bool(true)
        },
        r is Ok && doc_id_of(json_line(line@)->0->0)->0 >= usize::MAX ==> final(index)@.postings
            == old(index)@.postings,
        r is Err ==> {
            &&& r->Err_0 is Json <==> json_line(line@) is None
            &&& r->Err_0 is MissingDocId <==> json_line(line@) is Some && (json_line(line@)->0 is None
                || doc_id_of(json_line(line@)->0->0) is None)
            &&& r matches Err(LabelError::Json { line: n, .. }) ==> n == old(index)@.num_base
            &&& r matches Err(LabelError::MissingDocId { line: n }) ==> n == old(index)@.num_base
            &&& r matches Err(LabelError::DocIdTooLarge { line: n }) ==> n == old(index)@.num_base
        },
{
    if json_line(line@) is Some && json_line(line@)->0 is Some {
        let fields = json_line(line@)->0->0;
        if exists|name: Seq<char>| is_true_field(fields, name) {
            let name = choose|name: Seq<char>| is_true_field(fields, name);
            let i = fields.index_of((name, ValueView::Bool(true)));
            assert(fields[i] == (name, ValueView::Bool(true)));
        }
        if exists|i: int|
            0 <= i < fields.len() && (#[trigger] fields[i]).0 != "doc_id"@ && fields[i].1
                == ValueView::Bool(true) {
            let i = choose|i: int|
                0 <= i < fields.len() && (#[trigger] fields[i]).0 != "doc_id"@ && fields[i].1
                    == ValueView::Bool(true);
            assert(fields.contains((fields[i].0, ValueView::Bool(true))));
            assert(is_true_field(fields, fields[i].0));
        }
    }
}

/// The same of a document that is added by its fields.
pub proof fn law_which_documents_are_added(
    index: &mut InvertedIndex,
    fields: &Vec<LabelField>,
    r: Result<(), LabelError>,
    views: Seq<FieldView>,
)
    requires
        call_ensures(InvertedIndex::add_fields, (index, fields), r),
        views == Seq::new(fields@.len(), |i: int| (fields@[i].name@, fields@[i].value@)),
    ensures
        r is Ok <==> {
            &&& doc_id_of(views) is Some
            &&& doc_id_of(views)->0 < usize::MAX || forall|i: int|
                0 <= i < views.len() && (#[trigger] views[i]).0 != "doc_id"@ ==> views[i].1
                    != ValueView::Bool(true)
        },
        r is Ok && doc_id_of(views)->0 >= usize::MAX ==> final(index)@.postings == old(
            index)@.postings,
        r is Err ==> {
            &&& r->Err_0 is MissingDocId <==> doc_id_of(views) is None
            &&& r->Err_0 is DocIdTooLarge <==> doc_id_of(views) is Some
            &&& r matches Err(LabelError::MissingDocId { line: n }) ==> n == old(index)@.num_base
            &&& r matches Err(LabelError::DocIdTooLarge { line: n }) ==> n == old(index)@.num_base
        },
{
    assert(views =~= field_views(fields@));
    if exists|name: Seq<char>| is_true_field(views, name) {
        let name = choose|name: Seq<char>| is_true_field(views, name);
        let i = views.index_of((name, ValueView::Bool(true)));
        assert(views[i] == (name, ValueView::Bool(true)));
    }
    if exists|i: int|
        0 <= i < views.len() && (#[trigger] views[i]).0 != "doc_id"@ && views[i].1
            == ValueView::Bool(true) {
        let i = choose|i: int|
            0 <= i < views.len() && (#[trigger] views[i]).0 != "doc_id"@ && views[i].1
                == ValueView::Bool(true);
        assert(views.contains((views[i].0, ValueView::Bool(true))));
        assert(is_true_field(views, views[i].0));
    }
}

/// What an index tells of itself: the number of its documents, the number of its fields, and
/// of a field its values and documents.
pub proof fn law_what_an_index_tells(
    index: &InvertedIndex,
    field: &String,
    fresh: InvertedIndex,
    documents: usize,
    fields: usize,
    list: Option<&FieldIndex>,
)
    requires
        call_ensures(InvertedIndex::new, (), fresh),
        call_ensures(InvertedIndex::num_base, (index,), documents),
        call_ensures(InvertedIndex::num_fields, (index,), fields),
        call_ensures(InvertedIndex::get, (index, field), list),
    ensures
        fresh@.num_base == 0,
        forall|name: Seq<char>, entry: (ValueView, usize)|
            !(#[trigger] fresh@.posting(name).contains(entry)),
        documents == index@.num_base,
        fields == index@.postings.dom().len(),
        list is None ==> forall|entry: (ValueView, usize)|
            !(#[trigger] index@.posting(field@).contains(entry)),
        list matches Some(list) ==> list@ == index@.posting(field@),
{
}

/// A document that is filed under a value is there, and nothing else changes.
pub proof fn law_filing_a_document(
    list: &mut FieldIndex,
    value: &LabelValue,
    doc_id: usize,
    other: ValueView,
    id: usize,
)
    requires
        call_ensures(FieldIndex::post, (list, value, doc_id), ()),
    ensures
        final(list)@.contains((other, id)) <==> old(list)@.contains((other, id)) || (other == value@
            && id == doc_id),
{
}

/// The documents for which a comparison holds are those with such a value.
pub proof fn law_selecting_documents(
    list: &FieldIndex,
    op: &CompareOp,
    selected: BitSet,
    id: usize,
)
    requires
        call_ensures(FieldIndex::select, (list, op), selected),
    ensures
        members(selected).contains(id) <==> exists|value: ValueView| #[trigger]
            list@.contains((value, id)) && op.holds(Some(value)),
{
    let call = (list, op);
    assert(call.0@ == list@ && *call.1 == *op);
    if members(selected).contains(id) {
        let value = choose|value: ValueView| #[trigger]
            call.0@.contains((value, id)) && call.1.holds(Some(value));
        assert(list@.contains((value, id)) && op.holds(Some(value)));
    }
    if exists|value: ValueView| #[trigger] list@.contains((value, id)) && op.holds(Some(value)) {
        let value = choose|value: ValueView| #[trigger]
            list@.contains((value, id)) && op.holds(Some(value));
        assert(call.0@.contains((value, id)) && call.1.holds(Some(value)));
    }
}

/// Adding a document by its fields gives it their values and changes nothing else.
pub proof fn law_adding_fields(
    index: &mut InvertedIndex,
    fields: &Vec<LabelField>,
    r: Result<(), LabelError>,
    name: Seq<char>,
    value: ValueView,
    id: usize,
)
    requires
        call_ensures(InvertedIndex::add_fields, (index, fields), r),
    ensures
        r is Err ==> final(index)@ == old(index)@,
        r is Ok ==> final(index)@.num_base == old(index)@.num_base + 1,
        r is Ok ==> ({
            let views = Seq::new(
                fields@.len(),
                |i: int| (fields@[i].name@, fields@[i].value@),
            );
            &&& doc_id_of(views) is Some
            &&& doc_id_of(views)->0 < usize::MAX ==> (final(index)@.posting(name).contains(
                (value, id),
            ) <==> {
                ||| old(index)@.posting(name).contains((value, id))
                ||| id == doc_id_of(views)->0 && name != "doc_id"@ && views.contains((name, value))
            })
        }),
{
    let views = Seq::new(fields@.len(), |i: int| (fields@[i].name@, fields@[i].value@));
    assert(views =~= field_views(fields@));
    if r is Ok && doc_id_of(views)->0 < usize::MAX {
        law_one_more_document(
            old(index)@,
            doc_id_of(views)->0 as usize,
            views,
            name,
            value,
            id,
        );
    }
}

/// A negation selects the documents that what it negates does not.
pub proof fn law_negation_selects_the_rest(
    sub: Box<ASTExpr>,
    index: &InvertedIndex,
    universe: usize,
    selected: BitSet,
    of_sub: BitSet,
    id: usize,
)
    requires
        call_ensures(
            evaluate_ast_with_inverted_index,
            (&ASTExpr::Not(sub), index, universe),
            selected,
        ),
        call_ensures(evaluate_ast_with_inverted_index, (&*sub, index, universe), of_sub),
    ensures
        members(selected).contains(id) <==> id < universe && !members(of_sub).contains(id),
{
    assert(members(selected).contains(id) <==> ASTExpr::Not(sub).selects(index@, universe, id));
    assert(members(of_sub).contains(id) <==> sub.selects(index@, universe, id));
}

/// A conjunction selects what all of its parts select, and without parts every document.
pub proof fn law_conjunction_selects_what_all_select(
    subs: Vec<ASTExpr>,
    index: &InvertedIndex,
    universe: usize,
    selected: BitSet,
    parts: Seq<BitSet>,
    id: usize,
)
    requires
        call_ensures(
            evaluate_ast_with_inverted_index,
            (&ASTExpr::And(subs), index, universe),
            selected,
        ),
        parts.len() == subs@.len(),
        forall|i: int|
            0 <= i < subs@.len() ==> call_ensures(
                evaluate_ast_with_inverted_index,
                (&subs@[i], index, universe),
                #[trigger] parts[i],
            ),
    ensures
        subs@.len() == 0 ==> (members(selected).contains(id) <==> id < universe),
        subs@.len() > 0 ==> (members(selected).contains(id) <==> forall|i: int|
            0 <= i < parts.len() ==> members(#[trigger] parts[i]).contains(id)),
{
    let expr = ASTExpr::And(subs);
    let inner = expr->And_0;
    assert(members(selected).contains(id) <==> expr.selects(index@, universe, id));
    assert forall|i: int| 0 <= i < parts.len() implies (members(#[trigger] parts[i]).contains(id)
        <==> inner@[i].selects(index@, universe, id)) by {
        assert(members(parts[i]) == subs@[i].selection(index@, universe));
    }
    if subs@.len() > 0 {
        if expr.selects(index@, universe, id) {
            assert forall|i: int| 0 <= i < parts.len() implies members(
                #[trigger] parts[i],
            ).contains(id) by {
                assert(inner@[i].selects(index@, universe, id));
            }
        }
        if forall|i: int| 0 <= i < parts.len() ==> members(#[trigger] parts[i]).contains(id) {
            assert forall|i: int| 0 <= i < inner@.len() implies (#[trigger] inner@[i]).selects(
                index@,
                universe,
                id,
            ) by {
                assert(members(parts[i]).contains(id));
            }
        }
    }
}

/// A disjunction selects what one of its parts selects, and without parts nothing.
pub proof fn law_disjunction_selects_what_one_selects(
    subs: Vec<ASTExpr>,
    index: &InvertedIndex,
    universe: usize,
    selected: BitSet,
    parts: Seq<BitSet>,
    id: usize,
)
    requires
        call_ensures(
            evaluate_ast_with_inverted_index,
            (&ASTExpr::Or(subs), index, universe),
            selected,
        ),
        parts.len() == subs@.len(),
        forall|i: int|
            0 <= i < subs@.len() ==> call_ensures(
                evaluate_ast_with_inverted_index,
                (&subs@[i], index, universe),
                #[trigger] parts[i],
            ),
    ensures
        members(selected).contains(id) <==> exists|i: int|
            0 <= i < parts.len() && members(#[trigger] parts[i]).contains(id),
{
    let expr = ASTExpr::Or(subs);
    let inner = expr->Or_0;
    assert(members(selected).contains(id) <==> expr.selects(index@, universe, id));
    assert forall|i: int| 0 <= i < parts.len() implies (members(#[trigger] parts[i]).contains(id)
        <==> inner@[i].selects(index@, universe, id)) by {
        assert(members(parts[i]) == subs@[i].selection(index@, universe));
    }
    if expr.selects(index@, universe, id) {
        let i = choose|i: int|
            0 <= i < inner@.len() && (#[trigger] inner@[i]).selects(index@, universe, id);
        assert(members(parts[i]).contains(id));
    }
    if exists|i: int| 0 <= i < parts.len() && members(#[trigger] parts[i]).contains(id) {
        let i = choose|i: int| 0 <= i < parts.len() && members(#[trigger] parts[i]).contains(id);
        assert(inner@[i].selects(index@, universe, id));
        assert(exists|j: int|
            0 <= j < inner@.len() && (#[trigger] inner@[j]).selects(index@, universe, id));
    }
}

/// A comparison selects the documents with a value under the field for which it holds.
pub proof fn law_comparison_selects_by_value(
    field: String,
    op: CompareOp,
    index: &InvertedIndex,
    universe: usize,
    selected: BitSet,
    id: usize,
)
    requires
        call_ensures(
            evaluate_ast_with_inverted_index,
            (&ASTExpr::Compare { field, op }, index, universe),
            selected,
        ),
    ensures
        members(selected).contains(id) <==> exists|value: ValueView| #[trigger]
            index@.posting(field@).contains((value, id)) && op.holds(Some(value)),
{
    let expr = ASTExpr::Compare { field, op };
    lemma_comparison(field, op, index@, universe, id, Seq::empty());
    assert(members(selected).contains(id) <==> expr.selects(index@, universe, id));
}

/// The bitmap of each query is what its expression selects among the documents, and its count
/// is their number.
pub proof fn law_bitmaps_of_queries(
    index: &InvertedIndex,
    queries: &Vec<ASTExpr>,
    r: (Vec<BitSet>, Vec<usize>),
    universe: usize,
    q: int,
    selected: BitSet,
)
    requires
        call_ensures(compute_filter_bitmaps, (index, queries), r),
        0 <= q < queries@.len(),
        universe == index@.num_base,
        call_ensures(
            evaluate_ast_with_inverted_index,
            (&queries@[q], index, universe),
            selected,
        ),
    ensures
        r.0@.len() == queries@.len(),
        r.1@.len() == queries@.len(),
        members(r.0@[q]) == members(selected),
        r.1@[q] == members(selected).len(),
{
}

/// What an expression means for a document, part by part.
pub proof fn law_what_a_document_accepts(
    sub: Box<ASTExpr>,
    subs: Vec<ASTExpr>,
    field: String,
    op: CompareOp,
    fields: Seq<FieldView>,
)
    ensures
        accepts(ASTExpr::Not(sub), fields) <==> !accepts(*sub, fields),
        accepts(ASTExpr::And(subs), fields) <==> forall|i: int|
            0 <= i < subs@.len() ==> accepts(#[trigger] subs@[i], fields),
        accepts(ASTExpr::Or(subs), fields) <==> exists|i: int|
            0 <= i < subs@.len() && accepts(#[trigger] subs@[i], fields),
        accepts(ASTExpr::Compare { field, op }, fields) <==> field@ != "doc_id"@ && exists|i: int|
            0 <= i < fields.len() && (#[trigger] fields[i]).0 == field@ && op.holds(
                Some(fields[i].1),
            ),
{
    lemma_disjunction(subs, InvertedIndexView::empty(), 0, 0, fields);
    lemma_comparison(field, op, InvertedIndexView::empty(), 0, 0, fields);
    let and = ASTExpr::And(subs);
    let inner = and->And_0;
    if accepts(and, fields) {
        assert forall|i: int| 0 <= i < subs@.len() implies accepts(
            #[trigger] subs@[i],
            fields,
        ) by {
            assert(accepts(inner@[i], fields));
        }
    }
    if forall|i: int| 0 <= i < subs@.len() ==> accepts(#[trigger] subs@[i], fields) {
        assert forall|i: int| 0 <= i < inner@.len() implies accepts(
            #[trigger] inner@[i],
            fields,
        ) by {
            assert(accepts(subs@[i], fields));
        }
    }
    if exists|value: ValueView| #[trigger]
        has_value(fields, field@, value) && op.holds(Some(value)) {
        let value = choose|value: ValueView| #[trigger]
            has_value(fields, field@, value) && op.holds(Some(value));
        assert(fields[fields.index_of((field@, value))].0 == field@);
    }
    if field@ != "doc_id"@ && exists|i: int|
        0 <= i < fields.len() && (#[trigger] fields[i]).0 == field@ && op.holds(
            Some(fields[i].1),
        ) {
        let i = choose|i: int|
            0 <= i < fields.len() && (#[trigger] fields[i]).0 == field@ && op.holds(
                Some(fields[i].1),
            );
        assert(fields.contains((field@, fields[i].1)));
        assert(has_value(fields, field@, fields[i].1));
    }
}

/// The fields that an index knows are those that some document has.
pub proof fn law_known_fields(docs: Seq<(usize, Seq<FieldView>)>, name: Seq<char>)
    ensures
        indexed(docs).num_base == docs.len(),
        indexed(docs).postings.dom().contains(name) <==> name != "doc_id"@ && exists|d: int, i: int|
            0 <= d < docs.len() && 0 <= i < docs[d].1.len() && (#[trigger] docs[d].1[i]).0 == name,
    decreases docs.len(),
{
    if docs.len() > 0 {
        let rest = docs.drop_last();
        let last = docs.len() - 1;
        law_known_fields(rest, name);
        law_one_more_document(
            indexed(rest),
            docs.last().0,
            docs.last().1,
            name,
            ValueView::Null,
            0,
        );
        if exists|d: int, i: int|
            0 <= d < docs.len() && 0 <= i < docs[d].1.len() && (#[trigger] docs[d].1[i]).0
                == name {
            let (d, i) = choose|d: int, i: int|
                0 <= d < docs.len() && 0 <= i < docs[d].1.len() && (#[trigger] docs[d].1[i]).0
                    == name;
            if d < last {
                assert(rest[d].1[i].0 == name);
            } else {
                assert(docs.last().1[i].0 == name);
            }
        }
        if exists|d: int, i: int|
            0 <= d < rest.len() && 0 <= i < rest[d].1.len() && (#[trigger] rest[d].1[i]).0
                == name {
            let (d, i) = choose|d: int, i: int|
                0 <= d < rest.len() && 0 <= i < rest[d].1.len() && (#[trigger] rest[d].1[i]).0
                    == name;
            assert(docs[d].1[i].0 == name);
        }
        if exists|i: int| 0 <= i < docs.last().1.len() && (#[trigger] docs.last().1[i]).0 == name {
            let i = choose|i: int|
                0 <= i < docs.last().1.len() && (#[trigger] docs.last().1[i]).0 == name;
            assert(docs[last].1[i].0 == name);
        }
    }
}

} // verus!
