//! The inverted index over the labels of base documents, and the filter bitmaps of queries.
use bit_set::BitSet;
use serde_json::Value;
use vstd::hash_map::StringHashMap;
use vstd::prelude::*;

use crate::ast::ASTExpr;
use crate::bits::{
    bits_with_capacity, count_bits, insert_bit, intersect_bits, list_bits, members, new_bits,
    remove_bit, unite_bits,
};
use crate::field_index::FieldIndex;
use crate::values::{LabelValue, ValueView};

verus! {

broadcast use vstd::hash_map::group_hash_map_axioms;

/// The outside type `serde_json::Error`.
#[verifier::external_type_specification]
#[verifier::external_body]
pub struct ExJsonError(serde_json::Error);

/// One member of a label document.
pub struct LabelField {
    pub name: String,
    pub value: LabelValue,
}

/// The name and the value of a member.
pub type FieldView = (Seq<char>, ValueView);

impl View for LabelField {
    type V = (Seq<char>, ValueView);

    open spec fn view(&self) -> (Seq<char>, ValueView) {
        (self.name@, self.value@)
    }
}

/// The members of a label document.
pub open spec fn field_views(fields: Seq<LabelField>) -> Seq<FieldView> {
    Seq::new(fields.len(), |i: int| fields[i]@)
}

/// What a line of JSON holds: nothing where it is no JSON, no members where it is
/// not an object, else the name and the value of each member of the object.
pub uninterp spec fn json_line(line: Seq<char>) -> Option<Option<Seq<(Seq<char>, ValueView)>>>;

/// `serde_json::from_str` reads a line as a `serde_json::Value`. The members of an
/// object are handed out by the kind of their values: a number as what `Value::as_u64`,
/// else `Value::as_i64`, else `Value::as_f64` gives for it, the last by its bit pattern, and
/// a list or an object as its own JSON text.
/// Where the line is no JSON, what the error tells of it is left unsaid.
#[verifier::external_body]
fn parse_json_line(line: &str) -> (r: Result<Option<Vec<LabelField>>, serde_json::Error>)
    ensures
        match r {
            Ok(Some(fields)) => json_line(line@) == Some(Some(field_views(fields@))),
            Ok(None) => json_line(line@) == Some(None::<Seq<(Seq<char>, ValueView)>>),
            Err(_) => json_line(line@) is None,
        },
{
    let doc: Value = serde_json::from_str(line)?;
    let member = |(key, v): (&String, &Value)| LabelField {
        name: key.clone(),
        value: match v {
            Value::Null => LabelValue::Null,
            Value::Bool(flag) => LabelValue::Bool(*flag),
            Value::String(text) => LabelValue::Text(text.clone()),
            _ => v.as_u64().map(LabelValue::Unsigned)
                .or(v.as_i64().map(LabelValue::Signed))
                .or(v.as_f64().map(|n| LabelValue::Fraction(n.to_bits())))
                .unwrap_or(LabelValue::Other(v.to_string())),
        },
    };
    Ok(doc.as_object().map(|members| members.iter().map(member).collect()))
}

/// Why a line of base labels is refused. Lines are counted from 0.
pub enum LabelError {
    /// The line is no JSON.
    Json { line: usize, cause: serde_json::Error },
    /// The line names no document.
    MissingDocId { line: usize },
    /// No bit set has room for the document.
    DocIdTooLarge { line: usize },
}

/// The member that names the document.
pub open spec fn doc_id_name() -> Seq<char> {
    "doc_id"@
}

/// The number that a value is, where 64 unsigned bits hold it.
pub open spec fn unsigned_of(value: ValueView) -> Option<u64> {
    match value {
        ValueView::Number(number) => if 0 <= number <= u64::MAX {
            Some(number as u64)
        } else {
            None
        },
        _ => None,
    }
}

/// The number of the first member named `doc_id`.
pub open spec fn doc_id_of(fields: Seq<FieldView>) -> Option<u64>
    decreases fields.len(),
{
    if fields.len() == 0 {
        None
    } else if fields[0].0 == doc_id_name() {
        unsigned_of(fields[0].1)
    } else {
        doc_id_of(fields.drop_first())
    }
}

/// A field other than `doc_id` has a value.
pub open spec fn has_value(fields: Seq<FieldView>, name: Seq<char>, value: ValueView) -> bool {
    name != doc_id_name() && fields.contains((name, value))
}

/// A field other than `doc_id` is set to `true`.
pub open spec fn is_true_field(fields: Seq<FieldView>, name: Seq<char>) -> bool {
    has_value(fields, name, ValueView::Bool(true))
}

/// The fields of an object under the name of the member that holds it, with a dot between.
pub open spec fn dotted(name: Seq<char>, fields: Seq<FieldView>) -> Seq<FieldView> {
    Seq::new(fields.len(), |i: int| (name + "."@ + fields[i].0, fields[i].1))
}

/// The fields of the objects that members hold, such as `specs.cpu`. Objects inside these
/// are not looked into.
pub open spec fn nested(fields: Seq<FieldView>) -> Seq<FieldView>
    decreases fields.len(),
{
    if fields.len() == 0 {
        Seq::empty()
    } else {
        let before = nested(fields.drop_last());
        match fields.last().1 {
            ValueView::Other(text) => match json_line(text) {
                Some(Some(inner)) => before + dotted(fields.last().0, inner),
                _ => before,
            },
            _ => before,
        }
    }
}

/// What an inverted index holds.
#[verifier::ext_equal]
pub struct InvertedIndexView {
    /// For each field the pairs of a value and a document that has it there.
    pub postings: Map<Seq<char>, Set<(ValueView, usize)>>,
    /// The number of documents.
    pub num_base: nat,
}

impl InvertedIndexView {
    pub open spec fn empty() -> InvertedIndexView {
        InvertedIndexView { postings: Map::empty(), num_base: 0 }
    }

    /// The pairs of a value and a document that has it under a field.
    pub open spec fn posting(self, name: Seq<char>) -> Set<(ValueView, usize)> {
        if self.postings.contains_key(name) {
            self.postings[name]
        } else {
            Set::empty()
        }
    }

    /// The documents that have a value under a field.
    pub open spec fn documents(self, name: Seq<char>, value: ValueView) -> Set<usize> {
        Set::new(|id: usize| self.posting(name).contains((value, id)))
    }

    /// The index after one more document.
    pub open spec fn add_document(
        self,
        doc_id: usize,
        fields: Seq<FieldView>,
    ) -> InvertedIndexView {
        InvertedIndexView {
            postings: post_fields(self, doc_id, fields),
            num_base: self.num_base + 1,
        }
    }

    /// The index after a document that it only counts.
    pub open spec fn count_document(self) -> InvertedIndexView {
        InvertedIndexView { postings: self.postings, num_base: self.num_base + 1 }
    }
}

/// A field other than `doc_id` is there.
pub open spec fn has_field(fields: Seq<FieldView>, name: Seq<char>) -> bool {
    exists|value: ValueView| has_value(fields, name, value)
}

/// The postings after a document was added to those of its values.
pub open spec fn post_fields(
    index: InvertedIndexView,
    doc_id: usize,
    fields: Seq<FieldView>,
) -> Map<Seq<char>, Set<(ValueView, usize)>> {
    Map::new(
        |name: Seq<char>| index.postings.contains_key(name) || has_field(fields, name),
        |name: Seq<char>|
            index.posting(name).union(
                Set::new(
                    |entry: (ValueView, usize)|
                        entry.1 == doc_id && has_value(fields, name, entry.0),
                ),
            ),
    )
}

/// Which documents have which values under which fields.
pub struct InvertedIndex {
    /// The place of each field in `lists`.
    places: StringHashMap<usize>,
    lists: Vec<FieldIndex>,
    num_base: usize,
}

impl View for InvertedIndex {
    type V = InvertedIndexView;

    closed spec fn view(&self) -> InvertedIndexView {
        InvertedIndexView {
            postings: listed(self.places@, self.lists@),
            num_base: self.num_base as nat,
        }
    }
}

spec fn listed(
    places: Map<Seq<char>, usize>,
    lists: Seq<FieldIndex>,
) -> Map<Seq<char>, Set<(ValueView, usize)>> {
    Map::new(
        |name: Seq<char>| places.contains_key(name),
        |name: Seq<char>| lists[places[name] as int]@,
    )
}

impl InvertedIndex {
    /// Every field has a list of its own.
    pub closed spec fn wf(&self) -> bool {
        &&& forall|i: int| 0 <= i < self.lists@.len() ==> (#[trigger] self.lists@[i]).wf()
        &&& forall|name: Seq<char>| #[trigger]
            self.places@.contains_key(name) ==> self.places@[name] < self.lists@.len()
        &&& forall|a: Seq<char>, b: Seq<char>|
            #![trigger self.places@.contains_key(a), self.places@.contains_key(b)]
            self.places@.contains_key(a) && self.places@.contains_key(b) && a != b
                ==> self.places@[a] != self.places@[b]
    }

    pub fn new() -> (index: Self)
        ensures
            index.wf(),
            index@ == InvertedIndexView::empty(),
    {
        let index = InvertedIndex { places: StringHashMap::new(), lists: Vec::new(), num_base: 0 };
        assert(index@ =~= InvertedIndexView::empty());
        index
    }

    /// The number of documents.
    pub fn num_base(&self) -> (n: usize)
        ensures
            n == self@.num_base,
    {
        self.num_base
    }

    /// The number of fields that some document has.
    pub fn num_fields(&self) -> (n: usize)
        ensures
            n == self@.postings.dom().len(),
    {
        assert(self@.postings.dom() =~= self.places@.dom());
        self.places.len()
    }

    /// The values and documents of a field.
    pub fn get(&self, field: &String) -> (list: Option<&FieldIndex>)
        requires
            self.wf(),
        ensures
            match list {
                Some(list) => {
                    &&& list.wf()
                    &&& self@.postings.contains_key(field@)
                    &&& list@ == self@.postings[field@]
                },
                None => !self@.postings.contains_key(field@),
            },
    {
        match self.places.get(field.as_str()) {
            Some(place) => Some(&self.lists[*place]),
            None => None,
        }
    }

    /// Adds one document to those that have a value under a field.
    fn post(&mut self, field: &LabelField, doc_id: usize)
        requires
            old(self).wf(),
            doc_id < usize::MAX,
        ensures
            final(self).wf(),
            final(self)@ == (InvertedIndexView {
                postings: old(self)@.postings.insert(
                    field@.0,
                    old(self)@.posting(field@.0).insert((field@.1, doc_id)),
                ),
                num_base: old(self)@.num_base,
            }),
    {
        let ghost name = field@.0;
        match self.places.get(field.name.as_str()) {
            Some(place) => {
                let place: usize = *place;
                self.lists[place].post(&field.value, doc_id);
                assert forall|other: Seq<char>| #[trigger]
                    self.places@.contains_key(other) && other != name implies self.places@[other]
                    != place by {
                    assert(self.places@.contains_key(name));
                }
            },
            None => {
                let mut list = FieldIndex::new();
                list.post(&field.value, doc_id);
                let place: usize = self.lists.len();
                self.lists.push(list);
                self.places.insert(field.name.clone(), place);
            },
        }
        assert(self@.postings =~= old(self)@.postings.insert(
            name,
            old(self)@.posting(name).insert((field@.1, doc_id)),
        ));
    }

    /// Adds one document, given by its fields.
    ///
    /// The document is refused where it has no number under `doc_id`. No bit set has room
    /// for the greatest numbers: such a document is refused where a field of it is `true`,
    /// and only counted where none is.
    pub fn add_fields(&mut self, fields: &Vec<LabelField>) -> (r: Result<(), LabelError>)
        requires
            old(self).wf(),
            old(self)@.num_base < usize::MAX,
        ensures
            final(self).wf(),
            match doc_id_of(field_views(fields@)) {
                None => {
                    &&& r matches Err(LabelError::MissingDocId { line })
                    &&& line == old(self)@.num_base
                    &&& final(self)@ == old(self)@
                },
                Some(doc_id) => if doc_id < usize::MAX {
                    &&& r is Ok
                    &&& final(self)@ == old(self)@.add_document(
                        doc_id as usize,
                        field_views(fields@),
                    )
                } else if exists|name: Seq<char>| is_true_field(field_views(fields@), name) {
                    &&& r matches Err(LabelError::DocIdTooLarge { line })
                    &&& line == old(self)@.num_base
                    &&& final(self)@ == old(self)@
                } else {
                    &&& r is Ok
                    &&& final(self)@ == old(self)@.count_document()
                },
            },
    {
        let doc_id: u64 = match find_doc_id(fields) {
            Some(doc_id) => doc_id,
            None => {
                return Err(LabelError::MissingDocId { line: self.num_base });
            },
        };
        if doc_id >= usize::MAX as u64 {
            if any_true_field(fields) {
                return Err(LabelError::DocIdTooLarge { line: self.num_base });
            }
            self.num_base = self.num_base + 1;
            return Ok(());
        }
        let doc_id: usize = doc_id as usize;
        let id_name: String = "doc_id".to_owned();
        let ghost views = field_views(fields@);
        let ghost before = self@;
        let n: usize = fields.len();
        proof {
            assert forall|name: Seq<char>| !#[trigger] has_field(views.take(0), name) by {}
            assert forall|name: Seq<char>| #[trigger]
                self@.postings.contains_key(name) implies self@.postings[name] == post_fields(
                before,
                doc_id,
                views.take(0),
            )[name] by {
                assert(self@.postings[name] =~= post_fields(before, doc_id, views.take(0))[name]);
            }
            assert(self@.postings =~= post_fields(before, doc_id, views.take(0)));
        }
        for i in 0..n
            invariant
                n == fields@.len(),
                views == field_views(fields@),
                id_name@ == doc_id_name(),
                doc_id < usize::MAX,
                self.wf(),
                self@.num_base == before.num_base,
                before.num_base < usize::MAX,
                self@.postings == post_fields(before, doc_id, views.take(i as int)),
        {
            let field = &fields[i];
            let ghost earlier = views.take(i as int);
            let ghost later = views.take(i + 1);
            proof {
                assert(later =~= earlier.push(field@));
                lemma_one_more_field(earlier, field@);
            }
            if field.name != id_name {
                self.post(field, doc_id);
            }
            proof {
                assert forall|name: Seq<char>| #[trigger]
                    self@.postings.contains_key(name) implies self@.postings[name] == post_fields(
                    before,
                    doc_id,
                    later,
                )[name] by {
                    assert(self@.postings[name] =~= post_fields(before, doc_id, later)[name]);
                }
                assert(self@.postings =~= post_fields(before, doc_id, later));
            }
        }
        assert(views.take(n as int) =~= views);
        self.num_base = self.num_base + 1;
        assert(self@ =~= before.add_document(doc_id, views));
        Ok(())
    }

    /// Adds the document of one line of base labels, such as
    /// `{"doc_id": 0, "camera": "Canon", "specs": {"cpu": "i7"}}`. Its fields are the
    /// members of the line, and under dotted names the members of objects among them.
    pub fn add_line(&mut self, line: &str) -> (r: Result<(), LabelError>)
        requires
            old(self).wf(),
            old(self)@.num_base < usize::MAX,
        ensures
            final(self).wf(),
            match json_line(line@) {
                None => {
                    &&& r matches Err(LabelError::Json { line: number, .. })
                    &&& number == old(self)@.num_base
                    &&& final(self)@ == old(self)@
                },
                Some(None) => {
                    &&& r matches Err(LabelError::MissingDocId { line: number })
                    &&& number == old(self)@.num_base
                    &&& final(self)@ == old(self)@
                },
                Some(Some(fields)) => match doc_id_of(fields) {
                    None => {
                        &&& r matches Err(LabelError::MissingDocId { line: number })
                        &&& number == old(self)@.num_base
                        &&& final(self)@ == old(self)@
                    },
                    Some(doc_id) => if doc_id < usize::MAX {
                        &&& r is Ok
                        &&& final(self)@ == old(self)@.add_document(
                            doc_id as usize,
                            fields + nested(fields),
                        )
                    } else if exists|name: Seq<char>| is_true_field(fields, name) {
                        &&& r matches Err(LabelError::DocIdTooLarge { line: number })
                        &&& number == old(self)@.num_base
                        &&& final(self)@ == old(self)@
                    } else {
                        &&& r is Ok
                        &&& final(self)@ == old(self)@.count_document()
                    },
                },
            },
    {
        let mut fields: Vec<LabelField> = match parse_json_line(line) {
            Ok(Some(fields)) => fields,
            Ok(None) => {
                return Err(LabelError::MissingDocId { line: self.num_base });
            },
            Err(cause) => {
                return Err(LabelError::Json { line: self.num_base, cause });
            },
        };
        let ghost views = field_views(fields@);
        if let Some(doc_id) = find_doc_id(&fields) {
            if doc_id < usize::MAX as u64 {
                let mut inner = collect_nested(&fields);
                fields.append(&mut inner);
                proof {
                    assert(field_views(fields@) =~= views + nested(views));
                    lemma_doc_id_stays(views, nested(views));
                }
            }
        }
        self.add_fields(&fields)
    }
}

/// The document of line `number` of base labels: its id and its fields, with those of
/// objects among them under dotted names.
pub fn read_document(line: &str, number: usize) -> (r: Result<
    (u64, Vec<LabelField>),
    LabelError,
>)
    ensures
        match json_line(line@) {
            None => r matches Err(LabelError::Json { line: n, .. }) && n == number,
            Some(None) => r matches Err(LabelError::MissingDocId { line: n }) && n == number,
            Some(Some(fields)) => match doc_id_of(fields) {
                None => r matches Err(LabelError::MissingDocId { line: n }) && n == number,
                Some(doc_id) => {
                    &&& r matches Ok(document)
                    &&& document.0 == doc_id
                    &&& field_views(document.1@) == fields + nested(fields)
                },
            },
        },
{
    let mut fields: Vec<LabelField> = match parse_json_line(line) {
        Ok(Some(fields)) => fields,
        Ok(None) => {
            return Err(LabelError::MissingDocId { line: number });
        },
        Err(cause) => {
            return Err(LabelError::Json { line: number, cause });
        },
    };
    let ghost views = field_views(fields@);
    match find_doc_id(&fields) {
        Some(doc_id) => {
            let mut inner = collect_nested(&fields);
            fields.append(&mut inner);
            assert(field_views(fields@) =~= views + nested(views));
            Ok((doc_id, fields))
        },
        None => Err(LabelError::MissingDocId { line: number }),
    }
}

/// What one more field adds.
proof fn lemma_one_more_field(earlier: Seq<FieldView>, field: FieldView)
    ensures
        forall|name: Seq<char>, value: ValueView| #[trigger]
            has_value(earlier.push(field), name, value) <==> has_value(earlier, name, value) || (
            name != doc_id_name() && field == (name, value)),
        forall|name: Seq<char>| #[trigger]
            has_field(earlier.push(field), name) <==> has_field(earlier, name) || (name
                != doc_id_name() && field.0 == name),
{
    let later = earlier.push(field);
    assert forall|name: Seq<char>, value: ValueView| #[trigger]
        has_value(later, name, value) <==> has_value(earlier, name, value) || (name
        != doc_id_name() && field == (name, value)) by {
        if earlier.contains((name, value)) {
            assert(later[earlier.index_of((name, value))] == (name, value));
        }
        if field == (name, value) {
            assert(later[earlier.len() as int] == field);
        }
        if later.contains((name, value)) && field != (name, value) {
            assert(earlier[later.index_of((name, value))] == (name, value));
        }
    }
    assert forall|name: Seq<char>| #[trigger] has_field(later, name) <==> has_field(earlier, name)
        || (name != doc_id_name() && field.0 == name) by {
        if has_field(earlier, name) {
            let value = choose|value: ValueView| has_value(earlier, name, value);
            assert(has_value(later, name, value));
        }
        if name != doc_id_name() && field.0 == name {
            assert(has_value(later, name, field.1));
        }
        if has_field(later, name) {
            let value = choose|value: ValueView| has_value(later, name, value);
            assert(has_value(earlier, name, value) || field == (name, value));
        }
    }
}

/// Fields behind the one that names the document do not change which document it is.
proof fn lemma_doc_id_stays(fields: Seq<FieldView>, more: Seq<FieldView>)
    requires
        doc_id_of(fields) is Some,
    ensures
        doc_id_of(fields + more) == doc_id_of(fields),
    decreases fields.len(),
{
    let all = fields + more;
    assert(all[0] == fields[0]);
    if fields[0].0 != doc_id_name() {
        assert(all.drop_first() =~= fields.drop_first() + more);
        lemma_doc_id_stays(fields.drop_first(), more);
    }
}

/// Whether a field other than `doc_id` is `true`.
fn any_true_field(fields: &Vec<LabelField>) -> (r: bool)
    ensures
        r == exists|name: Seq<char>| is_true_field(field_views(fields@), name),
{
    let id_name: String = "doc_id".to_owned();
    let ghost views = field_views(fields@);
    let n: usize = fields.len();
    for i in 0..n
        invariant
            n == fields@.len(),
            views == field_views(fields@),
            id_name@ == doc_id_name(),
            forall|j: int|
                0 <= j < i ==> (#[trigger] views[j]).0 == doc_id_name() || views[j].1
                    != ValueView::Bool(true),
    {
        assert(views[i as int] == fields@[i as int]@);
        if fields[i].name != id_name && fields[i].value.is_true() {
            proof {
                let name = fields@[i as int].name@;
                assert(views.contains((name, ValueView::Bool(true))));
                assert(is_true_field(views, name));
            }
            return true;
        }
    }
    assert forall|name: Seq<char>| !is_true_field(views, name) by {
        if is_true_field(views, name) {
            let j = views.index_of((name, ValueView::Bool(true)));
            assert(views[j].0 == name);
        }
    }
    false
}

/// The fields of the objects that members hold, under dotted names.
fn collect_nested(fields: &Vec<LabelField>) -> (inner: Vec<LabelField>)
    ensures
        field_views(inner@) == nested(field_views(fields@)),
{
    let ghost views = field_views(fields@);
    let n: usize = fields.len();
    let mut all: Vec<LabelField> = Vec::new();
    assert(field_views(all@) =~= nested(views.take(0)));
    for i in 0..n
        invariant
            n == fields@.len(),
            views == field_views(fields@),
            field_views(all@) == nested(views.take(i as int)),
    {
        let ghost before = field_views(all@);
        proof {
            assert(views.take(i + 1).drop_last() =~= views.take(i as int));
            assert(views.take(i + 1).last() == fields@[i as int]@);
        }
        if let LabelValue::Other(text) = &fields[i].value {
            if let Ok(Some(members)) = parse_json_line(text.as_str()) {
                let mut more = add_dots(&fields[i].name, &members);
                let ghost added = field_views(more@);
                all.append(&mut more);
                assert(field_views(all@) =~= before + added);
            }
        }
    }
    assert(views.take(n as int) =~= views);
    all
}

/// The fields of an object under dotted names.
fn add_dots(name: &String, members: &Vec<LabelField>) -> (fields: Vec<LabelField>)
    ensures
        field_views(fields@) == dotted(name@, field_views(members@)),
{
    let ghost views = field_views(members@);
    let n: usize = members.len();
    let mut fields: Vec<LabelField> = Vec::with_capacity(n);
    assert(field_views(fields@) =~= dotted(name@, views.take(0)));
    for i in 0..n
        invariant
            n == members@.len(),
            views == field_views(members@),
            field_views(fields@) == dotted(name@, views.take(i as int)),
    {
        let ghost before = fields@;
        assert(field_views(before).len() == i);
        let mut full: String = name.clone();
        full.append(".");
        full.append(members[i].name.as_str());
        assert(full@ == name@ + "."@ + members@[i as int].name@);
        fields.push(LabelField { name: full, value: members[i].value.copied() });
        proof {
            let expected = dotted(name@, views.take(i + 1));
            assert forall|j: int| 0 <= j <= i implies (#[trigger] field_views(fields@)[j])
                == expected[j] by {
                if j < i {
                    assert(field_views(before)[j] == dotted(name@, views.take(i as int))[j]);
                } else {
                    assert(views.take(i + 1)[j] == members@[i as int]@);
                }
            }
            assert(field_views(fields@) =~= expected);
        }
    }
    assert(views.take(n as int) =~= views);
    fields
}

/// The number of the first member named `doc_id`.
fn find_doc_id(fields: &Vec<LabelField>) -> (doc_id: Option<u64>)
    ensures
        doc_id == doc_id_of(field_views(fields@)),
{
    let id_name: String = "doc_id".to_owned();
    let ghost views = field_views(fields@);
    let n: usize = fields.len();
    assert(views.skip(0) =~= views);
    for i in 0..n
        invariant
            n == fields@.len(),
            views == field_views(fields@),
            id_name@ == doc_id_name(),
            doc_id_of(views) == doc_id_of(views.skip(i as int)),
    {
        assert(views.skip(i as int)[0] == fields@[i as int]@);
        assert(views.skip(i as int).drop_first() =~= views.skip(i + 1));
        if fields[i].name == id_name {
            return unsigned(&fields[i].value);
        }
    }
    None
}

/// The number that a value is, where 64 unsigned bits hold it.
fn unsigned(value: &LabelValue) -> (number: Option<u64>)
    ensures
        number == unsigned_of(value@),
{
    match value {
        LabelValue::Unsigned(number) => Some(*number),
        LabelValue::Signed(number) => if *number >= 0 {
            Some(*number as u64)
        } else {
            None
        },
        _ => None,
    }
}

/// The documents that a filter expression selects, by set operations on the documents
/// of each value of a field: the union for a disjunction, the intersection for a conjunction,
/// the complement among all documents for a negation.
pub fn evaluate_ast_with_inverted_index(
    expr: &ASTExpr,
    index: &InvertedIndex,
    universe_size: usize,
) -> (selected: BitSet)
    requires
        index.wf(),
    ensures
        members(selected) == expr.selection(index@, universe_size),
    decreases *expr,
{
    match expr {
        ASTExpr::And(subs) => {
            let selected = evaluate_and(subs.as_slice(), index, universe_size);
            assert(members(selected) =~= expr.selection(index@, universe_size));
            selected
        },
        ASTExpr::Or(subs) => {
            let selected = evaluate_or(subs.as_slice(), index, universe_size);
            assert(members(selected) =~= expr.selection(index@, universe_size));
            selected
        },
        ASTExpr::Not(sub) => {
            let excluded = evaluate_ast_with_inverted_index(sub, index, universe_size);
            let mut complement = all_bits(universe_size);
            remove_all(&mut complement, &excluded);
            assert(members(complement) =~= expr.selection(index@, universe_size));
            complement
        },
        ASTExpr::Compare { field, op } => {
            let selected = match index.get(field) {
                Some(list) => {
                    assert(list@ == index@.posting(field@));
                    list.select(op)
                },
                None => new_bits(),
            };
            assert forall|id: usize| members(selected).contains(id) <==> expr.selects(
                index@,
                universe_size,
                id,
            ) by {
                assert(expr.selects(index@, universe_size, id) <==> exists|value: ValueView|
                    #[trigger]
                    index@.posting(field@).contains((value, id)) && op.holds(Some(value)));
            }
            assert(members(selected) =~= expr.selection(index@, universe_size));
            selected
        },
    }
}

/// The documents that every one of `subs` selects; all documents where there is none.
fn evaluate_and(subs: &[ASTExpr], index: &InvertedIndex, universe_size: usize) -> (result: BitSet)
    requires
        index.wf(),
    ensures
        forall|id: usize| #[trigger]
            members(result).contains(id) <==> if subs@.len() == 0 {
                id < universe_size
            } else {
                forall|i: int|
                    0 <= i < subs@.len() ==> (#[trigger] subs@[i]).selects(
                        index@,
                        universe_size,
                        id,
                    )
            },
    decreases subs@,
{
    let n: usize = subs.len();
    if n == 0 {
        return all_bits(universe_size);
    }
    let mut result = evaluate_ast_with_inverted_index(&subs[0], index, universe_size);
    for i in 1..n
        invariant
            n == subs@.len(),
            0 < n,
            index.wf(),
            forall|id: usize| #[trigger]
                members(result).contains(id) <==> forall|j: int|
                    0 <= j < i ==> (#[trigger] subs@[j]).selects(index@, universe_size, id),
    {
        let sub = evaluate_ast_with_inverted_index(&subs[i], index, universe_size);
        intersect_bits(&mut result, &sub);
    }
    result
}

/// The documents that at least one of `subs` selects.
fn evaluate_or(subs: &[ASTExpr], index: &InvertedIndex, universe_size: usize) -> (result: BitSet)
    requires
        index.wf(),
    ensures
        forall|id: usize| #[trigger]
            members(result).contains(id) <==> exists|i: int|
                0 <= i < subs@.len() && (#[trigger] subs@[i]).selects(
                    index@,
                    universe_size,
                    id,
                ),
    decreases subs@,
{
    let n: usize = subs.len();
    let mut result = new_bits();
    for i in 0..n
        invariant
            n == subs@.len(),
            index.wf(),
            forall|id: usize| #[trigger]
                members(result).contains(id) <==> exists|j: int|
                    0 <= j < i && (#[trigger] subs@[j]).selects(index@, universe_size, id),
    {
        let sub = evaluate_ast_with_inverted_index(&subs[i], index, universe_size);
        let ghost before = members(result);
        unite_bits(&mut result, &sub);
        assert forall|id: usize| #[trigger] members(result).contains(id) <==> exists|j: int|
            0 <= j < i + 1 && (#[trigger] subs@[j]).selects(index@, universe_size, id) by {
            assert(members(result).contains(id) <==> (before.contains(id) || subs@[i as int].selects(
                index@,
                universe_size,
                id,
            )));
        }
    }
    result
}

/// Takes the members of `excluded` out of a bit set.
fn remove_all(bits: &mut BitSet, excluded: &BitSet)
    ensures
        members(*final(bits)) == members(*old(bits)).difference(members(*excluded)),
{
    let list = list_bits(excluded);
    let n: usize = list.len();
    assert(members(*bits) =~= members(*old(bits)).difference(list@.take(0).to_set()));
    for i in 0..n
        invariant
            n == list@.len(),
            members(*bits) == members(*old(bits)).difference(list@.take(i as int).to_set()),
    {
        remove_bit(bits, list[i]);
        proof {
            let earlier = list@.take(i as int);
            let later = list@.take(i + 1);
            assert(later =~= earlier.push(list@[i as int]));
            assert(later.to_set() =~= earlier.to_set().insert(list@[i as int])) by {
                assert(later[i as int] == list@[i as int]);
                assert forall|x: usize| earlier.contains(x) implies later.contains(x) by {
                    let k = earlier.index_of(x);
                    assert(later[k] == x);
                }
            }
            assert(members(*bits) =~= members(*old(bits)).difference(later.to_set()));
        }
    }
    assert(list@.take(n as int) =~= list@);
}

/// Every number below `size`.
fn all_bits(size: usize) -> (all: BitSet)
    ensures
        members(all) == Set::new(|id: usize| id < size),
{
    let mut all = bits_with_capacity(size);
    assert(members(all) =~= Set::new(|id: usize| id < 0));
    for i in 0..size
        invariant
            members(all) == Set::new(|id: usize| id < i),
    {
        insert_bit(&mut all, i);
        assert(members(all) =~= Set::new(|id: usize| id < i + 1));
    }
    all
}

/// The bitmap of each query, and how many documents it selects.
pub fn compute_filter_bitmaps(index: &InvertedIndex, queries: &Vec<ASTExpr>) -> (r: (
    Vec<BitSet>,
    Vec<usize>,
))
    requires
        index.wf(),
    ensures
        r.0@.len() == queries@.len(),
        r.1@.len() == queries@.len(),
        forall|q: int|
            0 <= q < queries@.len() ==> members(#[trigger] r.0@[q]) == queries@[q].selection(
                index@,
                index@.num_base as usize,
            ),
        forall|q: int|
            0 <= q < queries@.len() ==> #[trigger] r.1@[q] == queries@[q].selection(
                index@,
                index@.num_base as usize,
            ).len(),
{
    let n: usize = queries.len();
    let mut bitmaps: Vec<BitSet> = Vec::with_capacity(n);
    let mut counts: Vec<usize> = Vec::with_capacity(n);
    for q in 0..n
        invariant
            n == queries@.len(),
            index.wf(),
            bitmaps@.len() == q,
            counts@.len() == q,
            forall|p: int|
                0 <= p < q ==> members(#[trigger] bitmaps@[p]) == queries@[p].selection(
                    index@,
                    index@.num_base as usize,
                ),
            forall|p: int|
                0 <= p < q ==> #[trigger] counts@[p] == queries@[p].selection(
                    index@,
                    index@.num_base as usize,
                ).len(),
    {
        let bitmap = evaluate_ast_with_inverted_index(&queries[q], index, index.num_base);
        counts.push(count_bits(&bitmap));
        bitmaps.push(bitmap);
    }
    (bitmaps, counts)
}

/// Between two reports of progress so many label lines are read.
pub const LABEL_STEP: usize = 200000;

/// Whether progress is reported after so many label lines.
pub fn reports_labels(read: usize) -> (r: bool)
    ensures
        r == (read as int % LABEL_STEP as int == 0),
{
    read % LABEL_STEP == 0
}

} // verus!
