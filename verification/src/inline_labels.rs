//! Label ids for the fields of documents, and filters over these ids.
use vstd::hash_map::StringHashMap;
use vstd::prelude::*;

use crate::ast::ASTExpr;
use crate::filter_expr::{carries, lemma_or_holds, ASTIdExpr};
use crate::labels::{doc_id_name, field_views, has_value, FieldView, LabelField};
use crate::routing::{clauses, literals, literals_of_all};
use crate::value_table::ValueTable;
use crate::values::CompareOp;

verus! {

broadcast use vstd::hash_map::group_hash_map_axioms;

/// The values of one field and the label id of each.
struct Slot {
    values: ValueTable,
    ids: Vec<u64>,
}

/// The fields with their values that documents have, each with its place as its label id.
pub struct LabelTable {
    known: Vec<LabelField>,
    /// The place of each field in `slots`.
    names: StringHashMap<usize>,
    slots: Vec<Slot>,
}

impl View for LabelTable {
    type V = Seq<FieldView>;

    closed spec fn view(&self) -> Seq<FieldView> {
        field_views(self.known@)
    }
}

/// The slot names fields of this name, under the label ids where they are known.
spec fn names_known(slot: Slot, name: Seq<char>, known: Seq<FieldView>) -> bool {
    &&& slot.values.wf()
    &&& slot.ids@.len() == slot.values@.len()
    &&& forall|j: int|
        0 <= j < slot.ids@.len() ==> (#[trigger] slot.ids@[j]) < known.len()
            && known[slot.ids@[j] as int] == (name, slot.values@[j])
}

impl LabelTable {
    /// No field stands twice with the same value, and the slots name exactly what is known.
    pub closed spec fn wf(&self) -> bool {
        &&& self@.no_duplicates()
        &&& forall|name: Seq<char>| #[trigger]
            self.names@.contains_key(name) ==> self.names@[name] < self.slots@.len()
                && names_known(self.slots@[self.names@[name] as int], name, self@)
        &&& forall|a: Seq<char>, b: Seq<char>|
            #![trigger self.names@.contains_key(a), self.names@.contains_key(b)]
            self.names@.contains_key(a) && self.names@.contains_key(b) && a != b
                ==> self.names@[a] != self.names@[b]
        &&& forall|i: int|
            0 <= i < self@.len() ==> self.names@.contains_key((#[trigger] self@[i]).0)
                && self.slots@[self.names@[self@[i].0] as int].values@.contains(self@[i].1)
    }

    pub fn new() -> (table: Self)
        ensures
            table.wf(),
            table@ == Seq::<FieldView>::empty(),
    {
        let table = LabelTable {
            known: Vec::new(),
            names: StringHashMap::new(),
            slots: Vec::new(),
        };
        assert(table@ =~= Seq::<FieldView>::empty());
        table
    }

    /// No field stands twice with the same value.
    pub proof fn lemma_wf(&self)
        requires
            self.wf(),
        ensures
            self@.no_duplicates(),
            self@.len() <= usize::MAX,
    {
        assert(self.known.len() == self.known@.len());
    }

    /// The number of label ids.
    pub fn len(&self) -> (n: usize)
        ensures
            n == self@.len(),
    {
        self.known.len()
    }

    /// The field and the value of a label id.
    pub fn get(&self, label: usize) -> (field: &LabelField)
        requires
            label < self@.len(),
        ensures
            field@ == self@[label as int],
    {
        &self.known[label]
    }

    /// The label id of a field with its value, which becomes known if it was not.
    pub fn intern(&mut self, field: &LabelField) -> (label: u64)
        requires
            old(self).wf(),
        ensures
            final(self).wf(),
            final(self)@ == if old(self)@.contains(field@) {
                old(self)@
            } else {
                old(self)@.push(field@)
            },
            label < final(self)@.len(),
            final(self)@[label as int] == field@,
    {
        let slot: usize = self.slot_of(&field.name);
        let ghost before = *self;
        match self.slots[slot].values.place_of(&field.value) {
            Some(place) => {
                let label: u64 = self.slots[slot].ids[place];
                assert(self@.contains(self@[label as int]));
                label
            },
            None => {
                let label: u64 = self.known.len() as u64;
                proof {
                    if self@.contains(field@) {
                        let i = self@.index_of(field@);
                        assert(self@[i].0 == field@.0);
                    }
                }
                self.known.push(LabelField {
                    name: field.name.clone(),
                    value: field.value.copied(),
                });
                self.slots[slot].values.insert(&field.value);
                self.slots[slot].ids.push(label);
                proof {
                    assert(self.known.len() == self.known@.len());
                    assert(self@ =~= before@.push(field@));
                    lemma_interned(before, *self, field@, slot as int);
                }
                label
            },
        }
    }

    /// The slot of a field, which is made where there is none.
    fn slot_of(&mut self, name: &String) -> (slot: usize)
        requires
            old(self).wf(),
        ensures
            final(self).wf(),
            final(self)@ == old(self)@,
            final(self).names@.contains_key(name@),
            final(self).names@[name@] == slot,
            slot < final(self).slots@.len(),
    {
        match self.names.get(name.as_str()) {
            Some(slot) => *slot,
            None => {
                let slot: usize = self.slots.len();
                let ghost before = *self;
                self.slots.push(Slot { values: ValueTable::new(), ids: Vec::new() });
                self.names.insert(name.clone(), slot);
                proof {
                    assert forall|other: Seq<char>| #[trigger]
                        self.names@.contains_key(other) implies self.names@[other]
                        < self.slots@.len() && names_known(
                        self.slots@[self.names@[other] as int],
                        other,
                        self@,
                    ) by {
                        if other != name@ {
                            assert(before.names@.contains_key(other));
                        }
                    }
                    assert forall|i: int| 0 <= i < self@.len() implies self.names@.contains_key(
                        (#[trigger] self@[i]).0,
                    ) && self.slots@[self.names@[self@[i].0] as int].values@.contains(
                        self@[i].1,
                    ) by {
                        assert(before.names@.contains_key(before@[i].0));
                    }
                }
                slot
            },
        }
    }

    /// The label ids of a document, each once. Fields that were not known become known, in
    /// their order; what was known keeps its id.
    pub fn document_labels(&mut self, fields: &Vec<LabelField>) -> (labels: Vec<u64>)
        requires
            old(self).wf(),
        ensures
            final(self).wf(),
            final(self)@ == with_fields(old(self)@, field_views(fields@)),
            old(self)@.is_prefix_of(final(self)@),
            labels@.no_duplicates(),
            lists_document(labels@, final(self)@, field_views(fields@)),
    {
        let id_name: String = "doc_id".to_owned();
        let ghost views = field_views(fields@);
        let ghost start = self@;
        let n: usize = fields.len();
        let mut labels: Vec<u64> = Vec::new();
        assert(with_fields(start, views.take(0)) =~= start);
        for i in 0..n
            invariant
                n == fields@.len(),
                views == field_views(fields@),
                id_name@ == doc_id_name(),
                self.wf(),
                self@ == with_fields(start, views.take(i as int)),
                start.is_prefix_of(self@),
                labels@.no_duplicates(),
                forall|k: int| 0 <= k < labels@.len() ==> #[trigger] labels@[k] < self@.len(),
                forall|k: int|
                    0 <= k < labels@.len() ==> has_value(
                        views.take(i as int),
                        self@[#[trigger] labels@[k] as int].0,
                        self@[labels@[k] as int].1,
                    ),
                forall|j: int|
                    0 <= j < i && (#[trigger] views[j]).0 != doc_id_name() ==> exists|k: int|
                        0 <= k < labels@.len() && self@[#[trigger] labels@[k] as int] == views[j],
        {
            let field = &fields[i];
            let ghost before = self@;
            let ghost earlier = labels@;
            assert(views[i as int] == field@);
            assert(views.take(i + 1).drop_last() =~= views.take(i as int));
            if field.name != id_name {
                let label: u64 = self.intern(field);
                let fresh: bool = !contains_label(&labels, label);
                if fresh {
                    labels.push(label);
                }
                proof {
                    lemma_labels_step(
                        views,
                        before,
                        self@,
                        earlier,
                        labels@,
                        label,
                        i as int,
                    );
                }
            } else {
                proof {
                    assert forall|k: int| 0 <= k < labels@.len() implies has_value(
                        views.take(i + 1),
                        self@[#[trigger] labels@[k] as int].0,
                        self@[labels@[k] as int].1,
                    ) by {
                        lemma_take_more(views, i as int, self@[labels@[k] as int]);
                    }
                }
            }
        }
        assert(views.take(n as int) =~= views);
        proof {
            assert forall|f: FieldView| has_value(views, f.0, f.1) implies #[trigger] self@.contains(
                f,
            ) by {
                let j = views.index_of(f);
                assert(views[j] == f);
                let k = choose|k: int|
                    0 <= k < labels@.len() && self@[#[trigger] labels@[k] as int] == views[j];
                assert(self@[labels@[k] as int] == f);
            }
            assert forall|l: int| 0 <= l < self@.len() implies (labels@.contains(l as u64)
                <==> has_value(views, (#[trigger] self@[l]).0, self@[l].1)) by {
                self.lemma_wf();
                if labels@.contains(l as u64) {
                    let k = labels@.index_of(l as u64);
                    assert(labels@[k] == l as u64);
                }
                if has_value(views, self@[l].0, self@[l].1) {
                    let j = views.index_of(self@[l]);
                    assert(views[j] == self@[l]);
                    let k = choose|k: int|
                        0 <= k < labels@.len() && self@[#[trigger] labels@[k] as int] == views[j];
                    assert(self@[labels@[k] as int] == self@[l]);
                    assert(labels@[k] == l);
                }
            }
        }
        labels
    }

    /// The filter over label ids that holds for the labels of a document where the
    /// expression holds for its fields: a comparison becomes the disjunction of the labels
    /// whose values make it hold, and what is made of comparisons keeps its shape.
    pub fn encode_filter(&self, expr: &ASTExpr) -> (filter: ASTIdExpr)
        ensures
            forall|labels: Seq<u32>| #[trigger]
                filter.holds(labels) == accepts_labels(*expr, self@, labels),
            literals(filter) == labels_of(*expr, self@),
            clauses(filter) == clauses_of(*expr, self@),
        decreases *expr,
    {
        match expr {
            ASTExpr::And(subs) => {
                let parts = self.encode_all(subs.as_slice());
                let filter = ASTIdExpr::And(parts);
                proof {
                    assert forall|labels: Seq<u32>| #[trigger] filter.holds(labels)
                        == accepts_labels(*expr, self@, labels) by {
                        lemma_conjunction(*subs, parts, self@, labels);
                    }
                    lemma_clauses(*subs, parts, self@);
                }
                filter
            },
            ASTExpr::Or(subs) => {
                let parts = self.encode_all(subs.as_slice());
                let filter = ASTIdExpr::Or(parts);
                proof {
                    assert forall|labels: Seq<u32>| #[trigger] filter.holds(labels)
                        == accepts_labels(*expr, self@, labels) by {
                        lemma_disjunction(*subs, parts, self@, labels);
                    }
                    lemma_labels_of_all(subs@, parts@, self@);
                }
                filter
            },
            ASTExpr::Not(sub) => {
                let part = self.encode_filter(sub);
                let filter = ASTIdExpr::Not(Box::new(part));
                assert forall|labels: Seq<u32>| #[trigger] filter.holds(labels) == accepts_labels(
                    *expr,
                    self@,
                    labels,
                ) by {
                    assert(part.holds(labels) == accepts_labels(**sub, self@, labels));
                }
                filter
            },
            ASTExpr::Compare { field, op } => {
                let parts = self.labels_for(field, op);
                let filter = ASTIdExpr::Or(parts);
                proof {
                    assert forall|labels: Seq<u32>| #[trigger] filter.holds(labels)
                        == accepts_labels(*expr, self@, labels) by {
                        lemma_or_holds(parts, labels);
                        lemma_comparison(*field, *op, self@, labels);
                    }
                }
                filter
            },
        }
    }

    /// Each of the expressions over label ids.
    fn encode_all(&self, subs: &[ASTExpr]) -> (parts: Vec<ASTIdExpr>)
        ensures
            parts@.len() == subs@.len(),
            forall|i: int, labels: Seq<u32>|
                0 <= i < subs@.len() ==> #[trigger] parts@[i].holds(labels) == accepts_labels(
                    subs@[i],
                    self@,
                    labels,
                ),
            forall|i: int|
                0 <= i < subs@.len() ==> literals(#[trigger] parts@[i]) == labels_of(
                    subs@[i],
                    self@,
                ),
        decreases subs@,
    {
        let n: usize = subs.len();
        let mut parts: Vec<ASTIdExpr> = Vec::with_capacity(n);
        for i in 0..n
            invariant
                n == subs@.len(),
                parts@.len() == i,
                forall|j: int, labels: Seq<u32>|
                    0 <= j < i ==> #[trigger] parts@[j].holds(labels) == accepts_labels(
                        subs@[j],
                        self@,
                        labels,
                    ),
                forall|j: int|
                    0 <= j < i ==> literals(#[trigger] parts@[j]) == labels_of(subs@[j], self@),
        {
            parts.push(self.encode_filter(&subs[i]));
        }
        parts
    }

    /// The labels whose values make a comparison of a field hold, in ascending order.
    fn labels_for(&self, field: &String, op: &CompareOp) -> (parts: Vec<ASTIdExpr>)
        ensures
            literals_of_all(parts@) == Some(wanted_labels(self@, field@, *op, self@.len() as int)),
            forall|labels: Seq<u32>|
                (exists|j: int| 0 <= j < parts@.len() && (#[trigger] parts@[j]).holds(labels))
                    <==> #[trigger] carries_one(self@, field@, *op, labels),
    {
        let n: usize = self.known.len();
        let mut parts: Vec<ASTIdExpr> = Vec::new();
        let ghost mut places: Seq<int> = Seq::empty();
        proof {
            reveal(Seq::filter);
            assert(wanted_labels(self@, field@, *op, 0) =~= Seq::<u64>::empty());
        }
        for i in 0..n
            invariant
                n == self.known@.len(),
                n == self@.len(),
                places.len() == parts@.len(),
                forall|j: int|
                    0 <= j < parts@.len() ==> 0 <= #[trigger] places[j] < i && parts@[j]
                        == ASTIdExpr::Terminal(places[j] as u64) && wanted(
                        self@,
                        field@,
                        *op,
                        places[j],
                    ),
                forall|l: int|
                    0 <= l < i && #[trigger] wanted(self@, field@, *op, l) ==> exists|j: int|
                        0 <= j < places.len() && #[trigger] places[j] == l,
                literals_of_all(parts@) == Some(wanted_labels(self@, field@, *op, i as int)),
        {
            let ghost earlier = places;
            let ghost before = parts@;
            let known = &self.known[i];
            assert(self@[i as int] == known@);
            proof {
                lemma_wanted_step(self@, field@, *op, i as int);
            }
            if known.name == *field && op.accepts(&known.value) {
                parts.push(ASTIdExpr::Terminal(i as u64));
                proof {
                    assert(parts@.drop_last() =~= before);
                    assert(literals(parts@.last()) == Some(seq![i as u64]));
                    assert(wanted_labels(self@, field@, *op, i as int) + seq![i as u64]
                        =~= wanted_labels(self@, field@, *op, i as int).push(i as u64));
                    places = places.push(i as int);
                    assert(places[earlier.len() as int] == i);
                    assert forall|l: int|
                        0 <= l < i && #[trigger] wanted(self@, field@, *op, l) implies exists|
                        j: int,
                    | 0 <= j < places.len() && #[trigger] places[j] == l by {
                        let j = choose|j: int| 0 <= j < earlier.len() && #[trigger] earlier[j] == l;
                        assert(places[j] == l);
                    }
                }
            }
        }
        assert forall|labels: Seq<u32>|
            (exists|j: int| 0 <= j < parts@.len() && (#[trigger] parts@[j]).holds(labels))
                <==> #[trigger] carries_one(self@, field@, *op, labels) by {
            if exists|j: int| 0 <= j < parts@.len() && (#[trigger] parts@[j]).holds(labels) {
                let j = choose|j: int| 0 <= j < parts@.len() && (#[trigger] parts@[j]).holds(labels);
                let l = places[j];
                assert(wanted(self@, field@, *op, l) && carries(labels, l as u64));
            }
            if carries_one(self@, field@, *op, labels) {
                let l = choose|l: int|
                    0 <= l < self@.len() && #[trigger] wanted(self@, field@, *op, l) && carries(
                        labels,
                        l as u64,
                    );
                let j = choose|j: int| 0 <= j < places.len() && #[trigger] places[j] == l;
                assert(parts@[j].holds(labels));
            }
        }
        parts
    }
}

fn contains_label(labels: &Vec<u64>, label: u64) -> (r: bool)
    ensures
        r == labels@.contains(label),
{
    let n: usize = labels.len();
    for i in 0..n
        invariant
            n == labels@.len(),
            forall|j: int| 0 <= j < i ==> labels@[j] != label,
    {
        if labels[i] == label {
            return true;
        }
    }
    false
}

/// The labels are exactly those of the fields of a document, all of which are known.
pub open spec fn lists_document(
    labels: Seq<u64>,
    known: Seq<FieldView>,
    fields: Seq<FieldView>,
) -> bool {
    &&& forall|k: int| 0 <= k < labels.len() ==> #[trigger] labels[k] < known.len()
    &&& forall|l: int|
        0 <= l < known.len() ==> (labels.contains(l as u64) <==> has_value(
            fields,
            (#[trigger] known[l]).0,
            known[l].1,
        ))
    &&& forall|f: FieldView| has_value(fields, f.0, f.1) ==> #[trigger] known.contains(f)
}

/// What is known after a document: behind what was known the fields of the document that
/// were not, in their order. The document's own id is no such field.
pub open spec fn with_fields(known: Seq<FieldView>, fields: Seq<FieldView>) -> Seq<FieldView>
    decreases fields.len(),
{
    if fields.len() == 0 {
        known
    } else {
        let before = with_fields(known, fields.drop_last());
        if fields.last().0 == doc_id_name() || before.contains(fields.last()) {
            before
        } else {
            before.push(fields.last())
        }
    }
}

/// The value of a label makes a comparison of a field hold.
pub open spec fn wanted(known: Seq<FieldView>, name: Seq<char>, op: CompareOp, label: int) -> bool {
    known[label].0 == name && op.holds(Some(known[label].1))
}

/// The labels of the first `n` known fields whose values make a comparison of a field hold,
/// in ascending order.
pub open spec fn wanted_labels(
    known: Seq<FieldView>,
    name: Seq<char>,
    op: CompareOp,
    n: int,
) -> Seq<u64> {
    Seq::new(n as nat, |l: int| l as u64).filter(|l: u64| wanted(known, name, op, l as int))
}

/// The labels that an expression asks for one of: those of a comparison, or of a disjunction
/// of such expressions, one part behind the other. No other expression asks for this.
pub open spec fn labels_of(expr: ASTExpr, known: Seq<FieldView>) -> Option<Seq<u64>>
    decreases expr,
{
    match expr {
        ASTExpr::Compare { field, op } => Some(
            wanted_labels(known, field@, op, known.len() as int),
        ),
        ASTExpr::Or(subs) => labels_of_all(subs@, known),
        _ => None,
    }
}

/// The labels of several expressions, one behind the other.
pub open spec fn labels_of_all(subs: Seq<ASTExpr>, known: Seq<FieldView>) -> Option<Seq<u64>>
    decreases subs,
{
    if subs.len() == 0 {
        Some(Seq::empty())
    } else {
        match (labels_of_all(subs.drop_last(), known), labels_of(subs.last(), known)) {
            (Some(before), Some(labels)) => Some(before + labels),
            _ => None,
        }
    }
}

/// The clauses of an expression: of a conjunction the labels of each part, of any other
/// expression its own labels alone.
pub open spec fn clauses_of(expr: ASTExpr, known: Seq<FieldView>) -> Option<Seq<Seq<u64>>> {
    match expr {
        ASTExpr::And(subs) => if forall|i: int|
            0 <= i < subs@.len() ==> labels_of(#[trigger] subs@[i], known) is Some {
            Some(Seq::new(subs@.len(), |i: int| labels_of(subs@[i], known)->0))
        } else {
            None
        },
        _ => match labels_of(expr, known) {
            Some(labels) => Some(seq![labels]),
            None => None,
        },
    }
}

/// A point with these labels carries one whose value makes a comparison of a field hold.
pub open spec fn carries_one(
    known: Seq<FieldView>,
    name: Seq<char>,
    op: CompareOp,
    labels: Seq<u32>,
) -> bool {
    exists|l: int|
        0 <= l < known.len() && #[trigger] wanted(known, name, op, l) && carries(labels, l as u64)
}

/// The expression holds for a point that carries exactly these labels.
pub open spec fn accepts_labels(
    expr: ASTExpr,
    known: Seq<FieldView>,
    labels: Seq<u32>,
) -> bool
    decreases expr,
{
    match expr {
        ASTExpr::And(subs) => forall|i: int|
            0 <= i < subs@.len() ==> accepts_labels(#[trigger] subs@[i], known, labels),
        ASTExpr::Or(subs) => exists|i: int|
            0 <= i < subs@.len() && accepts_labels(#[trigger] subs@[i], known, labels),
        ASTExpr::Not(sub) => !accepts_labels(*sub, known, labels),
        ASTExpr::Compare { field, op } => carries_one(known, field@, op, labels),
    }
}

/// What a comparison means for labels.
pub(crate) proof fn lemma_comparison(
    field: String,
    op: CompareOp,
    known: Seq<FieldView>,
    labels: Seq<u32>,
)
    ensures
        accepts_labels(ASTExpr::Compare { field, op }, known, labels) == carries_one(
            known,
            field@,
            op,
            labels,
        ),
{
}

proof fn lemma_conjunction(
    subs: Vec<ASTExpr>,
    parts: Vec<ASTIdExpr>,
    known: Seq<FieldView>,
    labels: Seq<u32>,
)
    requires
        parts@.len() == subs@.len(),
        forall|i: int|
            0 <= i < subs@.len() ==> (#[trigger] parts@[i]).holds(labels) == accepts_labels(
                subs@[i],
                known,
                labels,
            ),
    ensures
        ASTIdExpr::And(parts).holds(labels) == accepts_labels(ASTExpr::And(subs), known, labels),
{
    let filter = ASTIdExpr::And(parts);
    let expr = ASTExpr::And(subs);
    if filter.holds(labels) {
        assert forall|i: int| 0 <= i < subs@.len() implies accepts_labels(
            #[trigger] subs@[i],
            known,
            labels,
        ) by {
            let inner = filter->And_0;
            assert(inner@[i].holds(labels));
        }
    }
    if accepts_labels(expr, known, labels) {
        assert forall|i: int| 0 <= i < parts@.len() implies (#[trigger] parts@[i]).holds(
            labels,
        ) by {
            let inner = expr->And_0;
            assert(accepts_labels(inner@[i], known, labels));
        }
    }
}

proof fn lemma_disjunction(
    subs: Vec<ASTExpr>,
    parts: Vec<ASTIdExpr>,
    known: Seq<FieldView>,
    labels: Seq<u32>,
)
    requires
        parts@.len() == subs@.len(),
        forall|i: int|
            0 <= i < subs@.len() ==> (#[trigger] parts@[i]).holds(labels) == accepts_labels(
                subs@[i],
                known,
                labels,
            ),
    ensures
        ASTIdExpr::Or(parts).holds(labels) == accepts_labels(ASTExpr::Or(subs), known, labels),
{
    let expr = ASTExpr::Or(subs);
    lemma_or_holds(parts, labels);
    if ASTIdExpr::Or(parts).holds(labels) {
        let i = choose|i: int| 0 <= i < parts@.len() && (#[trigger] parts@[i]).holds(labels);
        let inner = expr->Or_0;
        assert(accepts_labels(inner@[i], known, labels));
        assert(exists|j: int|
            0 <= j < inner@.len() && accepts_labels(#[trigger] inner@[j], known, labels));
    }
    if accepts_labels(expr, known, labels) {
        let i = choose|i: int|
            0 <= i < subs@.len() && accepts_labels(#[trigger] subs@[i], known, labels);
        assert(parts@[i].holds(labels));
    }
}

/// One more known field adds its label exactly where it is wanted.
proof fn lemma_wanted_step(known: Seq<FieldView>, name: Seq<char>, op: CompareOp, i: int)
    requires
        0 <= i <= u64::MAX,
    ensures
        wanted_labels(known, name, op, i + 1) == if wanted(known, name, op, i) {
            wanted_labels(known, name, op, i).push(i as u64)
        } else {
            wanted_labels(known, name, op, i)
        },
{
    let before = Seq::new(i as nat, |l: int| l as u64);
    let after = Seq::new((i + 1) as nat, |l: int| l as u64);
    let keep = |l: u64| wanted(known, name, op, l as int);
    assert(after =~= before.push(i as u64));
    reveal(Seq::filter);
    before.lemma_filter_push(i as u64, keep);
}

/// Parts with the labels of expressions have the labels of them all together.
proof fn lemma_labels_of_all(subs: Seq<ASTExpr>, parts: Seq<ASTIdExpr>, known: Seq<FieldView>)
    requires
        parts.len() == subs.len(),
        forall|i: int|
            0 <= i < subs.len() ==> literals(#[trigger] parts[i]) == labels_of(subs[i], known),
    ensures
        literals_of_all(parts) == labels_of_all(subs, known),
    decreases subs.len(),
{
    if subs.len() > 0 {
        let rest = parts.drop_last();
        assert forall|i: int| 0 <= i < rest.len() implies literals(#[trigger] rest[i])
            == labels_of(subs.drop_last()[i], known) by {
            assert(literals(parts[i]) == labels_of(subs[i], known));
        }
        lemma_labels_of_all(subs.drop_last(), rest, known);
        assert(literals(parts[parts.len() - 1]) == labels_of(subs[subs.len() - 1], known));
    }
}

/// A conjunction of parts with the labels of expressions has the clauses of theirs.
proof fn lemma_clauses(subs: Vec<ASTExpr>, parts: Vec<ASTIdExpr>, known: Seq<FieldView>)
    requires
        parts@.len() == subs@.len(),
        forall|i: int|
            0 <= i < subs@.len() ==> literals(#[trigger] parts@[i]) == labels_of(
                subs@[i],
                known,
            ),
    ensures
        clauses(ASTIdExpr::And(parts)) == clauses_of(ASTExpr::And(subs), known),
{
    assert forall|i: int| 0 <= i < subs@.len() implies labels_of(#[trigger] subs@[i], known)
        == literals(parts@[i]) by {
        assert(literals(parts@[i]) == labels_of(subs@[i], known));
    }
    assert(Seq::new(parts@.len(), |i: int| literals(parts@[i])->0) =~= Seq::new(
        subs@.len(),
        |i: int| labels_of(subs@[i], known)->0,
    ));
    if forall|i: int| 0 <= i < subs@.len() ==> labels_of(#[trigger] subs@[i], known) is Some {
        assert forall|i: int| 0 <= i < parts@.len() implies literals(
            #[trigger] parts@[i],
        ) is Some by {
            assert(labels_of(subs@[i], known) is Some);
        }
    }
}

/// What was a field of the first documents is one of more of them.
proof fn lemma_take_more(views: Seq<FieldView>, i: int, field: FieldView)
    requires
        0 <= i < views.len(),
        has_value(views.take(i), field.0, field.1),
    ensures
        has_value(views.take(i + 1), field.0, field.1),
{
    let j = views.take(i).index_of((field.0, field.1));
    assert(views.take(i + 1)[j] == (field.0, field.1));
}

/// One more label of a document.
proof fn lemma_labels_step(
    views: Seq<FieldView>,
    before: Seq<FieldView>,
    after: Seq<FieldView>,
    earlier: Seq<u64>,
    labels: Seq<u64>,
    label: u64,
    i: int,
)
    requires
        0 <= i < views.len(),
        views[i].0 != doc_id_name(),
        before.is_prefix_of(after),
        label < after.len(),
        after[label as int] == views[i],
        labels == if earlier.contains(label) {
            earlier
        } else {
            earlier.push(label)
        },
        earlier.no_duplicates(),
        forall|k: int| 0 <= k < earlier.len() ==> #[trigger] earlier[k] < before.len(),
        forall|k: int|
            0 <= k < earlier.len() ==> has_value(
                views.take(i),
                before[#[trigger] earlier[k] as int].0,
                before[earlier[k] as int].1,
            ),
        forall|j: int|
            0 <= j < i && (#[trigger] views[j]).0 != doc_id_name() ==> exists|k: int|
                0 <= k < earlier.len() && before[#[trigger] earlier[k] as int] == views[j],
    ensures
        labels.no_duplicates(),
        forall|k: int| 0 <= k < labels.len() ==> #[trigger] labels[k] < after.len(),
        forall|k: int|
            0 <= k < labels.len() ==> has_value(
                views.take(i + 1),
                after[#[trigger] labels[k] as int].0,
                after[labels[k] as int].1,
            ),
        forall|j: int|
            0 <= j < i + 1 && (#[trigger] views[j]).0 != doc_id_name() ==> exists|k: int|
                0 <= k < labels.len() && after[#[trigger] labels[k] as int] == views[j],
{
    assert(views.take(i + 1)[i] == views[i]);
    assert forall|k: int| 0 <= k < labels.len() implies #[trigger] labels[k] < after.len()
        && has_value(
        views.take(i + 1),
        after[labels[k] as int].0,
        after[labels[k] as int].1,
    ) by {
        if k < earlier.len() {
            assert(labels[k] == earlier[k]);
            assert(after[earlier[k] as int] == before[earlier[k] as int]);
            lemma_take_more(views, i, before[earlier[k] as int]);
        }
    }
    assert forall|j: int|
        0 <= j < i + 1 && (#[trigger] views[j]).0 != doc_id_name() implies exists|k: int|
        0 <= k < labels.len() && after[#[trigger] labels[k] as int] == views[j] by {
        if j < i {
            let k = choose|k: int|
                0 <= k < earlier.len() && before[#[trigger] earlier[k] as int] == views[j];
            assert(labels[k] == earlier[k]);
            assert(after[labels[k] as int] == views[j]);
        } else if earlier.contains(label) {
            let k = earlier.index_of(label);
            assert(after[labels[k] as int] == views[j]);
        } else {
            assert(labels[earlier.len() as int] == label);
        }
    }
}

/// A new label keeps the table well formed.
proof fn lemma_interned(before: LabelTable, after: LabelTable, field: FieldView, slot: int)
    requires
        before.wf(),
        !before@.contains(field),
        before.names@.contains_key(field.0),
        before.names@[field.0] == slot,
        !before.slots@[slot].values@.contains(field.1),
        before@.len() < u64::MAX,
        after@ == before@.push(field),
        after.names == before.names,
        after.slots@.len() == before.slots@.len(),
        forall|s: int|
            0 <= s < before.slots@.len() && s != slot ==> after.slots@[s] == before.slots@[s],
        after.slots@[slot].values.wf(),
        after.slots@[slot].values@ == before.slots@[slot].values@.push(field.1),
        after.slots@[slot].ids@ == before.slots@[slot].ids@.push(before@.len() as u64),
    ensures
        after.wf(),
{
    let known = after@;
    assert forall|i: int, j: int| 0 <= i < j < known.len() implies known[i] != known[j] by {
        if j == before@.len() {
            assert(before@.contains(before@[i]));
        }
    }
    assert forall|name: Seq<char>| #[trigger] after.names@.contains_key(name) implies
        after.names@[name] < after.slots@.len() && names_known(
        after.slots@[after.names@[name] as int],
        name,
        known,
    ) by {
        let s = after.names@[name] as int;
        assert(before.names@.contains_key(name));
        assert(names_known(before.slots@[s], name, before@));
        let ids = after.slots@[s].ids@;
        assert forall|j: int| 0 <= j < ids.len() implies (#[trigger] ids[j]) < known.len()
            && known[ids[j] as int] == (name, after.slots@[s].values@[j]) by {
            if j < before.slots@[s].ids@.len() {
                assert(ids[j] == before.slots@[s].ids@[j]);
            } else {
                assert(name == field.0);
            }
        }
    }
    assert forall|i: int| 0 <= i < known.len() implies after.names@.contains_key(
        (#[trigger] known[i]).0,
    ) && after.slots@[after.names@[known[i].0] as int].values@.contains(known[i].1) by {
        let values = after.slots@[slot].values@;
        assert(values[values.len() - 1] == field.1);
        if i < before@.len() {
            assert(known[i] == before@[i]);
            let s = before.names@[known[i].0] as int;
            if s == slot {
                let j = before.slots@[s].values@.index_of(known[i].1);
                assert(values[j] == known[i].1);
            }
        }
    }
}

} // verus!
