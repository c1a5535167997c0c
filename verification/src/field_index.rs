//! The documents of each value of one label field.
use bit_set::BitSet;
use vstd::prelude::*;

use crate::bits::{insert_bit, members, new_bits, unite_bits};
use crate::value_table::ValueTable;
use crate::values::{CompareOp, LabelValue, ValueView};

verus! {

/// The values that a field has, each with the documents that have it.
pub struct FieldIndex {
    values: ValueTable,
    lists: Vec<BitSet>,
}

/// A field index is seen as the pairs of a value and a document that has it.
impl View for FieldIndex {
    type V = Set<(ValueView, usize)>;

    closed spec fn view(&self) -> Set<(ValueView, usize)> {
        Set::new(
            |entry: (ValueView, usize)| exists|i: int|
                0 <= i < self.values@.len() && #[trigger] self.values@[i] == entry.0 && members(
                    self.lists@[i],
                ).contains(entry.1),
        )
    }
}

impl FieldIndex {
    /// Every value has its documents.
    pub closed spec fn wf(&self) -> bool {
        &&& self.values.wf()
        &&& self.lists@.len() == self.values@.len()
    }

    pub fn new() -> (index: Self)
        ensures
            index.wf(),
            index@ == Set::<(ValueView, usize)>::empty(),
    {
        let index = FieldIndex { values: ValueTable::new(), lists: Vec::new() };
        assert(index@ =~= Set::<(ValueView, usize)>::empty());
        index
    }

    /// Adds a document to those of a value.
    pub fn post(&mut self, value: &LabelValue, doc_id: usize)
        requires
            old(self).wf(),
            doc_id < usize::MAX,
        ensures
            final(self).wf(),
            final(self)@ == old(self)@.insert((value@, doc_id)),
    {
        let ghost before = *self;
        let place: usize = self.values.insert(value);
        if place == self.lists.len() {
            self.lists.push(new_bits());
        }
        proof {
            self.values.lemma_wf();
            assert(self.values@[before.values@.len() as int] == value@
                || before.values@ == self.values@);
            assert(self.lists@.len() == self.values@.len());
        }
        insert_bit(&mut self.lists[place], doc_id);
        proof {
            let entry = (value@, doc_id);
            assert(self.values@[place as int] == value@);
            assert(members(self.lists@[place as int]).contains(doc_id));
            assert forall|e: (ValueView, usize)| self@.contains(e) <==> before@.insert(
                entry,
            ).contains(e) by {
                if before@.contains(e) {
                    let i = choose|i: int|
                        0 <= i < before.values@.len() && #[trigger] before.values@[i] == e.0
                            && members(before.lists@[i]).contains(e.1);
                    assert(self.values@[i] == e.0);
                    assert(members(self.lists@[i]).contains(e.1));
                }
                if self@.contains(e) {
                    let i = choose|i: int|
                        0 <= i < self.values@.len() && #[trigger] self.values@[i] == e.0
                            && members(self.lists@[i]).contains(e.1);
                    if i < before.values@.len() && e != entry {
                        assert(before.values@[i] == e.0);
                        assert(members(before.lists@[i]).contains(e.1));
                    }
                }
            }
            assert(self@ =~= before@.insert(entry));
        }
    }

    /// The documents with a value for which the comparison holds.
    pub fn select(&self, op: &CompareOp) -> (selected: BitSet)
        requires
            self.wf(),
        ensures
            forall|id: usize| #[trigger]
                members(selected).contains(id) <==> exists|value: ValueView| #[trigger]
                    self@.contains((value, id)) && op.holds(Some(value)),
    {
        let n: usize = self.values.len();
        let mut selected = new_bits();
        for i in 0..n
            invariant
                self.wf(),
                n == self.values@.len(),
                forall|id: usize| #[trigger]
                    members(selected).contains(id) <==> exists|j: int|
                        0 <= j < i && op.holds(Some(#[trigger] self.values@[j])) && members(
                            self.lists@[j],
                        ).contains(id),
        {
            let ghost earlier = members(selected);
            if op.accepts(self.values.get(i)) {
                unite_bits(&mut selected, &self.lists[i]);
            }
            assert forall|id: usize| #[trigger] members(selected).contains(id) <==> exists|j: int|
                0 <= j < i + 1 && op.holds(Some(#[trigger] self.values@[j])) && members(
                    self.lists@[j],
                ).contains(id) by {
                let here = op.holds(Some(self.values@[i as int])) && members(
                    self.lists@[i as int],
                ).contains(id);
                assert(members(selected).contains(id) <==> earlier.contains(id) || here);
            }
        }
        assert forall|id: usize| #[trigger] members(selected).contains(id) <==> exists|
            value: ValueView,
        | #[trigger] self@.contains((value, id)) && op.holds(Some(value)) by {
            if members(selected).contains(id) {
                let j = choose|j: int|
                    0 <= j < n && op.holds(Some(#[trigger] self.values@[j])) && members(
                        self.lists@[j],
                    ).contains(id);
                assert(self@.contains((self.values@[j], id)));
            }
            if exists|value: ValueView| #[trigger]
                self@.contains((value, id)) && op.holds(Some(value)) {
                let value = choose|value: ValueView| #[trigger]
                    self@.contains((value, id)) && op.holds(Some(value));
                let j = choose|j: int|
                    0 <= j < self.values@.len() && #[trigger] self.values@[j] == value
                        && members(self.lists@[j]).contains(id);
                assert(op.holds(Some(self.values@[j])));
            }
        }
        selected
    }
}

} // verus!
