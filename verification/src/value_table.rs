//! Distinct values in the order of their arrival.
use std::collections::HashMap;

use vstd::hash_map::StringHashMap;
use vstd::prelude::*;

use crate::values::{LabelValue, ValueView};

verus! {

broadcast use {
    vstd::hash_map::group_hash_map_axioms,
    vstd::std_specs::hash::group_hash_axioms,
};

/// Values, each once, with the place of each.
pub struct ValueTable {
    values: Vec<LabelValue>,
    /// Where numbers, texts and other values stand; what is none of these is looked for.
    numbers: HashMap<i128, usize>,
    fractions: HashMap<u64, usize>,
    texts: StringHashMap<usize>,
    others: StringHashMap<usize>,
}

impl View for ValueTable {
    type V = Seq<ValueView>;

    closed spec fn view(&self) -> Seq<ValueView> {
        self.values@.map_values(|value: LabelValue| value@)
    }
}

/// The number is one that a value can hold.
spec fn holdable(n: int) -> bool {
    i64::MIN <= n <= u64::MAX
}

impl ValueTable {
    /// No value stands twice, and the tables name exactly the values that they are for.
    pub closed spec fn wf(&self) -> bool {
        &&& self@.no_duplicates()
        &&& forall|n: i128| #[trigger]
            self.numbers@.contains_key(n) ==> self.numbers@[n] < self@.len()
                && self@[self.numbers@[n] as int] == ValueView::Number(n as int)
        &&& forall|b: u64| #[trigger]
            self.fractions@.contains_key(b) ==> self.fractions@[b] < self@.len()
                && self@[self.fractions@[b] as int] == ValueView::Fraction(b)
        &&& forall|t: Seq<char>| #[trigger]
            self.texts@.contains_key(t) ==> self.texts@[t] < self@.len()
                && self@[self.texts@[t] as int] == ValueView::Text(t)
        &&& forall|t: Seq<char>| #[trigger]
            self.others@.contains_key(t) ==> self.others@[t] < self@.len()
                && self@[self.others@[t] as int] == ValueView::Other(t)
        &&& forall|i: int|
            0 <= i < self@.len() ==> match #[trigger] self@[i] {
                ValueView::Number(n) => holdable(n) && self.numbers@.contains_key(n as i128),
                ValueView::Fraction(b) => self.fractions@.contains_key(b),
                ValueView::Text(t) => self.texts@.contains_key(t),
                ValueView::Other(t) => self.others@.contains_key(t),
                _ => true,
            }
    }

    pub proof fn lemma_wf(&self)
        requires
            self.wf(),
        ensures
            self@.no_duplicates(),
    {
    }

    pub fn new() -> (table: Self)
        ensures
            table.wf(),
            table@ == Seq::<ValueView>::empty(),
    {
        let table = ValueTable {
            values: Vec::new(),
            numbers: HashMap::new(),
            fractions: HashMap::new(),
            texts: StringHashMap::new(),
            others: StringHashMap::new(),
        };
        assert(table@ =~= Seq::<ValueView>::empty());
        table
    }

    /// The number of values.
    pub fn len(&self) -> (n: usize)
        ensures
            n == self@.len(),
    {
        self.values.len()
    }

    /// The value at a place.
    pub fn get(&self, place: usize) -> (value: &LabelValue)
        requires
            place < self@.len(),
        ensures
            value@ == self@[place as int],
    {
        &self.values[place]
    }

    /// Where a value stands, if it is there.
    pub fn place_of(&self, value: &LabelValue) -> (place: Option<usize>)
        requires
            self.wf(),
        ensures
            match place {
                Some(i) => i < self@.len() && self@[i as int] == value@,
                None => !self@.contains(value@),
            },
    {
        match value {
            LabelValue::Fraction(bits) => match self.fractions.get(bits) {
                Some(place) => Some(*place),
                None => None,
            },
            LabelValue::Text(text) => match self.texts.get(text.as_str()) {
                Some(place) => Some(*place),
                None => None,
            },
            LabelValue::Other(text) => match self.others.get(text.as_str()) {
                Some(place) => Some(*place),
                None => None,
            },
            _ => match value.number() {
                Some(number) => match self.numbers.get(&number) {
                    Some(place) => Some(*place),
                    None => None,
                },
                None => self.find(value),
            },
        }
    }

    /// Where a value stands, looked for among all of them.
    fn find(&self, value: &LabelValue) -> (place: Option<usize>)
        ensures
            match place {
                Some(i) => i < self@.len() && self@[i as int] == value@,
                None => !self@.contains(value@),
            },
    {
        let n: usize = self.values.len();
        for i in 0..n
            invariant
                n == self@.len(),
                n == self.values@.len(),
                forall|j: int| 0 <= j < i ==> self@[j] != value@,
        {
            if self.values[i].same(value) {
                return Some(i);
            }
        }
        None
    }

    /// Puts a value behind the others, unless it is there, and tells where it stands.
    pub fn insert(&mut self, value: &LabelValue) -> (place: usize)
        requires
            old(self).wf(),
        ensures
            final(self).wf(),
            final(self)@ == if old(self)@.contains(value@) {
                old(self)@
            } else {
                old(self)@.push(value@)
            },
            place < final(self)@.len(),
            final(self)@[place as int] == value@,
    {
        let ghost before = self@;
        match self.place_of(value) {
            Some(place) => place,
            None => {
                let place: usize = self.values.len();
                match value {
                    LabelValue::Fraction(bits) => {
                        self.fractions.insert(*bits, place);
                    },
                    LabelValue::Text(text) => {
                        self.texts.insert(text.clone(), place);
                    },
                    LabelValue::Other(text) => {
                        self.others.insert(text.clone(), place);
                    },
                    _ => match value.number() {
                        Some(number) => {
                            self.numbers.insert(number, place);
                        },
                        None => {},
                    },
                }
                self.values.push(value.copied());
                proof {
                    let after = self@;
                    assert(after =~= before.push(value@));
                    assert forall|i: int, j: int|
                        0 <= i < j < after.len() implies after[i] != after[j] by {
                        if j == before.len() {
                            assert(before.contains(before[i]));
                        }
                    }
                    assert forall|i: int| 0 <= i < after.len() implies match #[trigger] after[i] {
                        ValueView::Number(n) => holdable(n) && self.numbers@.contains_key(
                            n as i128,
                        ),
                        ValueView::Fraction(b) => self.fractions@.contains_key(b),
                        ValueView::Text(t) => self.texts@.contains_key(t),
                        ValueView::Other(t) => self.others@.contains_key(t),
                        _ => true,
                    } by {
                        if i < before.len() {
                            assert(before[i] == after[i]);
                        }
                    }
                }
                place
            },
        }
    }
}

} // verus!
