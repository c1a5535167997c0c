//! Attributes and the encoder that gives each distinct one an integer id.
use vstd::hash_map::StringHashMap;
use vstd::prelude::*;

verus! {

broadcast use vstd::hash_map::group_hash_map_axioms;

/// An attribute of a point, such as `camera=Canon`, known by its text.
pub struct Attribute {
    pub text: String,
}

impl View for Attribute {
    type V = Seq<char>;

    open spec fn view(&self) -> Seq<char> {
        self.text@
    }
}

/// The texts of a list of attributes.
pub open spec fn texts(attributes: Seq<Attribute>) -> Seq<Seq<char>> {
    Seq::new(attributes.len(), |i: int| attributes[i]@)
}

/// The known texts after `text` was encoded: a new one goes to the end.
pub open spec fn encode_one(known: Seq<Seq<char>>, text: Seq<char>) -> Seq<Seq<char>> {
    if known.contains(text) {
        known
    } else {
        known.push(text)
    }
}

/// The known texts after each of `list` was encoded in turn.
pub open spec fn encode_all(known: Seq<Seq<char>>, list: Seq<Seq<char>>) -> Seq<Seq<char>>
    decreases list.len(),
{
    if list.len() == 0 {
        known
    } else {
        encode_one(encode_all(known, list.drop_last()), list.last())
    }
}

/// The id of a known text: its place in the order of arrival.
pub open spec fn id_of(known: Seq<Seq<char>>, text: Seq<char>) -> u64 {
    known.index_of(text) as u64
}

/// The ids of a list of known texts.
pub open spec fn ids_of_all(known: Seq<Seq<char>>, list: Seq<Seq<char>>) -> Seq<u64> {
    Seq::new(list.len(), |i: int| id_of(known, list[i]))
}

/// Gives each distinct attribute the next id, starting at 0.
pub struct AttributeEncoder {
    ids: StringHashMap<u64>,
    order: Vec<String>,
}

/// The encoder is seen as the texts that it knows, in the order of their ids.
impl View for AttributeEncoder {
    type V = Seq<Seq<char>>;

    closed spec fn view(&self) -> Seq<Seq<char>> {
        Seq::new(self.order@.len(), |i: int| self.order@[i]@)
    }
}

impl AttributeEncoder {
    /// No text is known twice, and the lookup table agrees with the order of arrival.
    pub closed spec fn wf(&self) -> bool {
        &&& self@.no_duplicates()
        &&& self@.len() <= u64::MAX
        &&& forall|text: Seq<char>| #[trigger]
            self.ids@.contains_key(text) <==> self@.contains(text)
        &&& forall|i: int|
            0 <= i < self@.len() ==> self.ids@.contains_key(#[trigger] self@[i])
                && self.ids@[self@[i]] == i
    }

    pub proof fn lemma_wf(&self)
        requires
            self.wf(),
        ensures
            self@.no_duplicates(),
            self@.len() <= u64::MAX,
    {
    }

    pub fn new() -> (encoder: Self)
        ensures
            encoder.wf(),
            encoder@ == Seq::<Seq<char>>::empty(),
    {
        let encoder = AttributeEncoder { ids: StringHashMap::new(), order: Vec::new() };
        assert(encoder@ =~= Seq::<Seq<char>>::empty());
        encoder
    }

    /// The number of distinct attributes encoded so far.
    pub fn len(&self) -> (n: usize)
        ensures
            n == self@.len(),
    {
        self.order.len()
    }

    /// The id of `attribute`, if it was encoded before.
    pub fn get(&self, attribute: &Attribute) -> (id: Option<u64>)
        requires
            self.wf(),
        ensures
            match id {
                Some(id) => self@.contains(attribute@) && id == id_of(self@, attribute@),
                None => !self@.contains(attribute@),
            },
    {
        match self.ids.get(attribute.text.as_str()) {
            Some(id) => {
                proof {
                    lemma_index_of(self@, attribute@);
                }
                Some(*id)
            },
            None => None,
        }
    }

    /// The id of `attribute`, which becomes known if it was not.
    pub fn insert(&mut self, attribute: &Attribute) -> (id: u64)
        requires
            old(self).wf(),
        ensures
            final(self).wf(),
            final(self)@ == encode_one(old(self)@, attribute@),
            id == id_of(final(self)@, attribute@),
    {
        match self.get(attribute) {
            Some(id) => id,
            None => {
                let id: u64 = self.order.len() as u64;
                self.ids.insert(attribute.text.clone(), id);
                self.order.push(attribute.text.clone());
                proof {
                    let before = old(self)@;
                    let after = self@;
                    assert(after =~= before.push(attribute@));
                    assert(self.order.len() == after.len());
                    assert(after[before.len() as int] == attribute@);
                    assert forall|text: Seq<char>| #[trigger]
                        self.ids@.contains_key(text) <==> after.contains(text) by {
                        if before.contains(text) {
                            let i = before.index_of(text);
                            assert(after[i] == text);
                        }
                    }
                    assert forall|i: int| 0 <= i < after.len() implies self.ids@.contains_key(
                        #[trigger] after[i],
                    ) && self.ids@[after[i]] == i by {
                        if i < before.len() {
                            assert(before[i] == after[i]);
                            assert(before.contains(before[i]));
                        }
                    }
                    assert(after.no_duplicates()) by {
                        assert forall|i: int, j: int|
                            0 <= i < j < after.len() implies after[i] != after[j] by {
                            assert(before.contains(before[i]));
                        }
                    }
                    lemma_index_of(after, attribute@);
                }
                id
            },
        }
    }
}

/// In a list without duplicates a text has one place.
pub proof fn lemma_index_of(known: Seq<Seq<char>>, text: Seq<char>)
    requires
        known.no_duplicates(),
        known.contains(text),
    ensures
        0 <= known.index_of(text) < known.len(),
        known[known.index_of(text)] == text,
        forall|i: int|
            0 <= i < known.len() && #[trigger] known[i] == text ==> i == known.index_of(text),
{
}

/// Encoding one more text leaves the ids of the known ones as they are.
pub proof fn lemma_encode_one_keeps(known: Seq<Seq<char>>, text: Seq<char>)
    requires
        known.no_duplicates(),
    ensures
        encode_one(known, text).no_duplicates(),
        encode_one(known, text).contains(text),
        forall|t: Seq<char>| #[trigger]
            known.contains(t) ==> encode_one(known, text).contains(t) && id_of(
                encode_one(known, text),
                t,
            ) == id_of(known, t),
{
    let after = encode_one(known, text);
    if !known.contains(text) {
        assert(after[known.len() as int] == text);
    }
    assert forall|t: Seq<char>| #[trigger] known.contains(t) implies after.contains(t) && id_of(
        after,
        t,
    ) == id_of(known, t) by {
        let i = known.index_of(t);
        assert(after[i] == t);
        lemma_index_of(known, t);
        lemma_index_of(after, t);
    }
}

/// Encoding only ever appends: what was known keeps its place.
pub proof fn lemma_encode_all(known: Seq<Seq<char>>, list: Seq<Seq<char>>)
    requires
        known.no_duplicates(),
    ensures
        encode_all(known, list).no_duplicates(),
        known.len() <= encode_all(known, list).len() <= known.len() + list.len(),
        forall|i: int| 0 <= i < known.len() ==> #[trigger] encode_all(known, list)[i] == known[i],
        forall|j: int| 0 <= j < list.len() ==> encode_all(known, list).contains(#[trigger] list[j]),
    decreases list.len(),
{
    if list.len() > 0 {
        let before = encode_all(known, list.drop_last());
        let after = encode_all(known, list);
        lemma_encode_all(known, list.drop_last());
        assert forall|j: int| 0 <= j < list.len() implies after.contains(#[trigger] list[j]) by {
            if j < list.len() - 1 {
                assert(list.drop_last()[j] == list[j]);
                let i = before.index_of(list[j]);
                assert(after[i] == list[j]);
            } else if !before.contains(list.last()) {
                assert(after[before.len() as int] == list[j]);
            }
        }
    }
}

} // verus!
