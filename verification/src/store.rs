//! The attribute store: which labels each point carries, and which points carry each label.
//!
//! The forward index keeps the labels of a point as a short ascending list, which
//! is what a search probes for every point that it visits. The inverse index keeps
//! the points of a label as a treemap, for operations on whole sets.
use roaring::RoaringTreemap;
use vstd::prelude::*;

use crate::attribute::{
    encode_all, encode_one, id_of, ids_of_all, lemma_encode_all, lemma_encode_one_keeps, texts,
    Attribute, AttributeEncoder,
};
use crate::evaluator::{ascending, SlicePredicateEvaluator};
use crate::filter_expr::{carries, EncodedFilterExpr};
use crate::provider::RoaringTreemapSetProvider;
use crate::sorting::{lemma_sorted_labels, sort_labels};
use crate::store_model::{
    bucket, finite_lists, lemma_bucket_members, loaded_forward, loaded_inverse, narrowed,
    occurrences, posted, unposted, StoreView,
};
use crate::treemap::{ascends_only_until, from_sorted, ids_of, strictly_ascending, union_in_place};

verus! {

/// Why a store refuses an update.
#[derive(Debug, Clone, Copy, PartialEq, Eq, Structural)]
pub enum StoreError {
    /// A point must have at least one attribute.
    NoAttributes,
    /// The documents of `label` did not arrive in strictly ascending order of their
    /// ids. The first `valid_until` of them did.
    UnsortedPostings { label: u64, valid_until: u64 },
}

/// The bytes of one slot of the forward index.
pub const SLOT_BYTES: u64 = 24;

/// The forward index has room for the slot of `id` in the address space.
pub open spec fn addressable(id: u64) -> bool {
    (id + 1) * SLOT_BYTES <= isize::MAX
}

/// Whether the forward index has room for the slot of `id` in the address space.
pub fn is_addressable(id: u64) -> (r: bool)
    ensures
        r == addressable(id),
{
    let slots: u64 = isize::MAX as u64 / SLOT_BYTES;
    id < slots
}

/// The documents of a bulk load, with their label lists as sequences.
pub open spec fn documents(docs: Seq<(u64, Vec<u64>)>) -> Seq<(u64, Seq<u64>)> {
    Seq::new(docs.len(), |i: int| (docs[i].0, docs[i].1@))
}

pub struct RoaringAttributeStore {
    attribute_map: AttributeEncoder,
    /// The ascending labels of each point, at the index that is its id.
    index: Vec<Vec<u32>>,
    /// The points of each label.
    inv_index: RoaringTreemapSetProvider,
}

impl View for RoaringAttributeStore {
    type V = StoreView;

    closed spec fn view(&self) -> StoreView {
        StoreView {
            attributes: self.attribute_map@,
            forward: forward_view(self.index@),
            inverse: self.inv_index@,
        }
    }
}

/// The slots as a total map: a point beyond the last slot has no labels.
spec fn forward_view(slots: Seq<Vec<u32>>) -> Map<u64, Seq<u32>> {
    Map::new(
        |id: u64| true,
        |id: u64|
            if id < slots.len() {
                slots[id as int]@
            } else {
                Seq::empty()
            },
    )
}

impl RoaringAttributeStore {
    /// The encoder is well formed, the labels of every point ascend, and only
    /// points that the forward index could hold are in posting lists.
    pub closed spec fn wf(&self) -> bool {
        &&& self.attribute_map.wf()
        &&& forall|i: int| 0 <= i < self.index@.len() ==> ascending(#[trigger] self.index@[i]@)
        &&& forall|label: u64, id: u64| #[trigger]
            self.inv_index@[label].contains(id) ==> addressable(id)
    }

    /// Every posting list of a store is finite.
    pub proof fn lemma_finite(&self)
        requires
            self.wf(),
        ensures
            finite_lists(self@),
    {
        assert forall|label: u64| (#[trigger] self@.inverse[label]).finite() by {
            lemma_few_ids(self@.inverse[label]);
        }
    }

    pub fn new() -> (store: Self)
        ensures
            store.wf(),
            store@ == StoreView::empty(),
    {
        let store = RoaringAttributeStore {
            attribute_map: AttributeEncoder::new(),
            index: Vec::new(),
            inv_index: RoaringTreemapSetProvider::new(),
        };
        assert(store@ =~= StoreView::empty());
        store
    }

    /// The encoder that gives attributes their label ids.
    pub fn attribute_map(&self) -> (encoder: &AttributeEncoder)
        requires
            self.wf(),
        ensures
            encoder.wf(),
            encoder@ == self@.attributes,
    {
        &self.attribute_map
    }

    /// The number of points that carry `label_id`.
    pub fn posting_list_len(&self, label_id: u64) -> (n: usize)
        requires
            self.wf(),
        ensures
            n == self@.inverse[label_id].len(),
    {
        match self.inv_index.get(label_id) {
            Some(set) => {
                proof {
                    lemma_few_ids(ids_of(*set));
                }
                set.len() as usize
            },
            None => 0,
        }
    }

    /// The points that carry at least one of `label_ids`.
    pub fn union_posting_lists(&self, label_ids: &[u64]) -> (out: RoaringTreemap)
        ensures
            ids_of(out) == self@.union_of(label_ids@),
    {
        let n: usize = label_ids.len();
        let mut out = RoaringTreemap::new();
        assert(self@.union_of(label_ids@.take(0)) =~= Set::<u64>::empty());
        for i in 0..n
            invariant
                n == label_ids@.len(),
                ids_of(out) == self@.union_of(label_ids@.take(i as int)),
        {
            let ghost before = label_ids@.take(i as int);
            let ghost after = label_ids@.take(i + 1);
            let ghost label = label_ids@[i as int];
            if let Some(set) = self.inv_index.get(label_ids[i]) {
                union_in_place(&mut out, set);
            }
            assert(self@.union_of(after) =~= self@.union_of(before).union(self@.inverse[label]))
                by {
                assert(after =~= before.push(label));
                assert(after[i as int] == label);
                assert forall|id: u64| self@.union_of(before).contains(id) implies self@.union_of(
                    after,
                ).contains(id) by {
                    let j = choose|j: int|
                        0 <= j < before.len() && (#[trigger] self@.inverse[before[j]]).contains(id);
                    assert(after[j] == before[j]);
                }
            }
            assert(ids_of(out) =~= self@.union_of(after));
        }
        assert(label_ids@.take(n as int) =~= label_ids@);
        out
    }

    /// The number of points that carry at least one of `label_ids`.
    pub fn union_len(&self, label_ids: &[u64]) -> (n: usize)
        requires
            self.wf(),
        ensures
            n == self@.union_of(label_ids@).len(),
    {
        let union = self.union_posting_lists(label_ids);
        proof {
            lemma_few_ids(ids_of(union));
        }
        union.len() as usize
    }

    /// The point has attributes and they satisfy the filter.
    pub fn matches_filter(&self, vec_id: u64, filter: &EncodedFilterExpr) -> (r: bool)
        requires
            self.wf(),
        ensures
            r == self@.matches(vec_id, filter@),
    {
        if vec_id >= self.index.len() as u64 {
            return false;
        }
        let labels = self.index[vec_id as usize].as_slice();
        if labels.len() == 0 {
            return false;
        }
        let evaluator = SlicePredicateEvaluator::new(labels);
        evaluator.visit(filter.encoded_filter_expr())
    }

    /// The point has attributes.
    pub fn id_exists(&self, vec_id: u64) -> (r: bool)
        ensures
            r == self@.exists_id(vec_id),
    {
        vec_id < self.index.len() as u64 && self.index[vec_id as usize].len() > 0
    }

    /// Drops the attributes of a point and says whether it had any.
    pub fn delete(&mut self, vec_id: u64) -> (deleted: bool)
        requires
            old(self).wf(),
        ensures
            final(self).wf(),
            deleted == old(self)@.exists_id(vec_id),
            final(self)@ == old(self)@.delete(vec_id),
    {
        if !self.id_exists(vec_id) {
            proof {
                self.inv_index.lemma_total();
                assert(self@.forward[vec_id] =~= Seq::<u32>::empty());
                assert(self@ =~= old(self)@.delete(vec_id));
            }
            return false;
        }
        assert(vec_id < self.index.len());
        let slot: usize = vec_id as usize;
        unpost(&mut self.inv_index, self.index[slot].as_slice(), vec_id);
        put_slot(&mut self.index, slot, Vec::new());
        proof {
            assert(self@ =~= old(self)@.delete(vec_id));
            assert forall|label: u64, id: u64| #[trigger]
                self.inv_index@[label].contains(id) implies addressable(id) by {
                assert(old(self).inv_index@[label].contains(id));
            }
        }
        true
    }

    /// Gives a point the attributes of the list, in place of those that it had.
    pub fn set_element(&mut self, vec_id: u64, attributes: &[Attribute]) -> (r: Result<
        bool,
        StoreError,
    >)
        requires
            old(self).wf(),
            attributes@.len() > 0 ==> addressable(vec_id),
        ensures
            final(self).wf(),
            attributes@.len() == 0 ==> {
                &&& r == Err::<bool, StoreError>(StoreError::NoAttributes)
                &&& final(self)@ == old(self)@
            },
            attributes@.len() > 0 ==> {
                &&& r == Ok::<bool, StoreError>(true)
                &&& final(self)@ == old(self)@.set_element(vec_id, texts(attributes@))
            },
    {
        let n: usize = attributes.len();
        if n == 0 {
            return Err(StoreError::NoAttributes);
        }
        let ghost before = self@;
        let slot: usize = vec_id as usize;
        if slot < self.index.len() {
            unpost(&mut self.inv_index, self.index[slot].as_slice(), vec_id);
        } else {
            proof {
                self.inv_index.lemma_total();
                assert(self.inv_index@ =~= unposted(before.inverse, before.forward[vec_id], vec_id));
            }
        }
        let ghost cleared = self.inv_index@;
        let ghost list = texts(attributes@);
        let ghost mut labels: Seq<u64> = Seq::empty();
        let mut new_attr_ids: Vec<u32> = Vec::with_capacity(n);
        proof {
            self.inv_index.lemma_total();
            self.attribute_map.lemma_wf();
            assert(cleared =~= posted(cleared, labels, vec_id));
            assert(list.take(0) =~= Seq::<Seq<char>>::empty());
            assert(narrowed(labels) =~= new_attr_ids@);
        }
        for i in 0..n
            invariant
                n == attributes@.len(),
                list == texts(attributes@),
                before.attributes.no_duplicates(),
                self.index == old(self).index,
                self.attribute_map.wf(),
                self.attribute_map@ == encode_all(before.attributes, list.take(i as int)),
                labels.len() == i,
                forall|j: int| 0 <= j < i ==> self.attribute_map@.contains(#[trigger] list[j]),
                forall|j: int|
                    0 <= j < i ==> #[trigger] labels[j] == id_of(self.attribute_map@, list[j]),
                self.inv_index@ == posted(cleared, labels, vec_id),
                new_attr_ids@ == narrowed(labels),
        {
            let ghost known = self.attribute_map@;
            let ghost earlier = labels;
            let attr_id: u64 = self.attribute_map.insert(&attributes[i]);
            self.inv_index.insert(attr_id, vec_id);
            new_attr_ids.push(attr_id as u32);
            proof {
                labels = labels.push(attr_id);
                self.attribute_map.lemma_wf();
                assert(list[i as int] == attributes@[i as int]@);
                assert(list.take(i + 1).drop_last() =~= list.take(i as int));
                assert(self.attribute_map@ == encode_one(known, list[i as int]));
                assert(known.no_duplicates()) by {
                    lemma_encode_all(before.attributes, list.take(i as int));
                }
                lemma_encode_one_keeps(known, list[i as int]);
                assert forall|j: int| 0 <= j < i + 1 implies #[trigger] labels[j] == id_of(
                    self.attribute_map@,
                    list[j],
                ) by {
                    if j < i {
                        assert(earlier[j] == labels[j]);
                        assert(known.contains(list[j]));
                    }
                }
                assert(self.inv_index@ =~= posted(cleared, labels, vec_id)) by {
                    assert(labels[i as int] == attr_id);
                    assert forall|label: u64| #[trigger] labels.contains(label) <==> (
                    earlier.contains(label) || label == attr_id) by {
                        if earlier.contains(label) {
                            let j = earlier.index_of(label);
                            assert(labels[j] == label);
                        }
                    }
                    assert forall|label: u64| #[trigger] self.inv_index@[label] == posted(
                        cleared,
                        labels,
                        vec_id,
                    )[label] by {
                        assert(self.inv_index@[label] =~= posted(cleared, labels, vec_id)[label]);
                    }
                    self.inv_index.lemma_total();
                }
                assert(new_attr_ids@ =~= narrowed(labels));
            }
        }
        proof {
            assert(list.take(n as int) =~= list);
            assert(labels =~= ids_of_all(self.attribute_map@, list));
            lemma_sorted_labels(narrowed(labels));
        }
        let sorted = sort_labels(new_attr_ids.as_slice());
        put_slot(&mut self.index, slot, sorted);
        proof {
            assert(self@ =~= before.set_element(vec_id, list));
            assert forall|label: u64, id: u64| #[trigger]
                self.inv_index@[label].contains(id) implies addressable(id) by {
                if id != vec_id {
                    assert(old(self).inv_index@[label].contains(id));
                }
            }
        }
        Ok(true)
    }

    /// Loads encoded documents into an empty store in one pass.
    ///
    /// The attribute at place `i` of the list gets label id `i`, and each document
    /// lists the label ids of one point. A document without labels is passed over.
    /// The documents of a label have to arrive in strictly ascending order of their
    /// ids: the load stops at the first label for which they did not, with the
    /// posting lists of the labels before it in place.
    pub fn bulk_insert_encoded(
        &mut self,
        attribute_strings: &[Attribute],
        docs: Vec<(u64, Vec<u64>)>,
    ) -> (r: Result<(), StoreError>)
        requires
            old(self).wf(),
            old(self)@ == StoreView::empty(),
            texts(attribute_strings@).no_duplicates(),
            forall|i: int, j: int|
                0 <= i < docs@.len() && 0 <= j < docs@[i].1@.len() ==> #[trigger] docs@[i].1@[j]
                    < attribute_strings@.len(),
            forall|i: int|
                0 <= i < docs@.len() && docs@[i].1@.len() > 0 ==> addressable(
                    (#[trigger] docs@[i]).0,
                ),
        ensures
            final(self).wf(),
            match r {
                Ok(_) => {
                    &&& forall|label: u64|
                        label < attribute_strings@.len() ==> strictly_ascending(
                            #[trigger] bucket(documents(docs@), label),
                        )
                    &&& final(self)@ == StoreView::loaded(
                        texts(attribute_strings@),
                        documents(docs@),
                        attribute_strings@.len() as int,
                    )
                },
                Err(StoreError::UnsortedPostings { label, valid_until }) => {
                    &&& label < attribute_strings@.len()
                    &&& ascends_only_until(bucket(documents(docs@), label), valid_until as int)
                    &&& forall|earlier: u64|
                        earlier < label ==> strictly_ascending(
                            #[trigger] bucket(documents(docs@), earlier),
                        )
                    &&& final(self)@ == StoreView::loaded(
                        texts(attribute_strings@),
                        documents(docs@),
                        label as int,
                    )
                },
                Err(StoreError::NoAttributes) => false,
            },
    {
        let num_attrs: usize = attribute_strings.len();
        let ghost list = texts(attribute_strings@);
        let ghost plain = documents(docs@);
        proof {
            assert(list.take(0) =~= self.attribute_map@);
        }
        for i in 0..num_attrs
            invariant
                num_attrs == attribute_strings@.len(),
                list == texts(attribute_strings@),
                list.no_duplicates(),
                self.attribute_map.wf(),
                self.attribute_map@ == list.take(i as int),
                self.index == old(self).index,
                self.inv_index == old(self).inv_index,
        {
            self.attribute_map.insert(&attribute_strings[i]);
            proof {
                let earlier = list.take(i as int);
                if earlier.contains(list[i as int]) {
                    let j = earlier.index_of(list[i as int]);
                    assert(list[j] == list[i as int]);
                }
                assert(list.take(i + 1) =~= earlier.push(list[i as int]));
            }
        }
        assert(list.take(num_attrs as int) =~= list);

        let mut inv_buckets: Vec<Vec<u64>> = Vec::with_capacity(num_attrs);
        for i in 0..num_attrs
            invariant
                inv_buckets@.len() == i,
                forall|label: int| 0 <= label < i ==> (#[trigger] inv_buckets@[label])@.len() == 0,
        {
            inv_buckets.push(Vec::new());
        }

        let num_docs: usize = docs.len();
        proof {
            assert(plain.take(0) =~= Seq::empty());
            assert forall|label: int| 0 <= label < num_attrs implies (
            #[trigger] inv_buckets@[label])@ == bucket(plain.take(0), label as u64) by {
                assert(inv_buckets@[label]@ =~= Seq::<u64>::empty());
            }
        }
        for i in 0..num_docs
            invariant
                num_docs == docs@.len(),
                num_attrs == attribute_strings@.len(),
                plain == documents(docs@),
                self.attribute_map.wf(),
                self.attribute_map@ == list,
                self.inv_index == old(self).inv_index,
                inv_buckets@.len() == num_attrs,
                forall|i: int, j: int|
                    0 <= i < docs@.len() && 0 <= j < docs@[i].1@.len() ==> #[trigger] docs@[i].1@[j]
                        < num_attrs,
                forall|i: int|
                    0 <= i < docs@.len() && docs@[i].1@.len() > 0 ==> addressable(
                        (#[trigger] docs@[i]).0,
                    ),
                forward_view(self.index@) == loaded_forward(plain.take(i as int)),
                forall|k: int| 0 <= k < self.index@.len() ==> ascending(#[trigger] self.index@[k]@),
                forall|label: int|
                    0 <= label < num_attrs ==> (#[trigger] inv_buckets@[label])@ == bucket(
                        plain.take(i as int),
                        label as u64,
                    ),
        {
            let doc_id: u64 = docs[i].0;
            let ghost earlier = plain.take(i as int);
            let ghost labels = plain[i as int].1;
            proof {
                assert(plain.take(i + 1).drop_last() =~= earlier);
                assert(plain.take(i + 1).last() == plain[i as int]);
                assert forall|j: int| 0 <= j < labels.len() implies #[trigger] labels[j]
                    < num_attrs by {
                    assert(docs@[i as int].1@[j] < num_attrs);
                }
            }
            let narrow = file_document(&mut inv_buckets, doc_id, &docs[i].1);
            if narrow.len() > 0 {
                proof {
                    lemma_sorted_labels(narrowed(labels));
                }
                let sorted = sort_labels(narrow.as_slice());
                put_slot(&mut self.index, doc_id as usize, sorted);
            }
        }
        assert(plain.take(num_docs as int) =~= plain);

        proof {
            self.inv_index.lemma_total();
            assert(self.inv_index@ =~= loaded_inverse(plain, 0));
        }
        for label in 0..num_attrs
            invariant
                num_attrs == attribute_strings@.len(),
                plain == documents(docs@),
                self.attribute_map.wf(),
                self.attribute_map@ == list,
                list == texts(attribute_strings@),
                inv_buckets@.len() == num_attrs,
                forward_view(self.index@) == loaded_forward(plain),
                forall|k: int| 0 <= k < self.index@.len() ==> ascending(#[trigger] self.index@[k]@),
                forall|label: int|
                    0 <= label < num_attrs ==> (#[trigger] inv_buckets@[label])@ == bucket(
                        plain,
                        label as u64,
                    ),
                forall|i: int|
                    0 <= i < docs@.len() && docs@[i].1@.len() > 0 ==> addressable(
                        (#[trigger] docs@[i]).0,
                    ),
                self.inv_index@ == loaded_inverse(plain, label as int),
                forall|earlier: u64|
                    earlier < label ==> strictly_ascending(#[trigger] bucket(plain, earlier)),
        {
            let ghost done = loaded_inverse(plain, label as int);
            assert(inv_buckets@[label as int]@ == bucket(plain, label as u64));
            if inv_buckets[label].len() > 0 {
                match from_sorted(&inv_buckets[label]) {
                    Ok(treemap) => {
                        self.inv_index.install_for_key(label as u64, treemap);
                        assert(self.inv_index@ =~= loaded_inverse(plain, label + 1));
                    },
                    Err(valid_until) => {
                        proof {
                            lemma_loaded_addressable(docs@, label as int);
                        }
                        return Err(
                            StoreError::UnsortedPostings { label: label as u64, valid_until },
                        );
                    },
                }
            } else {
                proof {
                    let empty = bucket(plain, label as u64);
                    assert(empty.to_set() =~= Set::<u64>::empty());
                    assert(loaded_inverse(plain, label + 1) =~= done);
                }
            }
        }
        proof {
            lemma_loaded_addressable(docs@, num_attrs as int);
        }
        Ok(())
    }
}

/// Adds `id` to the bucket of each label of a document, once for each place of the
/// label, and gives back the labels as the forward index keeps them.
fn file_document(buckets: &mut Vec<Vec<u64>>, id: u64, labels: &Vec<u64>) -> (narrow: Vec<u32>)
    requires
        forall|j: int| 0 <= j < labels@.len() ==> #[trigger] labels@[j] < old(buckets)@.len(),
    ensures
        narrow@ == narrowed(labels@),
        final(buckets)@.len() == old(buckets)@.len(),
        forall|label: int|
            0 <= label < final(buckets)@.len() ==> (#[trigger] final(buckets)@[label])@ == old(
                buckets,
            )@[label]@ + occurrences(id, labels@, label as u64),
{
    let count: usize = labels.len();
    let mut narrow: Vec<u32> = Vec::with_capacity(count);
    proof {
        assert(labels@.take(0) =~= Seq::<u64>::empty());
        assert(narrow@ =~= narrowed(labels@.take(0)));
        assert forall|label: int| 0 <= label < buckets@.len() implies (
        #[trigger] buckets@[label])@ == old(buckets)@[label]@ + occurrences(
            id,
            labels@.take(0),
            label as u64,
        ) by {
            assert(buckets@[label]@ =~= buckets@[label]@ + Seq::<u64>::empty());
        }
    }
    for j in 0..count
        invariant
            count == labels@.len(),
            buckets@.len() == old(buckets)@.len(),
            forall|j: int| 0 <= j < labels@.len() ==> #[trigger] labels@[j] < old(buckets)@.len(),
            forall|label: int|
                0 <= label < buckets@.len() ==> (#[trigger] buckets@[label])@ == old(
                    buckets,
                )@[label]@ + occurrences(id, labels@.take(j as int), label as u64),
            narrow@ == narrowed(labels@.take(j as int)),
    {
        let label: u64 = labels[j];
        let ghost before = buckets@;
        buckets[label as usize].push(id);
        narrow.push(label as u32);
        proof {
            assert(buckets.len() == buckets@.len());
            assert(labels@.take(j + 1).drop_last() =~= labels@.take(j as int));
            assert(narrow@ =~= narrowed(labels@.take(j + 1)));
            assert forall|other: int| 0 <= other < buckets@.len() implies (
            #[trigger] buckets@[other])@ == old(buckets)@[other]@ + occurrences(
                id,
                labels@.take(j + 1),
                other as u64,
            ) by {
                assert(before[other]@ == old(buckets)@[other]@ + occurrences(
                    id,
                    labels@.take(j as int),
                    other as u64,
                ));
                assert(buckets@[other]@ =~= old(buckets)@[other]@ + occurrences(
                    id,
                    labels@.take(j + 1),
                    other as u64,
                ));
            }
        }
    }
    assert(labels@.take(count as int) =~= labels@);
    narrow
}

/// Loaded posting lists name only documents that have labels.
proof fn lemma_loaded_addressable(docs: Seq<(u64, Vec<u64>)>, installed: int)
    requires
        forall|i: int|
            0 <= i < docs.len() && docs[i].1@.len() > 0 ==> addressable((#[trigger] docs[i]).0),
    ensures
        forall|label: u64, id: u64| #[trigger]
            loaded_inverse(documents(docs), installed)[label].contains(id) ==> addressable(id),
{
    let plain = documents(docs);
    assert forall|label: u64, id: u64| #[trigger]
        loaded_inverse(plain, installed)[label].contains(id) implies addressable(id) by {
        assert(bucket(plain, label).contains(id));
        lemma_bucket_members(plain, label, id);
        let i = choose|i: int|
            0 <= i < plain.len() && (#[trigger] plain[i]).0 == id && plain[i].1.contains(label);
        assert(plain[i].1.len() > 0);
        assert(docs[i].0 == id);
    }
}

/// Takes `id` out of the posting list of each of `labels`.
fn unpost(inverse: &mut RoaringTreemapSetProvider, labels: &[u32], id: u64)
    ensures
        final(inverse)@ == unposted(old(inverse)@, labels@, id),
{
    let n: usize = labels.len();
    proof {
        inverse.lemma_total();
        assert(inverse@ =~= unposted(old(inverse)@, labels@.take(0), id));
    }
    for i in 0..n
        invariant
            n == labels@.len(),
            inverse@ == unposted(old(inverse)@, labels@.take(i as int), id),
    {
        let ghost before = inverse@;
        inverse.delete_from_set(labels[i] as u64, id);
        proof {
            let earlier = labels@.take(i as int);
            let later = labels@.take(i + 1);
            assert(later =~= earlier.push(labels@[i as int]));
            assert(later[i as int] == labels@[i as int]);
            assert forall|label: u64| #[trigger] carries(later, label) <==> (carries(earlier, label)
                || label == labels@[i as int] as u64) by {
                if carries(earlier, label) {
                    let j = earlier.index_of(label as u32);
                    assert(later[j] == label as u32);
                }
            }
            assert forall|label: u64| #[trigger] inverse@[label] == unposted(
                old(inverse)@,
                later,
                id,
            )[label] by {
                assert(inverse@[label] =~= unposted(old(inverse)@, later, id)[label]);
            }
            inverse.lemma_total();
            assert(inverse@ =~= unposted(old(inverse)@, later, id));
        }
    }
    assert(labels@.take(n as int) =~= labels@);
}

/// Puts `labels` into a slot, behind as many empty slots as it takes to get there.
fn put_slot(slots: &mut Vec<Vec<u32>>, slot: usize, labels: Vec<u32>)
    requires
        slot < usize::MAX,
        ascending(labels@),
        forall|i: int| 0 <= i < old(slots)@.len() ==> ascending(#[trigger] old(slots)@[i]@),
    ensures
        forward_view(final(slots)@) == forward_view(old(slots)@).insert(slot as u64, labels@),
        forall|i: int| 0 <= i < final(slots)@.len() ==> ascending(#[trigger] final(slots)@[i]@),
{
    while slots.len() <= slot
        invariant
            slot < usize::MAX,
            forward_view(slots@) == forward_view(old(slots)@),
            forall|i: int| 0 <= i < slots@.len() ==> ascending(#[trigger] slots@[i]@),
        decreases slot + 1 - slots@.len(),
    {
        let ghost before = slots@;
        slots.push(Vec::new());
        assert(forward_view(slots@) =~= forward_view(before));
    }
    let ghost padded = slots@;
    slots[slot] = labels;
    assert(forward_view(slots@) =~= forward_view(padded).insert(slot as u64, labels@));
}

/// Addressable ids are fewer than the address space has places, and not all ids.
proof fn lemma_few_ids(ids: Set<u64>)
    requires
        forall|id: u64| #[trigger] ids.contains(id) ==> addressable(id),
    ensures
        ids.finite(),
        ids.len() <= usize::MAX,
        !ids.contains(u64::MAX),
{
    let limit = isize::MAX as u64;
    let all = Set::<u64>::range(0, limit);
    vstd::set_lib::range_set_properties::<u64>(0, limit);
    assert(ids.subset_of(all));
    vstd::set_lib::lemma_len_subset(ids, all);
}

} // verus!
