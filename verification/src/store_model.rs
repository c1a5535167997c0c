//! The mathematical model of the attribute store.
use vstd::prelude::*;

use crate::attribute::{encode_all, ids_of_all};
use crate::filter_expr::{carries, ASTIdExpr};
use crate::provider::no_sets;
use crate::sorting::sorted_labels;

verus! {

/// What an attribute store holds. Both indexes are total maps: a point without
/// attributes has no labels, a label that no point carries has no points.
#[verifier::ext_equal]
pub struct StoreView {
    /// The text of each encoded attribute, by label id.
    pub attributes: Seq<Seq<char>>,
    /// The ascending labels of each point.
    pub forward: Map<u64, Seq<u32>>,
    /// The points of each label.
    pub inverse: Map<u64, Set<u64>>,
}

/// No point has labels.
pub open spec fn no_labels() -> Map<u64, Seq<u32>> {
    Map::new(|id: u64| true, |id: u64| Seq::<u32>::empty())
}

/// Label ids as the forward index keeps them: the lower 32 bits of each.
pub open spec fn narrowed(labels: Seq<u64>) -> Seq<u32> {
    Seq::new(labels.len(), |i: int| labels[i] as u32)
}

/// The posting lists after `id` was taken out of the list of each of `labels`.
pub open spec fn unposted(
    inverse: Map<u64, Set<u64>>,
    labels: Seq<u32>,
    id: u64,
) -> Map<u64, Set<u64>> {
    Map::new(
        |label: u64| true,
        |label: u64|
            if carries(labels, label) {
                inverse[label].remove(id)
            } else {
                inverse[label]
            },
    )
}

/// The posting lists after `id` was added to the list of each of `labels`.
pub open spec fn posted(
    inverse: Map<u64, Set<u64>>,
    labels: Seq<u64>,
    id: u64,
) -> Map<u64, Set<u64>> {
    Map::new(
        |label: u64| true,
        |label: u64|
            if labels.contains(label) {
                inverse[label].insert(id)
            } else {
                inverse[label]
            },
    )
}

/// The forward index of documents that were loaded one after the other. A document
/// without labels is passed over; a later one replaces an earlier one of the same id.
pub open spec fn loaded_forward(docs: Seq<(u64, Seq<u64>)>) -> Map<u64, Seq<u32>>
    decreases docs.len(),
{
    if docs.len() == 0 {
        no_labels()
    } else {
        let (id, labels) = docs.last();
        let before = loaded_forward(docs.drop_last());
        if labels.len() == 0 {
            before
        } else {
            before.insert(id, sorted_labels(narrowed(labels)))
        }
    }
}

/// `id` once for each time that `label` occurs in `labels`.
pub open spec fn occurrences(id: u64, labels: Seq<u64>, label: u64) -> Seq<u64>
    decreases labels.len(),
{
    if labels.len() == 0 {
        Seq::empty()
    } else {
        let before = occurrences(id, labels.drop_last(), label);
        if labels.last() == label {
            before.push(id)
        } else {
            before
        }
    }
}

/// The ids of the documents that carry `label`, in the order of their arrival.
pub open spec fn bucket(docs: Seq<(u64, Seq<u64>)>, label: u64) -> Seq<u64>
    decreases docs.len(),
{
    if docs.len() == 0 {
        Seq::empty()
    } else {
        bucket(docs.drop_last(), label) + occurrences(docs.last().0, docs.last().1, label)
    }
}

/// The posting lists of the labels below `installed`, each made from its bucket.
pub open spec fn loaded_inverse(
    docs: Seq<(u64, Seq<u64>)>,
    installed: int,
) -> Map<u64, Set<u64>> {
    Map::new(
        |label: u64| true,
        |label: u64|
            if label < installed {
                bucket(docs, label).to_set()
            } else {
                Set::empty()
            },
    )
}

impl StoreView {
    /// A store that holds nothing.
    pub open spec fn empty() -> StoreView {
        StoreView { attributes: Seq::empty(), forward: no_labels(), inverse: no_sets() }
    }

    /// The store after `id` was given the attributes of `list`.
    pub open spec fn set_element(self, id: u64, list: Seq<Seq<char>>) -> StoreView {
        let attributes = encode_all(self.attributes, list);
        let labels = ids_of_all(attributes, list);
        StoreView {
            attributes,
            forward: self.forward.insert(id, sorted_labels(narrowed(labels))),
            inverse: posted(unposted(self.inverse, self.forward[id], id), labels, id),
        }
    }

    /// The store after the attributes of `id` were dropped.
    pub open spec fn delete(self, id: u64) -> StoreView {
        StoreView {
            attributes: self.attributes,
            forward: self.forward.insert(id, Seq::empty()),
            inverse: unposted(self.inverse, self.forward[id], id),
        }
    }

    /// The store after documents were loaded into an empty one and the posting
    /// lists of the labels below `installed` were built.
    pub open spec fn loaded(
        attributes: Seq<Seq<char>>,
        docs: Seq<(u64, Seq<u64>)>,
        installed: int,
    ) -> StoreView {
        StoreView {
            attributes,
            forward: loaded_forward(docs),
            inverse: loaded_inverse(docs, installed),
        }
    }

    /// The point has attributes.
    pub open spec fn exists_id(self, id: u64) -> bool {
        self.forward[id].len() > 0
    }

    /// The point has attributes and they satisfy the filter.
    pub open spec fn matches(self, id: u64, filter: ASTIdExpr) -> bool {
        self.exists_id(id) && filter.holds(self.forward[id])
    }

    /// The points that carry at least one of `labels`.
    pub open spec fn union_of(self, labels: Seq<u64>) -> Set<u64> {
        Set::new(
            |id: u64| exists|i: int|
                0 <= i < labels.len() && (#[trigger] self.inverse[labels[i]]).contains(id),
        )
    }

    /// The two indexes say the same: a point is in the posting list of a label
    /// exactly where the label is among the labels of the point.
    pub open spec fn consistent(self) -> bool {
        forall|label: u64, id: u64|
            #![trigger self.inverse[label].contains(id)]
            #![trigger carries(self.forward[id], label)]
            self.inverse[label].contains(id) <==> carries(self.forward[id], label)
    }

    /// Every label id fits the 32 bits of the forward index.
    pub open spec fn narrow(self) -> bool {
        self.attributes.len() <= 0x1_0000_0000
    }
}

/// Every posting list is finite.
pub open spec fn finite_lists(store: StoreView) -> bool {
    forall|label: u64| (#[trigger] store.inverse[label]).finite()
}

/// No document repeats a label and no document comes after one with the same or a greater id.
pub open spec fn well_ordered(docs: Seq<(u64, Seq<u64>)>) -> bool {
    &&& forall|i: int, j: int| 0 <= i < j < docs.len() ==> docs[i].0 < docs[j].0
    &&& forall|i: int| 0 <= i < docs.len() ==> (#[trigger] docs[i]).1.no_duplicates()
}

/// A bucket holds the ids of exactly those documents that list the label.
pub proof fn lemma_bucket_members(docs: Seq<(u64, Seq<u64>)>, label: u64, id: u64)
    ensures
        bucket(docs, label).contains(id) <==> exists|i: int|
            0 <= i < docs.len() && (#[trigger] docs[i]).0 == id && docs[i].1.contains(label),
    decreases docs.len(),
{
    if docs.len() > 0 {
        let rest = docs.drop_last();
        let (last_id, labels) = docs.last();
        let tail = occurrences(last_id, labels, label);
        lemma_bucket_members(rest, label, id);
        lemma_occurrences(last_id, labels, label);
        assert(bucket(docs, label) == bucket(rest, label) + tail);
        if bucket(rest, label).contains(id) {
            let k = bucket(rest, label).index_of(id);
            assert(bucket(docs, label)[k] == id);
            let i = choose|i: int|
                0 <= i < rest.len() && (#[trigger] rest[i]).0 == id && rest[i].1.contains(label);
            assert(docs[i] == rest[i]);
        }
        if last_id == id && labels.contains(label) {
            assert(docs[docs.len() - 1].0 == id);
            assert(bucket(docs, label)[bucket(rest, label).len() as int] == tail[0]);
        }
        if bucket(docs, label).contains(id) && !bucket(rest, label).contains(id) {
            let k = bucket(docs, label).index_of(id);
            assert(k >= bucket(rest, label).len());
            assert(tail[k - bucket(rest, label).len()] == id);
            assert(docs[docs.len() - 1].0 == id);
        }
        assert forall|i: int|
            0 <= i < docs.len() && (#[trigger] docs[i]).0 == id && docs[i].1.contains(
                label,
            ) implies bucket(docs, label).contains(id) by {
            if i < rest.len() {
                assert(rest[i] == docs[i]);
            }
        }
    }
}

/// An id occurs once for each place of the label.
pub proof fn lemma_occurrences(id: u64, labels: Seq<u64>, label: u64)
    ensures
        forall|k: int|
            0 <= k < occurrences(id, labels, label).len() ==> #[trigger] occurrences(
                id,
                labels,
                label,
            )[k] == id,
        occurrences(id, labels, label).len() > 0 <==> labels.contains(label),
        labels.no_duplicates() ==> occurrences(id, labels, label).len() <= 1,
    decreases labels.len(),
{
    if labels.len() > 0 {
        let rest = labels.drop_last();
        lemma_occurrences(id, rest, label);
        if rest.contains(label) {
            let k = rest.index_of(label);
            assert(labels[k] == label);
            assert(labels.no_duplicates() ==> labels.last() != label);
        }
        if labels.last() == label {
            assert(labels[labels.len() - 1] == label);
        }
        if labels.contains(label) && labels.last() != label {
            let k = labels.index_of(label);
            assert(rest[k] == label);
        }
        assert(labels.no_duplicates() ==> rest.no_duplicates());
    }
}

} // verus!
