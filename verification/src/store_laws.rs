//! Laws of the attribute store that relate several of its operations.
use vstd::prelude::*;

use crate::attribute::{encode_all, id_of, ids_of_all, lemma_encode_all, lemma_index_of};
use crate::filter_expr::{carries, lemma_or_holds, ASTIdExpr};
use crate::sorting::{lemma_sorted_labels, sorted_labels};
use crate::store_model::{
    bucket, lemma_bucket_members, lemma_occurrences, loaded_forward, narrowed, occurrences,
    well_ordered, StoreView,
};
use crate::treemap::strictly_ascending;

verus! {

/// Labels that fit 32 bits survive the way into the forward index.
/// Narrow labels are carried as they are.
pub(crate) proof fn lemma_narrowed(labels: Seq<u64>)
    requires
        forall|i: int| 0 <= i < labels.len() ==> #[trigger] labels[i] <= u32::MAX,
    ensures
        forall|label: u64| #[trigger]
            carries(sorted_labels(narrowed(labels)), label) <==> labels.contains(label),
{
    let kept = narrowed(labels);
    lemma_sorted_labels(kept);
    assert forall|label: u64| #[trigger] carries(sorted_labels(kept), label) <==> labels.contains(
        label,
    ) by {
        if labels.contains(label) {
            let i = labels.index_of(label);
            assert(kept[i] == label as u32);
        }
        if carries(sorted_labels(kept), label) {
            assert(kept.contains(label as u32));
            let i = kept.index_of(label as u32);
            assert(labels[i] == label);
        }
    }
}

/// The label ids that a point gets are those of its attributes.
pub(crate) proof fn lemma_set_labels(store: StoreView, id: u64, list: Seq<Seq<char>>)
    requires
        store.attributes.no_duplicates(),
        store.set_element(id, list).narrow(),
    ensures
        ({
            let after = store.set_element(id, list);
            let labels = ids_of_all(after.attributes, list);
            &&& forall|label: u64| #[trigger]
                carries(after.forward[id], label) <==> labels.contains(label)
            &&& forall|i: int|
                0 <= i < list.len() ==> after.attributes.contains(#[trigger] list[i]) && labels[i]
                    < after.attributes.len()
        }),
{
    let after = store.set_element(id, list);
    let labels = ids_of_all(after.attributes, list);
    lemma_encode_all(store.attributes, list);
    assert forall|i: int| 0 <= i < list.len() implies after.attributes.contains(
        #[trigger] list[i],
    ) && labels[i] < after.attributes.len() by {
        lemma_index_of(after.attributes, list[i]);
    }
    assert forall|i: int| 0 <= i < labels.len() implies #[trigger] labels[i] <= u32::MAX by {
        assert(after.attributes.contains(list[i]));
    }
    lemma_narrowed(labels);
}

/// In a new store the two indexes agree.
pub proof fn law_empty_store_is_consistent()
    ensures
        StoreView::empty().consistent(),
{
}

/// Setting the attributes of a point keeps the two indexes in agreement, as long as
/// label ids fit the forward index.
pub proof fn law_set_element_keeps_consistency(store: StoreView, id: u64, list: Seq<Seq<char>>)
    requires
        store.consistent(),
        store.attributes.no_duplicates(),
        store.set_element(id, list).narrow(),
    ensures
        store.set_element(id, list).consistent(),
{
    let after = store.set_element(id, list);
    lemma_set_labels(store, id, list);
    assert forall|label: u64, other: u64|
        after.inverse[label].contains(other) <==> carries(after.forward[other], label) by {
        assert(store.inverse[label].contains(other) <==> carries(store.forward[other], label));
    }
}

/// Dropping the attributes of a point keeps the two indexes in agreement.
pub proof fn law_delete_keeps_consistency(store: StoreView, id: u64)
    requires
        store.consistent(),
    ensures
        store.delete(id).consistent(),
{
    let after = store.delete(id);
    assert forall|label: u64, other: u64|
        after.inverse[label].contains(other) <==> carries(after.forward[other], label) by {
        assert(store.inverse[label].contains(other) <==> carries(store.forward[other], label));
    }
}

/// A bulk load of documents with distinct ids leaves the two indexes in agreement.
pub proof fn law_bulk_load_is_consistent(
    attributes: Seq<Seq<char>>,
    docs: Seq<(u64, Seq<u64>)>,
)
    requires
        attributes.len() <= 0x1_0000_0000,
        forall|i: int, j: int| 0 <= i < j < docs.len() ==> docs[i].0 != docs[j].0,
        forall|i: int, k: int|
            0 <= i < docs.len() && 0 <= k < docs[i].1.len() ==> #[trigger] docs[i].1[k]
                < attributes.len(),
    ensures
        StoreView::loaded(attributes, docs, attributes.len() as int).consistent(),
{
    let store = StoreView::loaded(attributes, docs, attributes.len() as int);
    assert forall|label: u64, id: u64|
        store.inverse[label].contains(id) <==> carries(store.forward[id], label) by {
        lemma_bucket_members(docs, label, id);
        lemma_loaded_forward(attributes, docs, label, id);
    }
}

/// A point carries a label exactly where a document of its id lists it.
pub(crate) proof fn lemma_loaded_forward(
    attributes: Seq<Seq<char>>,
    docs: Seq<(u64, Seq<u64>)>,
    label: u64,
    id: u64,
)
    requires
        attributes.len() <= 0x1_0000_0000,
        forall|i: int, j: int| 0 <= i < j < docs.len() ==> docs[i].0 != docs[j].0,
        forall|i: int, k: int|
            0 <= i < docs.len() && 0 <= k < docs[i].1.len() ==> #[trigger] docs[i].1[k]
                < attributes.len(),
    ensures
        carries(loaded_forward(docs)[id], label) <==> exists|i: int|
            0 <= i < docs.len() && (#[trigger] docs[i]).0 == id && docs[i].1.contains(label),
        carries(loaded_forward(docs)[id], label) ==> label < attributes.len(),
    decreases docs.len(),
{
    if docs.len() > 0 {
        let rest = docs.drop_last();
        let (last_id, labels) = docs.last();
        let last = docs.len() - 1;
        assert forall|i: int, k: int|
            0 <= i < rest.len() && 0 <= k < rest[i].1.len() implies #[trigger] rest[i].1[k]
            < attributes.len() by {
            assert(docs[i].1[k] < attributes.len());
        }
        lemma_loaded_forward(attributes, rest, label, id);
        assert(docs[last] == docs.last());
        assert forall|k: int| 0 <= k < labels.len() implies #[trigger] labels[k] <= u32::MAX by {
            assert(docs[last].1[k] < attributes.len());
        }
        lemma_narrowed(labels);
        if id == last_id && labels.len() > 0 {
            assert(carries(loaded_forward(docs)[id], label) <==> labels.contains(label));
            if labels.contains(label) {
                let k = labels.index_of(label);
                assert(docs[last].1[k] == label);
            }
        } else {
            if carries(loaded_forward(rest)[id], label) {
                let i = choose|i: int|
                    0 <= i < rest.len() && (#[trigger] rest[i]).0 == id && rest[i].1.contains(label);
                assert(docs[i] == rest[i]);
            }
            assert forall|i: int|
                0 <= i < docs.len() && (#[trigger] docs[i]).0 == id && docs[i].1.contains(
                    label,
                ) implies carries(loaded_forward(docs)[id], label) by {
                assert(i < rest.len());
                assert(rest[i] == docs[i]);
            }
        }
    }
}

/// A bulk load succeeds on documents that arrive in ascending order of their ids
/// and repeat no label: the documents of every label are then in order.
pub proof fn law_ordered_documents_load(docs: Seq<(u64, Seq<u64>)>, label: u64)
    requires
        well_ordered(docs),
    ensures
        strictly_ascending(bucket(docs, label)),
    decreases docs.len(),
{
    if docs.len() > 0 {
        let rest = docs.drop_last();
        let (last_id, labels) = docs.last();
        assert(docs[docs.len() - 1] == docs.last());
        assert forall|i: int| 0 <= i < rest.len() implies (#[trigger] rest[i]).1.no_duplicates() by {
            assert(docs[i].1.no_duplicates());
        }
        law_ordered_documents_load(rest, label);
        lemma_occurrences(last_id, labels, label);
        let all = bucket(docs, label);
        let before = bucket(rest, label);
        assert(all == before + occurrences(last_id, labels, label));
        assert forall|i: int, j: int| 0 <= i < j < all.len() implies all[i] < all[j] by {
            if j == before.len() {
                assert(before.contains(before[i]));
                lemma_bucket_members(rest, label, before[i]);
                let k = choose|k: int|
                    0 <= k < rest.len() && (#[trigger] rest[k]).0 == before[i] && rest[k].1.contains(
                        label,
                    );
                assert(docs[k] == rest[k]);
            }
        }
    }
}

/// What was set is what is read: the point has attributes, and it matches the label
/// of a known attribute exactly where the attribute was in the list.
pub proof fn law_set_then_read(store: StoreView, id: u64, list: Seq<Seq<char>>, text: Seq<char>)
    requires
        store.attributes.no_duplicates(),
        store.set_element(id, list).narrow(),
        list.len() > 0,
        store.set_element(id, list).attributes.contains(text),
    ensures
        store.set_element(id, list).exists_id(id),
        store.set_element(id, list).matches(
            id,
            ASTIdExpr::Terminal(id_of(store.set_element(id, list).attributes, text)),
        ) <==> list.contains(text),
{
    let after = store.set_element(id, list);
    let labels = ids_of_all(after.attributes, list);
    lemma_set_labels(store, id, list);
    lemma_encode_all(store.attributes, list);
    lemma_sorted_labels(narrowed(labels));
    lemma_index_of(after.attributes, text);
    let label = id_of(after.attributes, text);
    if list.contains(text) {
        let i = list.index_of(text);
        assert(labels[i] == label);
    }
    if labels.contains(label) {
        let i = labels.index_of(label);
        assert(after.attributes.contains(list[i]));
        lemma_index_of(after.attributes, list[i]);
        assert(list[i] == text);
    }
}

/// What was deleted is gone: the point matches no filter, not even a negated one,
/// and where the indexes agreed no posting list names it.
pub proof fn law_delete_then_read(store: StoreView, id: u64, filter: ASTIdExpr, label: u64)
    ensures
        !store.delete(id).exists_id(id),
        !store.delete(id).matches(id, filter),
        store.consistent() ==> !store.delete(id).inverse[label].contains(id),
{
    if store.consistent() {
        assert(store.inverse[label].contains(id) <==> carries(store.forward[id], label));
    }
}

/// Updates of one point leave every other point as it was.
pub proof fn law_updates_are_local(
    store: StoreView,
    id: u64,
    list: Seq<Seq<char>>,
    other: u64,
    label: u64,
)
    requires
        other != id,
    ensures
        store.set_element(id, list).forward[other] == store.forward[other],
        store.delete(id).forward[other] == store.forward[other],
        store.set_element(id, list).inverse[label].contains(other)
            == store.inverse[label].contains(other),
        store.delete(id).inverse[label].contains(other) == store.inverse[label].contains(other),
{
}

/// Attributes keep their label ids for good.
pub proof fn law_label_ids_are_stable(
    store: StoreView,
    id: u64,
    list: Seq<Seq<char>>,
    text: Seq<char>,
)
    requires
        store.attributes.no_duplicates(),
        store.attributes.contains(text),
    ensures
        store.set_element(id, list).attributes.contains(text),
        id_of(store.set_element(id, list).attributes, text) == id_of(store.attributes, text),
        store.delete(id).attributes == store.attributes,
{
    let after = encode_all(store.attributes, list);
    lemma_encode_all(store.attributes, list);
    let i = store.attributes.index_of(text);
    assert(after[i] == text);
    lemma_index_of(store.attributes, text);
    lemma_index_of(after, text);
}

/// Deleting a point right after it got its first attributes restores both indexes.
pub proof fn law_delete_undoes_set(store: StoreView, id: u64, list: Seq<Seq<char>>)
    requires
        store.consistent(),
        store.attributes.no_duplicates(),
        store.set_element(id, list).narrow(),
        !store.exists_id(id),
    ensures
        forall|other: u64| #[trigger]
            store.set_element(id, list).delete(id).forward[other] == store.forward[other],
        forall|label: u64| #[trigger]
            store.set_element(id, list).delete(id).inverse[label] == store.inverse[label],
{
    let set = store.set_element(id, list);
    let after = set.delete(id);
    lemma_set_labels(store, id, list);
    assert forall|other: u64| #[trigger] after.forward[other] == store.forward[other] by {
        if other == id {
            assert(store.forward[id] =~= Seq::<u32>::empty());
        }
    }
    assert forall|label: u64| #[trigger] after.inverse[label] == store.inverse[label] by {
        assert(store.inverse[label].contains(id) <==> carries(store.forward[id], label));
        assert(after.inverse[label] =~= store.inverse[label]);
    }
}

/// A posting list names exactly the points that carry the label.
pub proof fn law_posting_list_is_carriers(store: StoreView, label: u64)
    requires
        store.consistent(),
    ensures
        store.inverse[label] == Set::new(|id: u64| carries(store.forward[id], label)),
{
    assert(store.inverse[label] =~= Set::new(|id: u64| carries(store.forward[id], label))) by {
        assert forall|id: u64| store.inverse[label].contains(id) <==> carries(
            store.forward[id],
            label,
        ) by {}
    }
}

/// A union of posting lists names exactly the points that satisfy the disjunction
/// of the labels.
pub proof fn law_union_is_disjunction(store: StoreView, subs: Vec<ASTIdExpr>, labels: Seq<u64>)
    requires
        store.consistent(),
        labels.len() == subs@.len(),
        forall|i: int|
            0 <= i < labels.len() ==> #[trigger] subs@[i] == ASTIdExpr::Terminal(labels[i]),
    ensures
        forall|id: u64| #[trigger]
            store.union_of(labels).contains(id) <==> store.matches(id, ASTIdExpr::Or(subs)),
{
    assert forall|id: u64| #[trigger] store.union_of(labels).contains(id) <==> store.matches(
        id,
        ASTIdExpr::Or(subs),
    ) by {
        let carried = store.forward[id];
        assert forall|i: int| 0 <= i < labels.len() implies (
        #[trigger] store.inverse[labels[i]]).contains(id) == subs@[i].holds(carried) by {
            assert(subs@[i] == ASTIdExpr::Terminal(labels[i]));
            assert(store.inverse[labels[i]].contains(id) <==> carries(carried, labels[i]));
        }
        if store.union_of(labels).contains(id) {
            let i = choose|i: int|
                0 <= i < labels.len() && (#[trigger] store.inverse[labels[i]]).contains(id);
            assert(subs@[i].holds(carried));
            assert(carries(carried, labels[i]));
            assert(carried.len() > 0);
            lemma_or_holds(subs, carried);
            assert(store.matches(id, ASTIdExpr::Or(subs)));
        }
        if store.matches(id, ASTIdExpr::Or(subs)) {
            let i = choose|i: int| 0 <= i < subs@.len() && (#[trigger] subs@[i]).holds(carried);
            assert(store.inverse[labels[i]].contains(id));
            assert(store.union_of(labels).contains(id));
        }
    }
}

} // verus!
