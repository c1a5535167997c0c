//! Laws of the attribute store on loading and setting in another order.
use vstd::prelude::*;

use crate::attribute::{encode_all, id_of, ids_of_all, lemma_encode_all, lemma_index_of};
use crate::filter_expr::carries;
use crate::sorting::{lemma_sorted_labels, sorted_labels};
use crate::store_laws::{law_label_ids_are_stable, law_ordered_documents_load, lemma_set_labels};
use crate::store_model::{
    bucket, lemma_bucket_members, loaded_forward, loaded_inverse, narrowed, occurrences,
    well_ordered, StoreView,
};
use crate::treemap::strictly_ascending;

verus! {

/// The documents that have labels, in their order.
pub open spec fn labelled(docs: Seq<(u64, Seq<u64>)>) -> Seq<(u64, Seq<u64>)>
    decreases docs.len(),
{
    if docs.len() == 0 {
        docs
    } else if docs.last().1.len() == 0 {
        labelled(docs.drop_last())
    } else {
        labelled(docs.drop_last()).push(docs.last())
    }
}

/// The documents have the same ids in the same order, and each the same labels in some order.
pub open spec fn same_up_to_order(a: Seq<(u64, Seq<u64>)>, b: Seq<(u64, Seq<u64>)>) -> bool {
    &&& a.len() == b.len()
    &&& forall|i: int|
        0 <= i < a.len() ==> (#[trigger] a[i]).0 == b[i].0 && a[i].1.to_multiset()
            == b[i].1.to_multiset()
}

/// A bulk load does not depend on the order of the labels of a document, nor on documents
/// without labels: the documents of each label arrive alike, so both loads succeed or stop
/// at the same label, and what they leave is the same.
pub proof fn law_bulk_load_ignores_label_order(
    attributes: Seq<Seq<char>>,
    a: Seq<(u64, Seq<u64>)>,
    b: Seq<(u64, Seq<u64>)>,
    installed: int,
)
    requires
        same_up_to_order(labelled(a), labelled(b)),
    ensures
        forall|label: u64| #[trigger] bucket(a, label) == bucket(b, label),
        StoreView::loaded(attributes, a, installed) == StoreView::loaded(attributes, b, installed),
{
    lemma_labelled_forward(a);
    lemma_labelled_forward(b);
    lemma_reordered_forward(labelled(a), labelled(b));
    assert forall|label: u64| #[trigger] bucket(a, label) == bucket(b, label) by {
        lemma_labelled_bucket(a, label);
        lemma_labelled_bucket(b, label);
        lemma_reordered_bucket(labelled(a), labelled(b), label);
    }
    assert(loaded_inverse(a, installed) =~= loaded_inverse(b, installed));
}

/// The texts of a list of label ids.
pub open spec fn texts_of(strings: Seq<Seq<char>>, labels: Seq<u64>) -> Seq<Seq<char>> {
    labels.map_values(|label: u64| strings[label as int])
}

/// The store after each document that has labels was set on its own.
pub open spec fn set_one_by_one(
    strings: Seq<Seq<char>>,
    docs: Seq<(u64, Seq<u64>)>,
) -> StoreView
    decreases docs.len(),
{
    if docs.len() == 0 {
        StoreView::empty()
    } else {
        let before = set_one_by_one(strings, docs.drop_last());
        if docs.last().1.len() == 0 {
            before
        } else {
            before.set_element(docs.last().0, texts_of(strings, docs.last().1))
        }
    }
}

/// The points that carry an attribute, by the label id that the store gave it.
pub open spec fn carriers(store: StoreView, text: Seq<char>) -> Set<u64> {
    if store.attributes.contains(text) {
        store.inverse[id_of(store.attributes, text)]
    } else {
        Set::empty()
    }
}

/// A bulk load of documents in ascending order answers as setting the attributes of each
/// document does: it succeeds, the same points have attributes, and every attribute is
/// carried by the same points, though its label id may be another.
pub proof fn law_bulk_load_is_setting_one_by_one(
    strings: Seq<Seq<char>>,
    docs: Seq<(u64, Seq<u64>)>,
)
    requires
        strings.no_duplicates(),
        strings.len() <= 0x1_0000_0000,
        well_ordered(docs),
        forall|i: int, k: int|
            0 <= i < docs.len() && 0 <= k < docs[i].1.len() ==> #[trigger] docs[i].1[k]
                < strings.len(),
    ensures
        ({
            let loaded = StoreView::loaded(strings, docs, strings.len() as int);
            let set = set_one_by_one(strings, docs);
            &&& forall|label: u64| strictly_ascending(#[trigger] bucket(docs, label))
            &&& forall|id: u64| #[trigger] loaded.exists_id(id) <==> set.exists_id(id)
            &&& forall|text: Seq<char>| #[trigger] carriers(loaded, text) == carriers(set, text)
        }),
{
    let loaded = StoreView::loaded(strings, docs, strings.len() as int);
    let set = set_one_by_one(strings, docs);
    assert forall|label: u64| strictly_ascending(#[trigger] bucket(docs, label)) by {
        law_ordered_documents_load(docs, label);
    }
    lemma_one_by_one(strings, docs);
    assert forall|id: u64| #[trigger] loaded.exists_id(id) <==> set.exists_id(id) by {
        lemma_loaded_exists(docs, id);
    }
    assert forall|text: Seq<char>| #[trigger] carriers(loaded, text) == carriers(set, text) by {
        assert forall|id: u64| carriers(loaded, text).contains(id) <==> carriers(
            set,
            text,
        ).contains(id) by {
            assert(carriers(set, text).contains(id) <==> tells(strings, docs, text, id));
            lemma_loaded_carriers(strings, docs, text, id);
        }
        assert(carriers(loaded, text) =~= carriers(set, text));
    }
}

/// Setting the same attributes of a point again, in any order, changes nothing.
pub proof fn law_setting_again_changes_nothing(
    store: StoreView,
    id: u64,
    list: Seq<Seq<char>>,
    again: Seq<Seq<char>>,
)
    requires
        store.attributes.no_duplicates(),
        store.set_element(id, list).narrow(),
        list.to_multiset() == again.to_multiset(),
    ensures
        store.set_element(id, list).set_element(id, again) == store.set_element(id, list),
{
    broadcast use vstd::seq_lib::group_to_multiset_ensures;

    let first = store.set_element(id, list);
    let second = first.set_element(id, again);
    let known = first.attributes;
    lemma_encode_all(store.attributes, list);
    lemma_set_labels(store, id, list);
    assert forall|j: int| 0 <= j < again.len() implies known.contains(#[trigger] again[j]) by {
        assert(again.contains(again[j]));
        assert(list.to_multiset().count(again[j]) > 0);
        assert(list.contains(again[j]));
        assert(known.contains(list[list.index_of(again[j])]));
    }
    lemma_encode_known(known, again);
    let labels = ids_of_all(known, list);
    let relabelled = ids_of_all(known, again);
    let label_of = |text: Seq<char>| id_of(known, text);
    lemma_map_multiset(list, again, label_of);
    assert(labels =~= list.map_values(label_of));
    assert(relabelled =~= again.map_values(label_of));
    lemma_sorted_alike(labels, relabelled);
    assert forall|label: u64| labels.contains(label) <==> #[trigger] relabelled.contains(label) by {
        assert(labels.to_multiset().count(label) == relabelled.to_multiset().count(label));
    }
    assert(second.forward =~= first.forward);
    assert forall|label: u64| #[trigger] second.inverse[label] == first.inverse[label] by {
        assert(carries(first.forward[id], label) <==> labels.contains(label));
        assert(second.inverse[label] =~= first.inverse[label]);
    }
    assert(second.inverse =~= first.inverse);
}

/// Mapping keeps lists alike that differ in their order only.
proof fn lemma_map_multiset<A, B>(a: Seq<A>, b: Seq<A>, f: spec_fn(A) -> B)
    requires
        a.to_multiset() == b.to_multiset(),
    ensures
        a.map_values(f).to_multiset() == b.map_values(f).to_multiset(),
    decreases a.len(),
{
    broadcast use vstd::seq_lib::group_to_multiset_ensures;

    vstd::seq_lib::to_multiset_len(a);
    vstd::seq_lib::to_multiset_len(b);
    if a.len() == 0 {
        assert(a.map_values(f) =~= b.map_values(f));
    } else {
        let x = a.last();
        let rest = a.drop_last();
        assert(a =~= rest.push(x));
        assert(a.to_multiset().count(x) > 0);
        assert(b.contains(x));
        let j = b.index_of(x);
        let other = b.remove(j);
        assert(rest.to_multiset() =~= other.to_multiset());
        lemma_map_multiset(rest, other, f);
        assert(a.map_values(f) =~= rest.map_values(f).push(f(x)));
        assert(b.map_values(f) =~= other.map_values(f).insert(j, f(x)));
    }
}

/// Label lists that differ in their order only are kept alike.
proof fn lemma_sorted_alike(a: Seq<u64>, b: Seq<u64>)
    requires
        a.to_multiset() == b.to_multiset(),
    ensures
        sorted_labels(narrowed(a)) == sorted_labels(narrowed(b)),
{
    let narrow = |label: u64| label as u32;
    let leq = |x: u32, y: u32| x <= y;
    lemma_map_multiset(a, b, narrow);
    assert(narrowed(a) =~= a.map_values(narrow));
    assert(narrowed(b) =~= b.map_values(narrow));
    lemma_sorted_labels(narrowed(a));
    lemma_sorted_labels(narrowed(b));
    vstd::seq_lib::lemma_sorted_unique(
        sorted_labels(narrowed(a)),
        sorted_labels(narrowed(b)),
        leq,
    );
}

proof fn lemma_labelled_forward(docs: Seq<(u64, Seq<u64>)>)
    ensures
        loaded_forward(labelled(docs)) == loaded_forward(docs),
    decreases docs.len(),
{
    if docs.len() > 0 {
        lemma_labelled_forward(docs.drop_last());
        if docs.last().1.len() > 0 {
            assert(labelled(docs).drop_last() =~= labelled(docs.drop_last()));
        }
    }
}

proof fn lemma_labelled_bucket(docs: Seq<(u64, Seq<u64>)>, label: u64)
    ensures
        bucket(labelled(docs), label) == bucket(docs, label),
    decreases docs.len(),
{
    if docs.len() > 0 {
        lemma_labelled_bucket(docs.drop_last(), label);
        if docs.last().1.len() > 0 {
            assert(labelled(docs).drop_last() =~= labelled(docs.drop_last()));
        } else {
            assert(bucket(docs, label) =~= bucket(docs.drop_last(), label));
        }
    }
}

proof fn lemma_reordered_forward(a: Seq<(u64, Seq<u64>)>, b: Seq<(u64, Seq<u64>)>)
    requires
        same_up_to_order(a, b),
    ensures
        loaded_forward(a) == loaded_forward(b),
    decreases a.len(),
{
    broadcast use vstd::seq_lib::group_to_multiset_ensures;

    if a.len() > 0 {
        let last = a.len() - 1;
        assert(a[last].0 == b[last].0);
        assert forall|i: int| 0 <= i < last implies (#[trigger] a.drop_last()[i]).0
            == b.drop_last()[i].0 && a.drop_last()[i].1.to_multiset()
            == b.drop_last()[i].1.to_multiset() by {
            assert(a[i].0 == b[i].0);
        }
        lemma_reordered_forward(a.drop_last(), b.drop_last());
        lemma_sorted_alike(a.last().1, b.last().1);
        assert(a.last().1.to_multiset().len() == b.last().1.to_multiset().len());
    }
}

proof fn lemma_reordered_bucket(
    a: Seq<(u64, Seq<u64>)>,
    b: Seq<(u64, Seq<u64>)>,
    label: u64,
)
    requires
        same_up_to_order(a, b),
    ensures
        bucket(a, label) == bucket(b, label),
    decreases a.len(),
{
    if a.len() > 0 {
        let last = a.len() - 1;
        assert(a[last].0 == b[last].0);
        assert forall|i: int| 0 <= i < last implies (#[trigger] a.drop_last()[i]).0
            == b.drop_last()[i].0 && a.drop_last()[i].1.to_multiset()
            == b.drop_last()[i].1.to_multiset() by {
            assert(a[i].0 == b[i].0);
        }
        lemma_reordered_bucket(a.drop_last(), b.drop_last(), label);
        lemma_occurrences_count(a.last().0, a.last().1, label);
        lemma_occurrences_count(b.last().0, b.last().1, label);
    }
}

/// An id occurs as often as the label.
proof fn lemma_occurrences_count(id: u64, labels: Seq<u64>, label: u64)
    ensures
        occurrences(id, labels, label) == Seq::new(
            labels.to_multiset().count(label),
            |i: int| id,
        ),
    decreases labels.len(),
{
    broadcast use vstd::seq_lib::group_to_multiset_ensures;

    let expected = Seq::new(labels.to_multiset().count(label), |i: int| id);
    if labels.len() == 0 {
        assert(occurrences(id, labels, label) =~= expected);
    } else {
        let rest = labels.drop_last();
        lemma_occurrences_count(id, rest, label);
        assert(labels =~= rest.push(labels.last()));
        assert(occurrences(id, labels, label) =~= expected);
    }
}

/// Encoding what is known changes nothing.
proof fn lemma_encode_known(known: Seq<Seq<char>>, list: Seq<Seq<char>>)
    requires
        forall|j: int| 0 <= j < list.len() ==> known.contains(#[trigger] list[j]),
    ensures
        encode_all(known, list) == known,
    decreases list.len(),
{
    if list.len() > 0 {
        let rest = list.drop_last();
        assert forall|j: int| 0 <= j < rest.len() implies known.contains(#[trigger] rest[j]) by {
            assert(rest[j] == list[j]);
        }
        lemma_encode_known(known, rest);
        assert(known.contains(list[list.len() - 1]));
    }
}

/// Some document of this id lists the attribute.
spec fn tells(
    strings: Seq<Seq<char>>,
    docs: Seq<(u64, Seq<u64>)>,
    text: Seq<char>,
    id: u64,
) -> bool {
    exists|i: int|
        0 <= i < docs.len() && (#[trigger] docs[i]).0 == id && texts_of(
            strings,
            docs[i].1,
        ).contains(text)
}

/// Some document of this id has labels.
pub open spec fn lists_any(docs: Seq<(u64, Seq<u64>)>, id: u64) -> bool {
    exists|i: int| 0 <= i < docs.len() && (#[trigger] docs[i]).0 == id && docs[i].1.len() > 0
}

/// A point has labels exactly where a document of its id does.
pub(crate) proof fn lemma_loaded_exists(docs: Seq<(u64, Seq<u64>)>, id: u64)
    ensures
        loaded_forward(docs)[id].len() > 0 <==> lists_any(docs, id),
    decreases docs.len(),
{
    if docs.len() > 0 {
        let rest = docs.drop_last();
        lemma_loaded_exists(rest, id);
        lemma_lists_any(docs, id);
        lemma_sorted_labels(narrowed(docs.last().1));
    }
}

proof fn lemma_lists_any(docs: Seq<(u64, Seq<u64>)>, id: u64)
    requires
        docs.len() > 0,
    ensures
        lists_any(docs, id) <==> lists_any(docs.drop_last(), id) || (docs.last().0 == id
            && docs.last().1.len() > 0),
{
    let rest = docs.drop_last();
    let last = docs.len() - 1;
    assert(docs[last] == docs.last());
    if lists_any(rest, id) {
        let i = choose|i: int|
            0 <= i < rest.len() && (#[trigger] rest[i]).0 == id && rest[i].1.len() > 0;
        assert(docs[i] == rest[i]);
    }
    if lists_any(docs, id) {
        let i = choose|i: int|
            0 <= i < docs.len() && (#[trigger] docs[i]).0 == id && docs[i].1.len() > 0;
        if i < last {
            assert(rest[i] == docs[i]);
        }
    }
}

proof fn lemma_tells(
    strings: Seq<Seq<char>>,
    docs: Seq<(u64, Seq<u64>)>,
    text: Seq<char>,
    id: u64,
)
    requires
        docs.len() > 0,
    ensures
        tells(strings, docs, text, id) <==> tells(strings, docs.drop_last(), text, id) || (
        docs.last().0 == id && texts_of(strings, docs.last().1).contains(text)),
{
    let rest = docs.drop_last();
    let last = docs.len() - 1;
    assert(docs[last] == docs.last());
    if tells(strings, rest, text, id) {
        let i = choose|i: int|
            0 <= i < rest.len() && (#[trigger] rest[i]).0 == id && texts_of(
                strings,
                rest[i].1,
            ).contains(text);
        assert(docs[i] == rest[i]);
    }
    if tells(strings, docs, text, id) {
        let i = choose|i: int|
            0 <= i < docs.len() && (#[trigger] docs[i]).0 == id && texts_of(
                strings,
                docs[i].1,
            ).contains(text);
        if i < last {
            assert(rest[i] == docs[i]);
        }
    }
}

proof fn lemma_loaded_carriers(
    strings: Seq<Seq<char>>,
    docs: Seq<(u64, Seq<u64>)>,
    text: Seq<char>,
    id: u64,
)
    requires
        strings.no_duplicates(),
        strings.len() <= 0x1_0000_0000,
        forall|i: int, k: int|
            0 <= i < docs.len() && 0 <= k < docs[i].1.len() ==> #[trigger] docs[i].1[k]
                < strings.len(),
    ensures
        carriers(StoreView::loaded(strings, docs, strings.len() as int), text).contains(id)
            <==> tells(strings, docs, text, id),
{
    let label = id_of(strings, text);
    if strings.contains(text) {
        lemma_index_of(strings, text);
        lemma_bucket_members(docs, label, id);
        if bucket(docs, label).contains(id) {
            let i = choose|i: int|
                0 <= i < docs.len() && (#[trigger] docs[i]).0 == id && docs[i].1.contains(label);
            let k = docs[i].1.index_of(label);
            assert(texts_of(strings, docs[i].1)[k] == text);
        }
    }
    if tells(strings, docs, text, id) {
        let i = choose|i: int|
            0 <= i < docs.len() && (#[trigger] docs[i]).0 == id && texts_of(
                strings,
                docs[i].1,
            ).contains(text);
        let k = texts_of(strings, docs[i].1).index_of(text);
        assert(docs[i].1[k] < strings.len());
        assert(strings[docs[i].1[k] as int] == text);
        assert(strings.contains(text));
        assert(docs[i].1[k] == label);
        assert(docs[i].1.contains(label));
    }
}

/// What setting one by one leaves.
proof fn lemma_one_by_one(strings: Seq<Seq<char>>, docs: Seq<(u64, Seq<u64>)>)
    requires
        strings.no_duplicates(),
        strings.len() <= 0x1_0000_0000,
        well_ordered(docs),
        forall|i: int, k: int|
            0 <= i < docs.len() && 0 <= k < docs[i].1.len() ==> #[trigger] docs[i].1[k]
                < strings.len(),
    ensures
        ({
            let set = set_one_by_one(strings, docs);
            &&& set.attributes.no_duplicates()
            &&& forall|i: int|
                0 <= i < set.attributes.len() ==> strings.contains(#[trigger] set.attributes[i])
            &&& forall|id: u64| #[trigger] set.exists_id(id) <==> lists_any(docs, id)
            &&& forall|label: u64|
                label >= set.attributes.len() ==> #[trigger] set.inverse[label] == Set::<u64>::empty()
            &&& forall|text: Seq<char>, id: u64| #[trigger]
                carriers(set, text).contains(id) <==> tells(strings, docs, text, id)
        }),
    decreases docs.len(),
{
    let set = set_one_by_one(strings, docs);
    if docs.len() == 0 {
        assert forall|id: u64| #[trigger] set.exists_id(id) <==> lists_any(docs, id) by {}
        assert forall|text: Seq<char>, id: u64| #[trigger]
            carriers(set, text).contains(id) <==> tells(strings, docs, text, id) by {}
    } else {
        let rest = docs.drop_last();
        let last = docs.len() - 1;
        let (v, labels) = docs.last();
        let before = set_one_by_one(strings, rest);
        let list = texts_of(strings, labels);
        assert(docs[last] == docs.last());
        assert(well_ordered(rest)) by {
            assert forall|i: int| 0 <= i < rest.len() implies (#[trigger] rest[i]).1.no_duplicates() by {
                assert(docs[i].1.no_duplicates());
            }
        }
        assert forall|i: int, k: int|
            0 <= i < rest.len() && 0 <= k < rest[i].1.len() implies #[trigger] rest[i].1[k]
            < strings.len() by {
            assert(docs[i].1[k] < strings.len());
        }
        lemma_one_by_one(strings, rest);
        assert forall|k: int| 0 <= k < labels.len() implies #[trigger] labels[k]
            < strings.len() by {
            assert(docs[last].1[k] < strings.len());
        }
        if labels.len() > 0 {
            lemma_set_step(strings, rest, before, v, labels);
        }
        assert forall|id: u64| #[trigger] set.exists_id(id) <==> lists_any(docs, id) by {
            lemma_lists_any(docs, id);
            if labels.len() > 0 {
                lemma_sorted_labels(narrowed(ids_of_all(set.attributes, list)));
                assert(before.exists_id(id) <==> lists_any(rest, id));
            }
        }
        assert forall|text: Seq<char>, id: u64| #[trigger]
            carriers(set, text).contains(id) <==> tells(strings, docs, text, id) by {
            lemma_tells(strings, docs, text, id);
            assert(carriers(before, text).contains(id) <==> tells(strings, rest, text, id));
        }
    }
}

/// One more document is set on a point that has no labels yet.
proof fn lemma_set_step(
    strings: Seq<Seq<char>>,
    rest: Seq<(u64, Seq<u64>)>,
    before: StoreView,
    v: u64,
    labels: Seq<u64>,
)
    requires
        strings.len() <= 0x1_0000_0000,
        before.attributes.no_duplicates(),
        forall|i: int|
            0 <= i < before.attributes.len() ==> strings.contains(#[trigger] before.attributes[i]),
        forall|id: u64| #[trigger] before.exists_id(id) <==> lists_any(rest, id),
        forall|label: u64|
            label >= before.attributes.len() ==> #[trigger] before.inverse[label]
                == Set::<u64>::empty(),
        forall|i: int| 0 <= i < rest.len() ==> (#[trigger] rest[i]).0 < v,
        forall|k: int| 0 <= k < labels.len() ==> #[trigger] labels[k] < strings.len(),
    ensures
        ({
            let list = texts_of(strings, labels);
            let set = before.set_element(v, list);
            &&& set.attributes.no_duplicates()
            &&& forall|i: int|
                0 <= i < set.attributes.len() ==> strings.contains(#[trigger] set.attributes[i])
            &&& forall|label: u64|
                label >= set.attributes.len() ==> #[trigger] set.inverse[label] == Set::<u64>::empty()
            &&& forall|text: Seq<char>, id: u64| #[trigger]
                carriers(set, text).contains(id) <==> carriers(before, text).contains(id) || (id
                    == v && list.contains(text))
        }),
{
    let list = texts_of(strings, labels);
    let set = before.set_element(v, list);
    let known = set.attributes;
    let ids = ids_of_all(known, list);
    lemma_encode_all(before.attributes, list);
    lemma_encoded_from(strings, before.attributes, list);
    assert(before.forward[v].len() == 0) by {
        assert(!before.exists_id(v)) by {
            assert(!lists_any(rest, v));
        }
    }
    assert(known.len() <= strings.len()) by {
        known.unique_seq_to_set();
        strings.lemma_cardinality_of_set();
        assert(known.to_set().subset_of(strings.to_set())) by {
            assert forall|text: Seq<char>| known.contains(text) implies strings.contains(text) by {
                assert(strings.contains(known[known.index_of(text)]));
            }
        }
        vstd::set_lib::lemma_len_subset(known.to_set(), strings.to_set());
    }
    assert forall|label: u64| #[trigger] set.inverse[label] == if ids.contains(label) {
        before.inverse[label].insert(v)
    } else {
        before.inverse[label]
    } by {
        assert(!carries(before.forward[v], label));
    }
    assert forall|label: u64| label >= known.len() implies #[trigger] set.inverse[label]
        == Set::<u64>::empty() by {
        if ids.contains(label) {
            let k = ids.index_of(label);
            lemma_index_of(known, list[k]);
        }
    }
    assert forall|text: Seq<char>, id: u64| #[trigger] carriers(set, text).contains(id)
        <==> carriers(before, text).contains(id) || (id == v && list.contains(text)) by {
        if list.contains(text) {
            assert(known.contains(list[list.index_of(text)]));
        }
        if before.attributes.contains(text) {
            law_label_ids_are_stable(before, v, list, text);
        }
        if known.contains(text) {
            let label = id_of(known, text);
            lemma_index_of(known, text);
            if list.contains(text) {
                assert(ids[list.index_of(text)] == label);
            }
            if ids.contains(label) {
                let k = ids.index_of(label);
                lemma_index_of(known, list[k]);
                assert(list[k] == text);
            }
            if !before.attributes.contains(text) {
                assert(label >= before.attributes.len()) by {
                    if label < before.attributes.len() {
                        assert(known[label as int] == before.attributes[label as int]);
                        assert(before.attributes.contains(before.attributes[label as int]));
                    }
                }
            }
        }
    }
}

/// What is known after encoding comes from what was known and what was encoded.
proof fn lemma_encoded_from(
    strings: Seq<Seq<char>>,
    known: Seq<Seq<char>>,
    list: Seq<Seq<char>>,
)
    requires
        forall|i: int| 0 <= i < known.len() ==> strings.contains(#[trigger] known[i]),
        forall|i: int| 0 <= i < list.len() ==> strings.contains(#[trigger] list[i]),
    ensures
        forall|i: int|
            0 <= i < encode_all(known, list).len() ==> strings.contains(
                #[trigger] encode_all(known, list)[i],
            ),
    decreases list.len(),
{
    if list.len() > 0 {
        let rest = list.drop_last();
        assert forall|i: int| 0 <= i < rest.len() implies strings.contains(#[trigger] rest[i]) by {
            assert(rest[i] == list[i]);
        }
        lemma_encoded_from(strings, known, rest);
        assert(strings.contains(list[list.len() - 1]));
        let before = encode_all(known, rest);
        assert forall|i: int| 0 <= i < encode_all(known, list).len() implies strings.contains(
            #[trigger] encode_all(known, list)[i],
        ) by {
            if i < before.len() {
                assert(encode_all(known, list)[i] == before[i]);
            }
        }
    }
}

} // verus!
