//! What is told of points, said of the labels and attributes that they were given.
use roaring::RoaringTreemap;
use vstd::prelude::*;

use crate::attribute::{
    encode_all, encode_one, id_of, ids_of_all, lemma_encode_all, lemma_index_of, texts, Attribute,
    AttributeEncoder,
};
use crate::evaluator::SlicePredicateEvaluator;
use crate::filter_expr::{carries, lemma_or_holds, ASTIdExpr, EncodedFilterExpr};
use crate::sorting::{lemma_sorted_labels, sort_labels, sorted_labels};
use crate::store::{
    addressable, documents, is_addressable, RoaringAttributeStore, StoreError,
};
use crate::store_laws::{lemma_narrowed, lemma_set_labels};
use crate::store_model::{
    bucket, lemma_bucket_members, loaded_forward, loaded_inverse, narrowed, occurrences, StoreView,
};
use crate::treemap::ids_of;

verus! {

/// What a filter means for a point: a label, that the point has it; a negation, that what it
/// negates does not hold; a conjunction, that every part holds; a disjunction, that one does.
pub proof fn law_what_a_filter_means(
    label: u64,
    sub: Box<ASTIdExpr>,
    subs: Vec<ASTIdExpr>,
    labels: Seq<u32>,
)
    ensures
        carries(labels, label) <==> exists|i: int|
            0 <= i < labels.len() && #[trigger] labels[i] == label,
        ASTIdExpr::Terminal(label).holds(labels) <==> exists|i: int|
            0 <= i < labels.len() && #[trigger] labels[i] == label,
        ASTIdExpr::Not(sub).holds(labels) <==> !sub.holds(labels),
        ASTIdExpr::And(subs).holds(labels) <==> forall|i: int|
            0 <= i < subs@.len() ==> (#[trigger] subs@[i]).holds(labels),
        ASTIdExpr::Or(subs).holds(labels) <==> exists|i: int|
            0 <= i < subs@.len() && (#[trigger] subs@[i]).holds(labels),
{
    lemma_or_holds(subs, labels);
    if carries(labels, label) {
        assert(labels[labels.index_of(label as u32)] == label);
    }
    if exists|i: int| 0 <= i < labels.len() && #[trigger] labels[i] == label {
        let i = choose|i: int| 0 <= i < labels.len() && #[trigger] labels[i] == label;
        assert(labels[i] == label as u32);
    }
    let and = ASTIdExpr::And(subs);
    let inner = and->And_0;
    if and.holds(labels) {
        assert forall|i: int| 0 <= i < subs@.len() implies (#[trigger] subs@[i]).holds(labels) by {
            assert(inner@[i].holds(labels));
        }
    }
    if forall|i: int| 0 <= i < subs@.len() ==> (#[trigger] subs@[i]).holds(labels) {
        assert forall|i: int| 0 <= i < inner@.len() implies (#[trigger] inner@[i]).holds(
            labels,
        ) by {
            assert(subs@[i].holds(labels));
        }
    }
}

/// Evaluation on the labels of a point tells what holds of them.
pub proof fn law_evaluation_tells_what_holds(
    labels: &[u32],
    evaluator: SlicePredicateEvaluator,
    expr: &ASTIdExpr,
    exprs: &[ASTIdExpr],
    id: u32,
    label: u64,
    holds: bool,
    all: bool,
    any: bool,
    not: bool,
    has: bool,
    carried: bool,
)
    requires
        evaluator.labels() == labels@,
        call_ensures(SlicePredicateEvaluator::visit, (&evaluator, expr), holds),
        call_ensures(SlicePredicateEvaluator::visit_and, (&evaluator, exprs), all),
        call_ensures(SlicePredicateEvaluator::visit_or, (&evaluator, exprs), any),
        call_ensures(SlicePredicateEvaluator::visit_not, (&evaluator, expr), not),
        call_ensures(SlicePredicateEvaluator::contains_id, (&evaluator, id), has),
        call_ensures(SlicePredicateEvaluator::visit_terminal, (&evaluator, label), carried),
    ensures
        holds <==> expr.holds(labels@),
        not <==> !holds,
        all <==> forall|i: int| 0 <= i < exprs@.len() ==> (#[trigger] exprs@[i]).holds(labels@),
        any <==> exists|i: int| 0 <= i < exprs@.len() && (#[trigger] exprs@[i]).holds(labels@),
        has <==> exists|i: int| 0 <= i < labels@.len() && #[trigger] labels@[i] == id,
        carried <==> exists|i: int| 0 <= i < labels@.len() && #[trigger] labels@[i] == label,
{
    let call = (&evaluator, exprs);
    assert(call.0.labels() == labels@ && call.1@ == exprs@);
    if all {
        assert forall|i: int| 0 <= i < exprs@.len() implies (#[trigger] exprs@[i]).holds(
            labels@,
        ) by {
            assert(call.1@[i].holds(call.0.labels()));
        }
    }
    if !any {
        assert forall|i: int| 0 <= i < exprs@.len() implies !(#[trigger] exprs@[i]).holds(
            labels@,
        ) by {
            assert(!call.1@[i].holds(call.0.labels()));
        }
    }
    if carries(labels@, label) {
        assert(labels@[labels@.index_of(label as u32)] == label);
    }
    if exists|i: int| 0 <= i < labels@.len() && #[trigger] labels@[i] == label {
        let i = choose|i: int| 0 <= i < labels@.len() && #[trigger] labels@[i] == label;
        assert(labels@[i] == label as u32);
    }
}

/// Labels that are sorted ascend and are the same, each as often.
pub proof fn law_sorted_labels_ascend(list: &[u32], sorted: Vec<u32>)
    requires
        call_ensures(sort_labels, (list,), sorted),
    ensures
        forall|i: int, j: int| 0 <= i < j < sorted@.len() ==> sorted@[i] <= sorted@[j],
        sorted@.to_multiset() == list@.to_multiset(),
        sorted@.len() == list@.len(),
{
    lemma_sorted_labels(list@);
}

/// The same of the sorted list itself.
pub proof fn law_sorting_labels(list: Seq<u32>)
    ensures
        forall|i: int, j: int|
            0 <= i < j < sorted_labels(list).len() ==> sorted_labels(list)[i] <= sorted_labels(
                list,
            )[j],
        sorted_labels(list).to_multiset() == list.to_multiset(),
{
    lemma_sorted_labels(list);
}

/// An attribute that is encoded gets the place where it stands: that which it has, or the next.
/// What was known stays where it was.
pub proof fn law_encoding_an_attribute(
    encoder: &mut AttributeEncoder,
    attribute: &Attribute,
    id: u64,
)
    requires
        call_ensures(AttributeEncoder::insert, (encoder, attribute), id),
    ensures
        old(encoder)@.contains(attribute.text@) ==> final(encoder)@ == old(encoder)@,
        !old(encoder)@.contains(attribute.text@) ==> final(encoder)@ == old(encoder)@.push(
            attribute.text@,
        ),
        id < final(encoder)@.len(),
        final(encoder)@[id as int] == attribute.text@,
{
    final(encoder).lemma_wf();
    if !old(encoder)@.contains(attribute.text@) {
        assert(final(encoder)@[old(encoder)@.len() as int] == attribute.text@);
    }
    assert(final(encoder)@.contains(attribute@));
    lemma_index_of(final(encoder)@, attribute@);
}

/// An attribute is known exactly where it was encoded, and then by its place.
pub proof fn law_known_attributes(
    encoder: &AttributeEncoder,
    attribute: &Attribute,
    id: Option<u64>,
)
    requires
        encoder.wf(),
        call_ensures(AttributeEncoder::get, (encoder, attribute), id),
    ensures
        id is Some <==> encoder@.contains(attribute.text@),
        id matches Some(id) ==> id < encoder@.len() && encoder@[id as int] == attribute.text@,
{
    encoder.lemma_wf();
    if id is Some {
        lemma_index_of(encoder@, attribute@);
    }
}

/// Attributes are encoded one after the other; each new one gets the next place.
pub proof fn law_attributes_are_encoded_in_order(
    known: Seq<Seq<char>>,
    a: Seq<Seq<char>>,
    b: Seq<Seq<char>>,
    text: Seq<char>,
)
    ensures
        encode_all(known, Seq::<Seq<char>>::empty()) == known,
        encode_all(known, a + b) == encode_all(encode_all(known, a), b),
        encode_all(known, seq![text]) == if known.contains(text) {
            known
        } else {
            known.push(text)
        },
    decreases b.len(),
{
    reveal_with_fuel(encode_all, 2);
    assert(seq![text].drop_last() =~= Seq::<Seq<char>>::empty());
    if b.len() == 0 {
        assert(a + b =~= a);
    } else {
        law_attributes_are_encoded_in_order(known, a, b.drop_last(), text);
        assert((a + b).drop_last() =~= a + b.drop_last());
        assert(encode_all(known, a + b) == encode_one(
            encode_all(known, a + b.drop_last()),
            b.last(),
        ));
    }
}

/// A point matches a filter exactly where it has labels and the filter holds for them.
pub proof fn law_which_points_match(
    store: &RoaringAttributeStore,
    id: u64,
    filter: &EncodedFilterExpr,
    exists_it: bool,
    matches_it: bool,
)
    requires
        call_ensures(RoaringAttributeStore::id_exists, (store, id), exists_it),
        call_ensures(RoaringAttributeStore::matches_filter, (store, id, filter), matches_it),
    ensures
        exists_it <==> store@.forward[id].len() > 0,
        matches_it <==> store@.forward[id].len() > 0 && filter@.holds(store@.forward[id]),
{
}

/// The points of labels are those of one of their posting lists, and their number is the
/// number of these.
pub proof fn law_points_of_labels(
    store: &RoaringAttributeStore,
    label: u64,
    labels: &[u64],
    n: usize,
    union: RoaringTreemap,
    size: usize,
    id: u64,
)
    requires
        call_ensures(RoaringAttributeStore::posting_list_len, (store, label), n),
        call_ensures(RoaringAttributeStore::union_posting_lists, (store, labels), union),
        call_ensures(RoaringAttributeStore::union_len, (store, labels), size),
    ensures
        n == store@.inverse[label].len(),
        ids_of(union).contains(id) <==> exists|i: int|
            0 <= i < labels@.len() && (#[trigger] store@.inverse[labels@[i]]).contains(id),
        size == ids_of(union).len(),
{
}

/// Where the labels of a point are dropped it has none, and it had some exactly where that is
/// told. Other points and all attributes stay.
pub proof fn law_deleting_a_point(
    store: &mut RoaringAttributeStore,
    id: u64,
    deleted: bool,
    other: u64,
    label: u64,
)
    requires
        call_ensures(RoaringAttributeStore::delete, (store, id), deleted),
    ensures
        deleted <==> old(store)@.forward[id].len() > 0,
        final(store)@.forward[id].len() == 0,
        final(store)@.attributes == old(store)@.attributes,
        other != id ==> final(store)@.forward[other] == old(store)@.forward[other],
        other != id ==> (final(store)@.inverse[label].contains(other) <==> old(
            store)@.inverse[label].contains(other)),
        (exists|i: int|
            0 <= i < old(store)@.forward[id].len() && #[trigger] old(store)@.forward[id][i]
                == label) ==> !final(store)@.inverse[label].contains(id),
{
    let labels = old(store)@.forward[id];
    if exists|i: int| 0 <= i < labels.len() && #[trigger] labels[i] == label {
        let i = choose|i: int| 0 <= i < labels.len() && #[trigger] labels[i] == label;
        assert(labels[i] == label as u32);
        assert(carries(labels, label));
    }
}

/// A point that is given attributes has exactly those: it carries the label of an attribute
/// where the attribute is in the list, and is in the posting list of that label. Attributes
/// keep their labels, new ones get the next, and other points stay as they were. Without
/// attributes nothing changes.
pub proof fn law_setting_a_point(
    store: &mut RoaringAttributeStore,
    id: u64,
    attributes: &[Attribute],
    r: Result<bool, StoreError>,
    other: u64,
    label: u64,
)
    requires
        call_ensures(RoaringAttributeStore::set_element, (store, id, attributes), r),
        old(store)@.attributes.no_duplicates(),
        final(store)@.attributes.len() <= 0x1_0000_0000,
    ensures
        r is Ok <==> attributes@.len() > 0,
        r is Err ==> r == Err::<bool, StoreError>(StoreError::NoAttributes) && final(store)@ == old(
            store)@,
        r is Ok ==> {
            &&& r == Ok::<bool, StoreError>(true)
            &&& old(store)@.attributes.is_prefix_of(final(store)@.attributes)
            &&& final(store)@.attributes.no_duplicates()
            &&& final(store)@.forward[id].len() == attributes@.len()
            &&& label < final(store)@.attributes.len() ==> {
                let listed = exists|a: int|
                    0 <= a < attributes@.len() && (#[trigger] attributes@[a]).text@ == final(
                        store)@.attributes[label as int];
                &&& listed <==> exists|i: int|
                    0 <= i < final(store)@.forward[id].len() && #[trigger] final(
                        store)@.forward[id][i] == label
                &&& listed ==> final(store)@.inverse[label].contains(id)
                &&& label >= old(store)@.attributes.len() ==> listed
            }
            &&& other != id ==> final(store)@.forward[other] == old(store)@.forward[other]
            &&& other != id ==> (final(store)@.inverse[label].contains(other) <==> old(
                store)@.inverse[label].contains(other))
        },
{
    if r is Ok {
        let before = old(store)@;
        let list = texts(attributes@);
        let after = before.set_element(id, list);
        let known = after.attributes;
        let labels = ids_of_all(known, list);
        assert(final(store)@ == after);
        lemma_encode_all(before.attributes, list);
        lemma_set_labels(before, id, list);
        lemma_sorted_labels(narrowed(labels));
        if label < known.len() {
            let text = known[label as int];
            assert(known.contains(text));
            lemma_index_of(known, text);
            let carried = after.forward[id];
            if exists|a: int| 0 <= a < attributes@.len() && (#[trigger] attributes@[a]).text@
                == text {
                let a = choose|a: int|
                    0 <= a < attributes@.len() && (#[trigger] attributes@[a]).text@ == text;
                assert(list[a] == text);
                assert(labels[a] == label);
                assert(labels.contains(label));
                assert(carries(carried, label));
                assert(carried[carried.index_of(label as u32)] == label);
            }
            if exists|i: int| 0 <= i < carried.len() && #[trigger] carried[i] == label {
                let i = choose|i: int| 0 <= i < carried.len() && #[trigger] carried[i] == label;
                assert(carried[i] == label as u32);
                assert(carries(carried, label));
                assert(labels.contains(label));
                let a = labels.index_of(label);
                assert(known.contains(list[a]));
                lemma_index_of(known, list[a]);
                assert(attributes@[a].text@ == text);
            }
            if label >= before.attributes.len() {
                lemma_new_is_listed(before.attributes, list, label as int);
                let a = list.index_of(text);
                assert(attributes@[a].text@ == text);
            }
        }
    }
}

/// It is in no posting list of an attribute that is not in the list, where its old labels are
/// those of the posting lists that it was in.
pub proof fn law_setting_a_point_takes_it_out_of_other_lists(
    store: &mut RoaringAttributeStore,
    id: u64,
    attributes: &[Attribute],
    label: u64,
)
    requires
        call_ensures(
            RoaringAttributeStore::set_element,
            (store, id, attributes),
            Ok::<bool, StoreError>(true),
        ),
        old(store)@.attributes.no_duplicates(),
        final(store)@.attributes.len() <= 0x1_0000_0000,
        label < final(store)@.attributes.len(),
        old(store)@.inverse[label].contains(id) <==> exists|i: int|
            0 <= i < old(store)@.forward[id].len() && #[trigger] old(store)@.forward[id][i]
                == label,
    ensures
        final(store)@.inverse[label].contains(id) <==> exists|a: int|
            0 <= a < attributes@.len() && (#[trigger] attributes@[a]).text@ == final(
                store)@.attributes[label as int],
{
    law_setting_a_point(store, id, attributes, Ok(true), id, label);
    let before = old(store)@;
    let list = texts(attributes@);
    let after = before.set_element(id, list);
    let known = after.attributes;
    let labels = ids_of_all(known, list);
    assert(final(store)@ == after);
    lemma_encode_all(before.attributes, list);
    let text = known[label as int];
    assert(known.contains(text));
    lemma_index_of(known, text);
    let old_labels = before.forward[id];
    if carries(old_labels, label) {
        assert(old_labels[old_labels.index_of(label as u32)] == label);
    }
    if exists|i: int| 0 <= i < old_labels.len() && #[trigger] old_labels[i] == label {
        let i = choose|i: int| 0 <= i < old_labels.len() && #[trigger] old_labels[i] == label;
        assert(old_labels[i] == label as u32);
    }
    if after.inverse[label].contains(id) {
        assert(labels.contains(label));
        let a = labels.index_of(label);
        assert(known.contains(list[a]));
        lemma_index_of(known, list[a]);
        assert(attributes@[a].text@ == text);
    }
}

/// The two indexes of a store agree where a point is in the posting list of a label exactly
/// where it has the label.
pub proof fn law_when_indexes_agree(store: StoreView)
    ensures
        store.consistent() <==> forall|label: u64, id: u64|
            #![trigger store.inverse[label].contains(id)]
            store.inverse[label].contains(id) <==> exists|i: int|
                0 <= i < store.forward[id].len() && #[trigger] store.forward[id][i] == label,
{
    assert forall|label: u64, id: u64| #[trigger] carries(store.forward[id], label) <==> exists|
        i: int,
    | 0 <= i < store.forward[id].len() && #[trigger] store.forward[id][i] == label by {
        let labels = store.forward[id];
        if carries(labels, label) {
            assert(labels[labels.index_of(label as u32)] == label);
        }
        if exists|i: int| 0 <= i < labels.len() && #[trigger] labels[i] == label {
            let i = choose|i: int| 0 <= i < labels.len() && #[trigger] labels[i] == label;
            assert(labels[i] == label as u32);
        }
    }
    if forall|label: u64, id: u64|
        #![trigger store.inverse[label].contains(id)]
        store.inverse[label].contains(id) <==> exists|i: int|
            0 <= i < store.forward[id].len() && #[trigger] store.forward[id][i] == label {
        assert forall|label: u64, id: u64|
            #![trigger store.inverse[label].contains(id)]
            #![trigger carries(store.forward[id], label)]
            store.inverse[label].contains(id) <==> carries(store.forward[id], label) by {
            assert(store.inverse[label].contains(id) == store.inverse[label].contains(id));
        }
    }
}

/// Labels can be looked up in any list of up to 32, and in any that ascends.
pub proof fn law_which_lists_can_be_searched(evaluator: SlicePredicateEvaluator)
    ensures
        evaluator.labels().len() <= 32 ==> evaluator.searchable(),
        (forall|i: int, j: int|
            0 <= i < j < evaluator.labels().len() ==> evaluator.labels()[i]
                <= evaluator.labels()[j]) ==> evaluator.searchable(),
{
}

/// What is new is empty.
pub proof fn law_new_stores_are_empty(
    store: RoaringAttributeStore,
    encoder: AttributeEncoder,
    label: u64,
    id: u64,
)
    requires
        call_ensures(RoaringAttributeStore::new, (), store),
        call_ensures(AttributeEncoder::new, (), encoder),
    ensures
        store@.attributes.len() == 0,
        store@.forward[id].len() == 0,
        !store@.inverse[label].contains(id),
        encoder@.len() == 0,
{
}

/// What became known was in the list.
proof fn lemma_new_is_listed(known: Seq<Seq<char>>, list: Seq<Seq<char>>, i: int)
    requires
        known.len() <= i < encode_all(known, list).len(),
    ensures
        list.contains(encode_all(known, list)[i]),
    decreases list.len(),
{
    if list.len() > 0 {
        let rest = list.drop_last();
        let before = encode_all(known, rest);
        if i < before.len() {
            lemma_new_is_listed(known, rest, i);
            let j = rest.index_of(before[i]);
            assert(list[j] == before[i]);
        } else {
            assert(list[list.len() - 1] == encode_all(known, list)[i]);
        }
    }
}

/// A later document replaces an earlier one of the same id, unless it has no labels, and
/// leaves all others alone.
pub proof fn law_later_documents_replace_earlier_ones(
    docs: Seq<(u64, Seq<u64>)>,
    id: u64,
    labels: Seq<u64>,
    other: u64,
    label: u64,
)
    requires
        forall|i: int| 0 <= i < labels.len() ==> #[trigger] labels[i] <= 0xffff_ffff,
    ensures
        loaded_forward(Seq::empty())[other].len() == 0,
        other != id || labels.len() == 0 ==> loaded_forward(docs.push((id, labels)))[other]
            == loaded_forward(docs)[other],
        labels.len() > 0 ==> {
            let after = loaded_forward(docs.push((id, labels)))[id];
            &&& after.len() == labels.len()
            &&& labels.contains(label) <==> exists|i: int|
                0 <= i < after.len() && #[trigger] after[i] == label
        },
{
    let all = docs.push((id, labels));
    assert(all.drop_last() =~= docs);
    lemma_narrowed(labels);
    lemma_sorted_labels(narrowed(labels));
    let after = loaded_forward(all)[id];
    if labels.len() > 0 {
        if labels.contains(label) {
            assert(carries(after, label));
            assert(after[after.index_of(label as u32)] == label);
        }
        if exists|i: int| 0 <= i < after.len() && #[trigger] after[i] == label {
            let i = choose|i: int| 0 <= i < after.len() && #[trigger] after[i] == label;
            assert(after[i] == label as u32);
            assert(carries(after, label));
        }
    }
}

/// A point keeps of each label the lower 32 bits, as often as the label is given.
pub proof fn law_labels_are_kept_by_their_lower_bits(
    store: StoreView,
    docs: Seq<(u64, Seq<u64>)>,
    id: u64,
    labels: Seq<u64>,
    list: Seq<Seq<char>>,
)
    requires
        labels.len() > 0,
    ensures
        loaded_forward(docs.push((id, labels)))[id].to_multiset() == Seq::new(
            labels.len(),
            |i: int| (labels[i] % 0x1_0000_0000) as u32,
        ).to_multiset(),
        store.set_element(id, list).forward[id].to_multiset() == Seq::new(
            list.len(),
            |i: int|
                (id_of(encode_all(store.attributes, list), list[i]) % 0x1_0000_0000) as u32,
        ).to_multiset(),
{
    let all = docs.push((id, labels));
    assert(all.drop_last() =~= docs);
    let given = ids_of_all(encode_all(store.attributes, list), list);
    lemma_sorted_labels(narrowed(labels));
    lemma_sorted_labels(narrowed(given));
    assert forall|x: u64| #[trigger] (x as u32) == (x % 0x1_0000_0000) as u32 by {
        assert((x as u32) == (x % 0x1_0000_0000) as u32) by (bit_vector);
    }
    assert(narrowed(labels) =~= Seq::new(
        labels.len(),
        |i: int| (labels[i] % 0x1_0000_0000) as u32,
    ));
    assert(narrowed(given) =~= Seq::new(
        list.len(),
        |i: int| (id_of(encode_all(store.attributes, list), list[i]) % 0x1_0000_0000) as u32,
    ));
}

/// The documents of a label are told in their order, each as often as it lists the label.
pub proof fn law_documents_of_a_label(
    a: Seq<(u64, Seq<u64>)>,
    b: Seq<(u64, Seq<u64>)>,
    id: u64,
    labels: Seq<u64>,
    label: u64,
)
    ensures
        bucket(a + b, label) == bucket(a, label) + bucket(b, label),
        bucket(seq![(id, labels)], label) == Seq::new(
            labels.filter(|l: u64| l == label).len(),
            |i: int| id,
        ),
        forall|other: u64| #[trigger]
            bucket(a, label).contains(other) <==> exists|i: int|
                0 <= i < a.len() && (#[trigger] a[i]).0 == other && a[i].1.contains(label),
    decreases b.len(),
{
    assert forall|other: u64| #[trigger] bucket(a, label).contains(other) <==> exists|i: int|
        0 <= i < a.len() && (#[trigger] a[i]).0 == other && a[i].1.contains(label) by {
        lemma_bucket_members(a, label, other);
    }
    reveal_with_fuel(bucket, 2);
    let one = seq![(id, labels)];
    assert(one.drop_last() =~= Seq::<(u64, Seq<u64>)>::empty());
    lemma_occurrences_count(id, labels, label);
    assert(bucket(one, label) =~= occurrences(id, labels, label));
    if b.len() == 0 {
        assert(a + b =~= a);
        assert(bucket(a, label) + Seq::<u64>::empty() =~= bucket(a, label));
    } else {
        law_documents_of_a_label(a, b.drop_last(), id, labels, label);
        assert((a + b).drop_last() =~= a + b.drop_last());
        let last = occurrences(b.last().0, b.last().1, label);
        assert(bucket(a, label) + bucket(b.drop_last(), label) + last =~= bucket(a, label) + (
        bucket(b.drop_last(), label) + last));
    }
}

proof fn lemma_occurrences_count(id: u64, labels: Seq<u64>, label: u64)
    ensures
        occurrences(id, labels, label) == Seq::new(
            labels.filter(|l: u64| l == label).len(),
            |i: int| id,
        ),
    decreases labels.len(),
{
    let same = |l: u64| l == label;
    reveal(Seq::filter);
    if labels.len() > 0 {
        let rest = labels.drop_last();
        lemma_occurrences_count(id, rest, label);
        assert(rest.push(labels.last()) =~= labels);
        rest.lemma_filter_push(labels.last(), same);
    }
    assert(occurrences(id, labels, label) =~= Seq::new(labels.filter(same).len(), |i: int| id));
}

/// A load succeeds exactly where the documents of every label come in strictly ascending
/// order; it leaves each point with its labels and each label with its points. Where it
/// fails, it names the first label for which they do not, has the points of the labels before
/// it, and tells how many documents of that label came in order.
pub proof fn law_bulk_load(
    store: &mut RoaringAttributeStore,
    strings: &[Attribute],
    docs: Vec<(u64, Vec<u64>)>,
    r: Result<(), StoreError>,
    label: u64,
    id: u64,
)
    requires
        call_ensures(RoaringAttributeStore::bulk_insert_encoded, (store, strings, docs), r),
    ensures
        ({
            let list = documents(docs@);
            &&& r is Ok <==> forall|l: u64, i: int, j: int|
                l < strings@.len() && 0 <= i < j < bucket(list, l).len() ==> (#[trigger] bucket(
                    list,
                    l,
                )[i]) < (#[trigger] bucket(list, l)[j])
            &&& final(store)@.attributes.len() == strings@.len()
            &&& final(store)@.forward == loaded_forward(list)
            &&& r is Ok && label < strings@.len() ==> (final(store)@.inverse[label].contains(id)
                <==> exists|i: int|
                0 <= i < docs@.len() && (#[trigger] docs@[i]).0 == id && docs@[i].1@.contains(
                    label,
                ))
            &&& r matches Err(error) ==> {
                &&& error matches StoreError::UnsortedPostings { label: first, valid_until }
                &&& first < strings@.len()
                &&& 0 < valid_until < bucket(list, first).len()
                &&& bucket(list, first)[valid_until as int] <= bucket(list, first)[valid_until - 1]
                &&& forall|i: int, j: int|
                    0 <= i < j < valid_until ==> bucket(list, first)[i] < bucket(list, first)[j]
                &&& label < first ==> (final(store)@.inverse[label].contains(id) <==> bucket(
                    list,
                    label,
                ).contains(id))
                &&& label >= first ==> !final(store)@.inverse[label].contains(id)
            }
        }),
{
    let list = documents(docs@);
    lemma_bucket_members(list, label, id);
    match r {
        Ok(_) => {
            assert forall|l: u64, i: int, j: int|
                l < strings@.len() && 0 <= i < j < bucket(list, l).len() implies (
            #[trigger] bucket(list, l)[i]) < (#[trigger] bucket(list, l)[j]) by {
                assert(crate::treemap::strictly_ascending(bucket(list, l)));
            }
            if label < strings@.len() {
                let postings = bucket(list, label);
                assert(final(store)@.inverse[label] == postings.to_set());
                assert(postings.to_set().contains(id) <==> postings.contains(id));
                if postings.contains(id) {
                    let i = choose|i: int|
                        0 <= i < list.len() && (#[trigger] list[i]).0 == id && list[i].1.contains(
                            label,
                        );
                    assert(docs@[i].0 == id);
                }
                if exists|i: int|
                    0 <= i < docs@.len() && (#[trigger] docs@[i]).0 == id && docs@[i].1@.contains(
                        label,
                    ) {
                    let i = choose|i: int|
                        0 <= i < docs@.len() && (#[trigger] docs@[i]).0 == id
                            && docs@[i].1@.contains(label);
                    assert(list[i].0 == id);
                }
            }
        },
        Err(error) => {
            if let StoreError::UnsortedPostings { label: first, valid_until } = error {
                let postings = bucket(list, first);
                let n = valid_until as int;
                assert(postings[n] <= postings[n - 1]);
                assert forall|i: int, j: int| 0 <= i < j < n implies postings[i] < postings[j] by {
                    assert(postings.take(n)[i] < postings.take(n)[j]);
                }
                assert(bucket(list, label).to_set().contains(id) <==> bucket(
                    list,
                    label,
                ).contains(id));
            }
        },
    }
}

/// The documents of a load have their ids and their labels.
pub proof fn law_documents_of_a_load(docs: Seq<(u64, Vec<u64>)>, i: int)
    requires
        0 <= i < docs.len(),
    ensures
        documents(docs).len() == docs.len(),
        documents(docs)[i].0 == docs[i].0,
        documents(docs)[i].1 == docs[i].1@,
{
}

/// There is room for a point exactly where the slots up to its own, of 24 bytes each, fit into
/// half of the address space.
pub proof fn law_which_points_have_room(id: u64, r: bool)
    requires
        call_ensures(is_addressable, (id,), r),
    ensures
        r <==> 24 * id + 24 <= isize::MAX,
        addressable(id) <==> 24 * id + 24 <= isize::MAX,
{
}

/// In a loaded store the points of a label below those that are installed are the documents
/// that list it.
pub proof fn law_points_of_a_loaded_label(
    attributes: Seq<Seq<char>>,
    docs: Seq<(u64, Seq<u64>)>,
    installed: int,
    label: u64,
    id: u64,
)
    ensures
        StoreView::loaded(attributes, docs, installed).inverse[label].contains(id) <==> label
            < installed && exists|i: int|
            0 <= i < docs.len() && (#[trigger] docs[i]).0 == id && docs[i].1.contains(label),
        StoreView::loaded(attributes, docs, installed).attributes == attributes,
        StoreView::loaded(attributes, docs, installed).forward == loaded_forward(docs),
{
    lemma_bucket_members(docs, label, id);
    let postings = bucket(docs, label);
    assert(postings.to_set().contains(id) <==> postings.contains(id));
    assert(StoreView::loaded(attributes, docs, installed).inverse == loaded_inverse(
        docs,
        installed,
    ));
}

/// The label of an attribute is the place of its text.
pub proof fn law_label_of_an_attribute(known: Seq<Seq<char>>, text: Seq<char>)
    requires
        known.no_duplicates(),
        known.contains(text),
        known.len() <= u64::MAX,
    ensures
        id_of(known, text) < known.len(),
        known[id_of(known, text) as int] == text,
{
    let i = known.index_of(text);
    assert(known[i] == text);
}

} // verus!
