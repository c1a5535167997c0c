//! What was put into a container is what it gives back.
use roaring::RoaringTreemap;
use vstd::prelude::*;

use crate::attribute::AttributeEncoder;
use crate::evaluator::SlicePredicateEvaluator;
use crate::field_index::FieldIndex;
use crate::filter_expr::{ASTIdExpr, EncodedFilterExpr};
use crate::inline_labels::LabelTable;
use crate::labels::LabelField;
use crate::provider::RoaringTreemapSetProvider;
use crate::search::SearchPass;
use crate::store::RoaringAttributeStore;
use crate::treemap::ids_of;
use crate::value_table::ValueTable;
use crate::values::{LabelValue, ValueView};

verus! {

/// An encoded filter is the expression that it was made of, and an evaluator has the labels
/// that it was made of.
pub proof fn law_filters_and_evaluators_keep_what_they_get(
    expr: ASTIdExpr,
    filter: EncodedFilterExpr,
    back: &ASTIdExpr,
    labels: &[u32],
    evaluator: SlicePredicateEvaluator,
)
    requires
        call_ensures(EncodedFilterExpr::new, (expr,), filter),
        call_ensures(EncodedFilterExpr::encoded_filter_expr, (&filter,), back),
        call_ensures(SlicePredicateEvaluator::new, (labels,), evaluator),
    ensures
        *back == expr,
        filter@ == expr,
        evaluator.labels() == labels@,
{
}

/// A value that is put into a table is there, once, and at the place that is told; others keep
/// their places.
pub proof fn law_values_have_places(
    table: &mut ValueTable,
    value: &LabelValue,
    place: usize,
    fresh: ValueTable,
)
    requires
        call_ensures(ValueTable::insert, (table, value), place),
        call_ensures(ValueTable::new, (), fresh),
    ensures
        fresh@.len() == 0,
        old(table)@.contains(value@) ==> final(table)@ == old(table)@,
        !old(table)@.contains(value@) ==> final(table)@ == old(table)@.push(value@),
        place < final(table)@.len(),
        final(table)@[place as int] == value@,
{
}

/// A value is found exactly where it was put in, and a place gives the value back.
pub proof fn law_values_are_found(
    table: &ValueTable,
    value: &LabelValue,
    place: Option<usize>,
    n: usize,
    at: usize,
    back: &LabelValue,
)
    requires
        call_ensures(ValueTable::place_of, (table, value), place),
        call_ensures(ValueTable::len, (table,), n),
        call_ensures(ValueTable::get, (table, at), back),
    ensures
        place is Some <==> table@.contains(value@),
        place matches Some(i) ==> i < table@.len() && table@[i as int] == value@,
        n == table@.len(),
        back@ == table@[at as int],
{
    if let Some(i) = place {
        assert(table@[i as int] == value@);
    }
}

/// A label table has as many labels as fields are known, and a label gives its field back.
pub proof fn law_labels_give_fields_back(
    table: &LabelTable,
    fresh: LabelTable,
    n: usize,
    label: usize,
    field: &LabelField,
)
    requires
        call_ensures(LabelTable::new, (), fresh),
        call_ensures(LabelTable::len, (table,), n),
        call_ensures(LabelTable::get, (table, label), field),
    ensures
        fresh@.len() == 0,
        n == table@.len(),
        field.name@ == table@[label as int].0,
        field.value@ == table@[label as int].1,
{
}

/// A field without documents has none, and a run tells how many queries it brute-forced.
pub proof fn law_counts_and_new_lists(
    fresh: FieldIndex,
    entry: (ValueView, usize),
    pass: &SearchPass,
    n: usize,
    encoder: &AttributeEncoder,
    known: usize,
    store: &RoaringAttributeStore,
    map: &AttributeEncoder,
)
    requires
        call_ensures(FieldIndex::new, (), fresh),
        call_ensures(SearchPass::brute_forced, (pass,), n),
        call_ensures(AttributeEncoder::len, (encoder,), known),
        call_ensures(RoaringAttributeStore::attribute_map, (store,), map),
    ensures
        !fresh@.contains(entry),
        n == pass@.brute_forced,
        known == encoder@.len(),
        map@ == store@.attributes,
{
}

/// An id that is filed under a key is there, and was not before exactly where that is told;
/// nothing else changes.
pub proof fn law_filing_an_id(
    provider: &mut RoaringTreemapSetProvider,
    key: u64,
    id: u64,
    added: bool,
    other_key: u64,
    other: u64,
)
    requires
        call_ensures(RoaringTreemapSetProvider::insert, (provider, key, id), added),
    ensures
        added <==> !old(provider)@[key].contains(id),
        final(provider)@[other_key].contains(other) <==> old(provider)@[other_key].contains(other)
            || (other_key == key && other == id),
{
    old(provider).lemma_total();
    final(provider).lemma_total();
    assert(old(provider)@.contains_key(key) && old(provider)@.contains_key(other_key));
}

/// An id that is taken out is gone, and was there exactly where that is told; nothing else
/// changes.
pub proof fn law_taking_an_id_out(
    provider: &mut RoaringTreemapSetProvider,
    key: u64,
    id: u64,
    removed: bool,
    other_key: u64,
    other: u64,
)
    requires
        call_ensures(RoaringTreemapSetProvider::delete_from_set, (provider, key, id), removed),
    ensures
        removed <==> old(provider)@[key].contains(id),
        final(provider)@[other_key].contains(other) <==> old(provider)@[other_key].contains(other)
            && !(other_key == key && other == id),
{
    old(provider).lemma_total();
    final(provider).lemma_total();
    assert(old(provider)@.contains_key(key) && old(provider)@.contains_key(other_key));
}

/// A set that is installed under a key is what stands there; other keys keep theirs.
pub proof fn law_installing_a_set(
    provider: &mut RoaringTreemapSetProvider,
    key: u64,
    set: RoaringTreemap,
    other_key: u64,
)
    requires
        call_ensures(RoaringTreemapSetProvider::install_for_key, (provider, key, set), ()),
    ensures
        final(provider)@[key] == ids_of(set),
        other_key != key ==> final(provider)@[other_key] == old(provider)@[other_key],
{
    old(provider).lemma_total();
    assert(old(provider)@.contains_key(key) && old(provider)@.contains_key(other_key));
}

/// What stands under a key is what is found there, and where nothing is found nothing stands.
pub proof fn law_finding_a_set(
    provider: &RoaringTreemapSetProvider,
    key: u64,
    set: Option<&RoaringTreemap>,
    fresh: RoaringTreemapSetProvider,
    id: u64,
)
    requires
        call_ensures(RoaringTreemapSetProvider::get, (provider, key), set),
        call_ensures(RoaringTreemapSetProvider::new, (), fresh),
    ensures
        set matches Some(set) ==> ids_of(*set) == provider@[key],
        set is None ==> !provider@[key].contains(id),
        !fresh@[key].contains(id),
{
}

} // verus!
