use label_filter::attribute::{Attribute, AttributeEncoder};
use label_filter::filter_expr::{ASTIdExpr, EncodedFilterExpr};
use label_filter::provider::RoaringTreemapSetProvider;
use label_filter::store::{is_addressable, RoaringAttributeStore, StoreError};
use roaring::RoaringTreemap;

fn attribute(text: &str) -> Attribute {
    Attribute { text: text.to_string() }
}

fn attributes(texts: &[&str]) -> Vec<Attribute> {
    texts.iter().map(|text| attribute(text)).collect()
}

fn terminal(label: u64) -> EncodedFilterExpr {
    EncodedFilterExpr::new(ASTIdExpr::Terminal(label))
}

fn points(map: &RoaringTreemap) -> Vec<u64> {
    map.iter().collect()
}

#[test]
fn encoder_numbers_attributes_in_order_of_arrival() {
    let mut encoder = AttributeEncoder::new();
    assert_eq!(encoder.insert(&attribute("red")), 0);
    assert_eq!(encoder.insert(&attribute("blue")), 1);
    assert_eq!(encoder.insert(&attribute("red")), 0);
    assert_eq!(encoder.len(), 2);
    assert_eq!(encoder.get(&attribute("blue")), Some(1));
    assert_eq!(encoder.get(&attribute("green")), None);
}

#[test]
fn provider_files_sets_under_keys() {
    let mut provider = RoaringTreemapSetProvider::new();
    assert!(provider.get(3).is_none());
    assert!(provider.insert(3, 70_000_000_000));
    assert!(!provider.insert(3, 70_000_000_000));
    assert!(provider.insert(3, 5));
    assert_eq!(points(provider.get(3).unwrap()), vec![5, 70_000_000_000]);
    assert!(provider.delete_from_set(3, 5));
    assert!(!provider.delete_from_set(3, 5));
    assert!(!provider.delete_from_set(4, 5));
    assert_eq!(points(provider.get(3).unwrap()), vec![70_000_000_000]);
    let mut set = RoaringTreemap::new();
    set.insert(1);
    provider.install_for_key(3, set);
    assert_eq!(points(provider.get(3).unwrap()), vec![1]);
}

#[test]
fn new_store_is_empty() {
    let store = RoaringAttributeStore::new();
    assert!(!store.id_exists(0));
    assert_eq!(store.posting_list_len(0), 0);
    assert!(points(&store.union_posting_lists(&[0, 1])).is_empty());
    assert_eq!(store.attribute_map().len(), 0);
}

#[test]
fn set_then_read() {
    let mut store = RoaringAttributeStore::new();
    assert_eq!(store.set_element(7, &attributes(&["a", "b"])), Ok(true));
    assert!(store.id_exists(7));
    assert!(!store.id_exists(6));
    assert!(!store.id_exists(8));
    assert!(store.matches_filter(7, &terminal(0)));
    assert!(store.matches_filter(7, &terminal(1)));
    assert!(!store.matches_filter(7, &terminal(2)));
    assert_eq!(store.posting_list_len(0), 1);
    assert_eq!(points(&store.union_posting_lists(&[1])), vec![7]);
}

#[test]
fn set_again_replaces() {
    let mut store = RoaringAttributeStore::new();
    assert_eq!(store.set_element(2, &attributes(&["a", "b"])), Ok(true));
    assert_eq!(store.set_element(2, &attributes(&["b", "c"])), Ok(true));
    assert!(!store.matches_filter(2, &terminal(0)));
    assert!(store.matches_filter(2, &terminal(1)));
    assert!(store.matches_filter(2, &terminal(2)));
    assert_eq!(store.posting_list_len(0), 0);
    assert_eq!(store.posting_list_len(1), 1);
    assert_eq!(store.posting_list_len(2), 1);
    assert_eq!(store.attribute_map().len(), 3);
}

#[test]
fn a_repeated_attribute_counts_once_in_its_posting_list() {
    let mut store = RoaringAttributeStore::new();
    assert_eq!(store.set_element(1, &attributes(&["a", "a"])), Ok(true));
    assert_eq!(store.posting_list_len(0), 1);
    assert!(store.delete(1));
    assert_eq!(store.posting_list_len(0), 0);
}

#[test]
fn a_point_without_attributes_is_refused() {
    let mut store = RoaringAttributeStore::new();
    assert_eq!(store.set_element(1, &attributes(&["a"])), Ok(true));
    assert_eq!(store.set_element(1, &[]), Err(StoreError::NoAttributes));
    assert!(store.matches_filter(1, &terminal(0)));
}

#[test]
fn delete_then_read() {
    let mut store = RoaringAttributeStore::new();
    assert_eq!(store.set_element(1, &attributes(&["a"])), Ok(true));
    assert_eq!(store.set_element(4, &attributes(&["a", "b"])), Ok(true));
    assert!(store.delete(4));
    assert!(!store.delete(4));
    assert!(!store.delete(99));
    assert!(!store.id_exists(4));
    assert!(store.id_exists(1));
    assert_eq!(store.posting_list_len(0), 1);
    assert_eq!(store.posting_list_len(1), 0);
    assert!(!store.matches_filter(4, &EncodedFilterExpr::new(ASTIdExpr::And(vec![]))));
    assert!(store.matches_filter(1, &EncodedFilterExpr::new(ASTIdExpr::And(vec![]))));
}

#[test]
fn delete_undoes_set() {
    let mut store = RoaringAttributeStore::new();
    assert_eq!(store.set_element(3, &attributes(&["a"])), Ok(true));
    assert_eq!(store.set_element(5, &attributes(&["a", "b"])), Ok(true));
    assert!(store.delete(5));
    assert_eq!(points(&store.union_posting_lists(&[0, 1])), vec![3]);
    assert!(!store.id_exists(5));
}

#[test]
fn filters_combine_labels() {
    let mut store = RoaringAttributeStore::new();
    assert_eq!(store.set_element(0, &attributes(&["a", "b"])), Ok(true));
    let and = ASTIdExpr::And(vec![ASTIdExpr::Terminal(0), ASTIdExpr::Terminal(1)]);
    assert!(store.matches_filter(0, &EncodedFilterExpr::new(and)));
    let and = ASTIdExpr::And(vec![ASTIdExpr::Terminal(0), ASTIdExpr::Terminal(2)]);
    assert!(!store.matches_filter(0, &EncodedFilterExpr::new(and)));
    let or = ASTIdExpr::Or(vec![ASTIdExpr::Terminal(2), ASTIdExpr::Terminal(1)]);
    assert!(store.matches_filter(0, &EncodedFilterExpr::new(or)));
    assert!(!store.matches_filter(0, &EncodedFilterExpr::new(ASTIdExpr::Or(vec![]))));
    let not = ASTIdExpr::Not(Box::new(ASTIdExpr::Terminal(2)));
    assert!(store.matches_filter(0, &EncodedFilterExpr::new(not)));
    let not = ASTIdExpr::Not(Box::new(ASTIdExpr::Terminal(0)));
    assert!(!store.matches_filter(0, &EncodedFilterExpr::new(not)));
    assert!(!store.matches_filter(0, &terminal(1 << 32)));
    assert!(!store.matches_filter(1, &terminal(0)));
}

#[test]
fn many_labels_on_one_point() {
    let mut store = RoaringAttributeStore::new();
    let texts: Vec<String> = (0..50).map(|i| format!("label {}", i)).collect();
    let reversed: Vec<&str> = texts.iter().rev().map(|text| text.as_str()).collect();
    assert_eq!(store.set_element(9, &attributes(&reversed)), Ok(true));
    for label in 0..50 {
        assert!(store.matches_filter(9, &terminal(label)));
    }
    assert!(!store.matches_filter(9, &terminal(50)));
}

#[test]
fn bulk_load_fills_both_indexes() {
    let mut store = RoaringAttributeStore::new();
    let docs = vec![(0, vec![1, 0]), (1, vec![]), (3, vec![1]), (8, vec![2, 1])];
    assert_eq!(store.bulk_insert_encoded(&attributes(&["a", "b", "c", "d"]), docs), Ok(()));
    assert!(store.id_exists(0));
    assert!(!store.id_exists(1));
    assert!(!store.id_exists(2));
    assert_eq!(points(&store.union_posting_lists(&[1])), vec![0, 3, 8]);
    assert_eq!(points(&store.union_posting_lists(&[0, 2])), vec![0, 8]);
    assert_eq!(store.posting_list_len(3), 0);
    assert!(store.matches_filter(8, &terminal(2)));
    assert_eq!(store.attribute_map().get(&attribute("c")), Some(2));
}

#[test]
fn bulk_load_stops_at_documents_out_of_order() {
    let mut store = RoaringAttributeStore::new();
    let docs = vec![(1, vec![0, 1]), (3, vec![1]), (2, vec![1, 2])];
    assert_eq!(
        store.bulk_insert_encoded(&attributes(&["a", "b", "c"]), docs),
        Err(StoreError::UnsortedPostings { label: 1, valid_until: 2 })
    );
    assert_eq!(store.posting_list_len(0), 1);
    assert_eq!(store.posting_list_len(1), 0);
    assert_eq!(store.posting_list_len(2), 0);
    assert!(store.id_exists(2));
}

#[test]
fn bulk_load_refuses_a_label_twice_in_a_document() {
    let mut store = RoaringAttributeStore::new();
    assert_eq!(
        store.bulk_insert_encoded(&attributes(&["a"]), vec![(4, vec![0, 0])]),
        Err(StoreError::UnsortedPostings { label: 0, valid_until: 1 })
    );
}

#[test]
fn updates_follow_a_bulk_load() {
    let mut store = RoaringAttributeStore::new();
    let docs = vec![(0, vec![0]), (1, vec![0, 1])];
    assert_eq!(store.bulk_insert_encoded(&attributes(&["a", "b"]), docs), Ok(()));
    assert_eq!(store.set_element(0, &attributes(&["b", "z"])), Ok(true));
    assert_eq!(points(&store.union_posting_lists(&[0])), vec![1]);
    assert_eq!(points(&store.union_posting_lists(&[1])), vec![0, 1]);
    assert_eq!(points(&store.union_posting_lists(&[2])), vec![0]);
    assert!(store.delete(1));
    assert_eq!(store.posting_list_len(0), 0);
}

#[test]
fn addressable_ids() {
    assert!(is_addressable(0));
    assert!(is_addressable(1_000_000_000));
    assert!(!is_addressable(u64::MAX));
    assert!(!is_addressable(u64::MAX / 2));
}

#[test]
fn a_bulk_load_ignores_the_order_of_labels() {
    let strings = attributes(&["a", "b", "c"]);
    let mut one = RoaringAttributeStore::new();
    let mut two = RoaringAttributeStore::new();
    assert_eq!(
        one.bulk_insert_encoded(&strings, vec![(1, vec![0, 1, 2]), (2, vec![]), (5, vec![2])]),
        Ok(())
    );
    assert_eq!(
        two.bulk_insert_encoded(&strings, vec![(1, vec![2, 0, 1]), (5, vec![2]), (9, vec![])]),
        Ok(())
    );
    for id in 0..10 {
        assert_eq!(one.id_exists(id), two.id_exists(id));
    }
    for label in 0..3 {
        assert_eq!(
            points(&one.union_posting_lists(&[label])),
            points(&two.union_posting_lists(&[label]))
        );
    }
}

#[test]
fn a_bulk_load_answers_as_setting_one_by_one() {
    let texts = ["a", "b", "c"];
    let docs = vec![(1, vec![2, 0]), (4, vec![1]), (6, vec![0, 2])];
    let mut loaded = RoaringAttributeStore::new();
    let mut set = RoaringAttributeStore::new();
    for (id, labels) in &docs {
        let list: Vec<&str> = labels.iter().map(|label| texts[*label as usize]).collect();
        assert_eq!(set.set_element(*id, &attributes(&list)), Ok(true));
    }
    assert_eq!(loaded.bulk_insert_encoded(&attributes(&texts), docs), Ok(()));
    for id in 0..8 {
        assert_eq!(loaded.id_exists(id), set.id_exists(id));
    }
    for text in texts {
        let here = loaded.attribute_map().get(&attribute(text)).unwrap();
        let there = set.attribute_map().get(&attribute(text)).unwrap();
        assert_eq!(
            points(&loaded.union_posting_lists(&[here])),
            points(&set.union_posting_lists(&[there]))
        );
    }
}

#[test]
fn setting_again_changes_nothing() {
    let mut store = RoaringAttributeStore::new();
    assert_eq!(store.set_element(3, &attributes(&["z"])), Ok(true));
    assert_eq!(store.set_element(2, &attributes(&["a", "b", "z"])), Ok(true));
    assert_eq!(store.set_element(2, &attributes(&["z", "a", "b"])), Ok(true));
    assert_eq!(points(&store.union_posting_lists(&[0])), vec![2, 3]);
    assert_eq!(points(&store.union_posting_lists(&[1])), vec![2]);
    assert_eq!(points(&store.union_posting_lists(&[2])), vec![2]);
    assert_eq!(store.attribute_map().len(), 3);
}
