use label_filter::ast::ASTExpr;
use label_filter::attribute::Attribute;
use label_filter::filter_expr::EncodedFilterExpr;
use label_filter::inline_labels::LabelTable;
use label_filter::labels::{compute_filter_bitmaps, read_document, InvertedIndex, LabelField};
use label_filter::routing::{analyze_and_of_ors, route_inline, Route};
use label_filter::search::FilterStrategy;
use label_filter::store::RoaringAttributeStore;
use label_filter::value_table::ValueTable;
use label_filter::values::{CompareOp, LabelValue};

fn text(value: &str) -> LabelValue {
    LabelValue::Text(value.to_string())
}

fn field(name: &str, value: LabelValue) -> LabelField {
    LabelField { name: name.to_string(), value }
}

fn compare(name: &str, op: CompareOp) -> ASTExpr {
    ASTExpr::Compare { field: name.to_string(), op }
}

const LINES: [&str; 4] = [
    "{\"doc_id\": 0, \"year\": 2010, \"camera\": \"Panasonic\"}",
    "{\"doc_id\": 1, \"year\": 2011, \"camera\": \"Canon\"}",
    "{\"doc_id\": 2, \"year\": 2011, \"camera\": \"Canon\", \"specs\": {\"cpu\": \"i7\"}}",
    "{\"doc_id\": 3, \"year\": 2012}",
];

#[test]
fn values_have_places() {
    let mut table = ValueTable::new();
    assert_eq!(table.insert(&text("a")), 0);
    assert_eq!(table.insert(&LabelValue::Unsigned(7)), 1);
    assert_eq!(table.insert(&LabelValue::Other("a".to_string())), 2);
    assert_eq!(table.insert(&LabelValue::Null), 3);
    assert_eq!(table.insert(&LabelValue::Bool(true)), 4);
    assert_eq!(table.insert(&LabelValue::Signed(7)), 1);
    assert_eq!(table.insert(&LabelValue::Bool(true)), 4);
    assert_eq!(table.insert(&text("a")), 0);
    assert_eq!(table.insert(&LabelValue::Fraction(7.5f64.to_bits())), 5);
    assert_eq!(table.insert(&LabelValue::Fraction(7.0f64.to_bits())), 6);
    assert_eq!(table.insert(&LabelValue::Fraction(7.5f64.to_bits())), 5);
    assert_eq!(table.len(), 7);
    assert_eq!(table.place_of(&LabelValue::Fraction(8.5f64.to_bits())), None);
    assert_eq!(table.place_of(&LabelValue::Bool(false)), None);
    assert_eq!(table.place_of(&text("b")), None);
    assert_eq!(table.place_of(&LabelValue::Signed(-7)), None);
    assert!(table.get(0).same(&text("a")));
}

#[test]
fn fields_have_label_ids() {
    let mut table = LabelTable::new();
    assert_eq!(table.intern(&field("a", text("x"))), 0);
    assert_eq!(table.intern(&field("a", text("y"))), 1);
    assert_eq!(table.intern(&field("b", text("x"))), 2);
    assert_eq!(table.intern(&field("a", text("x"))), 0);
    assert_eq!(table.len(), 3);
    assert_eq!(table.get(2).name, "b");
    let document = vec![
        field("doc_id", LabelValue::Unsigned(1)),
        field("b", text("x")),
        field("c", LabelValue::Null),
        field("b", text("x")),
    ];
    assert_eq!(table.document_labels(&document), vec![2, 3]);
    assert_eq!(table.len(), 4);
}

#[test]
fn inline_filters_answer_as_bitmaps() {
    let mut table = LabelTable::new();
    let mut index = InvertedIndex::new();
    let mut docs = Vec::new();
    for (number, line) in LINES.iter().enumerate() {
        assert!(index.add_line(line).is_ok());
        let (doc_id, fields) = read_document(line, number).ok().unwrap();
        docs.push((doc_id, table.document_labels(&fields)));
    }
    let strings: Vec<Attribute> =
        (0..table.len()).map(|label| Attribute { text: label.to_string() }).collect();
    let mut store = RoaringAttributeStore::new();
    assert_eq!(store.bulk_insert_encoded(&strings, docs), Ok(()));

    let number = LabelValue::Unsigned;
    let queries = vec![
        compare("camera", CompareOp::Eq(text("Canon"))),
        compare("camera", CompareOp::Ne(text("Canon"))),
        compare("camera", CompareOp::Eq(text("NIKON"))),
        compare("year", CompareOp::Gt(number(2010))),
        compare("year", CompareOp::In(vec![number(2010), number(2012)])),
        compare("specs.cpu", CompareOp::Eq(text("i7"))),
        ASTExpr::Not(Box::new(compare("camera", CompareOp::Eq(text("Canon"))))),
        ASTExpr::And(vec![
            compare("year", CompareOp::Gte(number(2011))),
            ASTExpr::Or(vec![
                compare("camera", CompareOp::Eq(text("Canon"))),
                compare("year", CompareOp::Eq(number(2012))),
            ]),
        ]),
        ASTExpr::And(vec![]),
        ASTExpr::Or(vec![]),
    ];
    let (bitmaps, _) = compute_filter_bitmaps(&index, &queries);
    for (q, query) in queries.iter().enumerate() {
        let filter = EncodedFilterExpr::new(table.encode_filter(query));
        for id in 0..4 {
            assert_eq!(store.matches_filter(id, &filter), bitmaps[q].contains(id as usize));
        }
    }
}

#[test]
fn new_fields_follow_in_their_order() {
    let mut table = LabelTable::new();
    table.intern(&field("b", text("x")));
    let document = vec![
        field("c", text("z")),
        field("doc_id", LabelValue::Unsigned(1)),
        field("b", text("x")),
        field("a", text("y")),
        field("c", text("z")),
    ];
    assert_eq!(table.document_labels(&document), vec![1, 0, 2]);
    let names: Vec<&str> = (0..table.len()).map(|label| table.get(label).name.as_str()).collect();
    assert_eq!(names, vec!["b", "c", "a"]);
}

#[test]
fn a_document_without_fields_matches_nothing() {
    let mut table = LabelTable::new();
    let mut docs = Vec::new();
    for (number, line) in ["{\"doc_id\": 0}", "{\"doc_id\": 1, \"a\": 1}"].iter().enumerate() {
        let (doc_id, fields) = read_document(line, number).ok().unwrap();
        docs.push((doc_id, table.document_labels(&fields)));
    }
    let mut store = RoaringAttributeStore::new();
    let strings = vec![Attribute { text: "a".to_string() }];
    assert_eq!(store.bulk_insert_encoded(&strings, docs), Ok(()));
    let query =
        ASTExpr::Not(Box::new(compare("a", CompareOp::Eq(LabelValue::Unsigned(2)))));
    let filter = EncodedFilterExpr::new(table.encode_filter(&query));
    assert!(!store.matches_filter(0, &filter));
    assert!(store.matches_filter(1, &filter));
}

#[test]
fn expressions_decide_the_route() {
    let mut table = LabelTable::new();
    let mut docs = Vec::new();
    for (number, line) in LINES.iter().enumerate() {
        let (doc_id, fields) = read_document(line, number).ok().unwrap();
        docs.push((doc_id, table.document_labels(&fields)));
    }
    let strings: Vec<Attribute> =
        (0..table.len()).map(|label| Attribute { text: label.to_string() }).collect();
    let mut store = RoaringAttributeStore::new();
    assert_eq!(store.bulk_insert_encoded(&strings, docs), Ok(()));
    let route = |query: &ASTExpr| {
        let filter = EncodedFilterExpr::new(table.encode_filter(query));
        route_inline(&store, &filter, FilterStrategy::InlineBetaBf, 2)
    };
    let camera = |name: &str| compare("camera", CompareOp::Eq(text(name)));
    assert!(matches!(route(&camera("NIKON")), Route::Unsatisfiable));
    assert!(matches!(route(&camera("Canon")), Route::BruteForce { upper_bound: 2, .. }));
    let either = ASTExpr::Or(vec![camera("Canon"), camera("Panasonic")]);
    assert!(matches!(route(&either), Route::Graph));
    let unknown = ASTExpr::And(vec![camera("Canon"), camera("NIKON")]);
    assert!(matches!(route(&unknown), Route::Unsatisfiable));
    let not = ASTExpr::Not(Box::new(camera("Canon")));
    assert!(matches!(route(&not), Route::NonCanonical));
    let deep = ASTExpr::Or(vec![ASTExpr::And(vec![camera("Canon")]), camera("NIKON")]);
    assert!(matches!(route(&deep), Route::NonCanonical));
}

#[test]
fn encoded_filters_have_clauses() {
    let mut table = LabelTable::new();
    table.intern(&field("a", LabelValue::Unsigned(1)));
    table.intern(&field("b", LabelValue::Unsigned(1)));
    table.intern(&field("a", LabelValue::Unsigned(2)));
    let query = ASTExpr::And(vec![
        compare("a", CompareOp::Gt(LabelValue::Unsigned(0))),
        compare("b", CompareOp::Eq(LabelValue::Unsigned(1))),
        compare("c", CompareOp::Eq(LabelValue::Unsigned(1))),
    ]);
    assert_eq!(
        analyze_and_of_ors(&table.encode_filter(&query)),
        Some(vec![vec![0, 2], vec![1], vec![]])
    );
}
