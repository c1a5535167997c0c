use bit_set::BitSet;
use label_filter::ast::ASTExpr;
use label_filter::labels::{
    compute_filter_bitmaps, evaluate_ast_with_inverted_index, read_document, reports_labels,
    InvertedIndex, LabelError, LabelField,
};
use label_filter::values::{CompareOp, LabelValue};

fn is(field: &str) -> ASTExpr {
    compare(field, CompareOp::Eq(LabelValue::Bool(true)))
}

fn compare(field: &str, op: CompareOp) -> ASTExpr {
    ASTExpr::Compare { field: field.to_string(), op }
}

fn text(value: &str) -> LabelValue {
    LabelValue::Text(value.to_string())
}

fn with_value(index: &InvertedIndex, field: &str, value: LabelValue) -> Vec<usize> {
    match index.get(&field.to_string()) {
        Some(list) => selected(&list.select(&CompareOp::Eq(value))),
        None => Vec::new(),
    }
}

fn selected(bits: &BitSet) -> Vec<usize> {
    bits.iter().collect()
}

fn sample() -> InvertedIndex {
    let mut index = InvertedIndex::new();
    for line in [
        "{\"doc_id\": 0, \"geo_32\": true, \"dev_1\": true, \"mkt_en-us\": true}",
        "{\"doc_id\": 1, \"geo_32\": true, \"dev_1\": false}",
        "{\"doc_id\": 2, \"dev_1\": true, \"year\": 2010}",
        "{\"doc_id\": 3}",
    ] {
        assert!(index.add_line(line).is_ok());
    }
    index
}

#[test]
fn lines_are_indexed() {
    let index = sample();
    assert_eq!(index.num_base(), 4);
    assert_eq!(index.num_fields(), 4);
    let yes = || LabelValue::Bool(true);
    assert_eq!(with_value(&index, "geo_32", yes()), vec![0, 1]);
    assert_eq!(with_value(&index, "dev_1", yes()), vec![0, 2]);
    assert_eq!(with_value(&index, "dev_1", LabelValue::Bool(false)), vec![1]);
    assert_eq!(with_value(&index, "mkt_en-us", yes()), vec![0]);
    assert_eq!(with_value(&index, "year", LabelValue::Unsigned(2010)), vec![2]);
    assert!(index.get(&"doc_id".to_string()).is_none());
    assert!(index.get(&"unknown".to_string()).is_none());
}

#[test]
fn a_line_that_is_no_json_is_refused() {
    let mut index = sample();
    assert!(matches!(index.add_line("{doc_id: 4}"), Err(LabelError::Json { line: 4, .. })));
    assert!(matches!(index.add_line(""), Err(LabelError::Json { line: 4, .. })));
    assert_eq!(index.num_base(), 4);
}

#[test]
fn a_line_without_a_document_is_refused() {
    let mut index = InvertedIndex::new();
    for line in [
        "{\"geo_32\": true}",
        "{\"doc_id\": \"0\"}",
        "{\"doc_id\": -1}",
        "{\"doc_id\": 1.5}",
        "[{\"doc_id\": 0}]",
        "null",
    ] {
        assert!(matches!(index.add_line(line), Err(LabelError::MissingDocId { line: 0 })));
    }
    assert_eq!(index.num_base(), 0);
    assert_eq!(index.num_fields(), 0);
}

#[test]
fn a_document_beyond_every_bit_set_is_refused() {
    let mut index = InvertedIndex::new();
    let line = format!("{{\"doc_id\": {}, \"a\": true}}", u64::MAX);
    assert!(matches!(index.add_line(&line), Err(LabelError::DocIdTooLarge { line: 0 })));
    assert_eq!(index.num_fields(), 0);
    assert_eq!(index.num_base(), 0);
}

#[test]
fn a_document_beyond_every_bit_set_counts_without_a_true_field() {
    let mut index = InvertedIndex::new();
    for line in [
        "{\"doc_id\": 18446744073709551615}",
        "{\"doc_id\": 18446744073709551615, \"a\": false}",
        "{\"doc_id\": 18446744073709551615, \"a\": \"true\", \"b\": {\"c\": true}}",
    ] {
        assert!(index.add_line(line).is_ok());
    }
    assert_eq!(index.num_base(), 3);
    assert_eq!(index.num_fields(), 0);
}

#[test]
fn fields_are_indexed() {
    let mut index = InvertedIndex::new();
    let field = |name: &str, value: LabelValue| LabelField { name: name.to_string(), value };
    let fields = vec![
        field("a", LabelValue::Bool(true)),
        field("b", LabelValue::Unsigned(1)),
        field("doc_id", LabelValue::Unsigned(6)),
        field("c", LabelValue::Null),
    ];
    assert!(index.add_fields(&fields).is_ok());
    assert_eq!(with_value(&index, "a", LabelValue::Bool(true)), vec![6]);
    assert_eq!(with_value(&index, "b", LabelValue::Signed(1)), vec![6]);
    assert_eq!(with_value(&index, "c", LabelValue::Null), vec![6]);
    assert_eq!(index.num_fields(), 3);
    let nameless = vec![field("a", LabelValue::Unsigned(3))];
    assert!(matches!(index.add_fields(&nameless), Err(LabelError::MissingDocId { line: 1 })));
    let negative = vec![field("doc_id", LabelValue::Signed(-1))];
    assert!(matches!(index.add_fields(&negative), Err(LabelError::MissingDocId { line: 1 })));
    let signed = vec![field("doc_id", LabelValue::Signed(3)), field("a", LabelValue::Bool(true))];
    assert!(index.add_fields(&signed).is_ok());
    assert_eq!(with_value(&index, "a", LabelValue::Bool(true)), vec![3, 6]);
}

#[test]
fn comparisons_select_true_fields() {
    let index = sample();
    let n = index.num_base();
    let eval = |expr: &ASTExpr| selected(&evaluate_ast_with_inverted_index(expr, &index, n));
    assert_eq!(eval(&is("geo_32")), vec![0, 1]);
    assert_eq!(eval(&is("unknown")), Vec::<usize>::new());
    assert_eq!(eval(&compare("geo_32", CompareOp::Eq(LabelValue::Bool(false)))), Vec::<usize>::new());
    assert_eq!(eval(&compare("dev_1", CompareOp::Eq(LabelValue::Bool(false)))), vec![1]);
    assert_eq!(eval(&compare("dev_1", CompareOp::Ne(LabelValue::Bool(true)))), vec![1]);
}

/// The documents of the documented example, with a nested field and other values.
fn cameras() -> InvertedIndex {
    let mut index = InvertedIndex::new();
    for line in [
        "{\"doc_id\": 0, \"year\": 2010, \"month\": \"May\", \"camera\": \"Panasonic\"}",
        "{\"doc_id\": 1, \"year\": 2011, \"camera\": \"Canon\", \"specs\": {\"cpu\": \"i7\"}}",
        "{\"doc_id\": 2, \"year\": 2011, \"camera\": \"Canon\", \"ratio\": 1.5}",
        "{\"doc_id\": 3, \"year\": -5, \"camera\": null, \"specs\": {\"cpu\": {\"x\": 1}}}",
        "{\"doc_id\": 4, \"year\": \"2010\", \"tags\": [1, 2]}",
    ] {
        assert!(index.add_line(line).is_ok());
    }
    index
}

fn eval_cameras(expr: &ASTExpr) -> Vec<usize> {
    selected(&evaluate_ast_with_inverted_index(expr, &cameras(), 5))
}

#[test]
fn text_values_are_selected() {
    let query = ASTExpr::Or(vec![
        compare("camera", CompareOp::Eq(text("Canon"))),
        compare("camera", CompareOp::Eq(text("NIKON"))),
    ]);
    let (bitmaps, counts) = compute_filter_bitmaps(&cameras(), &vec![query]);
    assert_eq!(selected(&bitmaps[0]), vec![1, 2]);
    assert_eq!(counts, vec![2]);
}

#[test]
fn equality_takes_any_value() {
    assert_eq!(eval_cameras(&compare("camera", CompareOp::Eq(LabelValue::Null))), vec![3]);
    assert_eq!(eval_cameras(&compare("year", CompareOp::Eq(LabelValue::Unsigned(2010)))), vec![0]);
    assert_eq!(eval_cameras(&compare("year", CompareOp::Eq(text("2010")))), vec![4]);
    assert_eq!(eval_cameras(&compare("year", CompareOp::Eq(LabelValue::Signed(-5)))), vec![3]);
    let list = LabelValue::Other("[1,2]".to_string());
    assert_eq!(eval_cameras(&compare("tags", CompareOp::Eq(list))), vec![4]);
    let ratio = LabelValue::Fraction(1.5f64.to_bits());
    assert_eq!(eval_cameras(&compare("ratio", CompareOp::Eq(ratio))), vec![2]);
}

#[test]
fn inequality_takes_any_value() {
    assert_eq!(eval_cameras(&compare("camera", CompareOp::Ne(text("Canon")))), vec![0, 3]);
    let not = ASTExpr::Not(Box::new(compare("camera", CompareOp::Eq(text("Canon")))));
    assert_eq!(eval_cameras(&not), vec![0, 3, 4]);
}

#[test]
fn numbers_are_ordered() {
    let number = LabelValue::Unsigned;
    assert_eq!(eval_cameras(&compare("year", CompareOp::Lt(number(2011)))), vec![0, 3]);
    assert_eq!(eval_cameras(&compare("year", CompareOp::Lte(number(2011)))), vec![0, 1, 2, 3]);
    assert_eq!(eval_cameras(&compare("year", CompareOp::Gt(number(2009)))), vec![0, 1, 2]);
    assert_eq!(eval_cameras(&compare("year", CompareOp::Gt(number(2010)))), vec![1, 2]);
    assert_eq!(eval_cameras(&compare("year", CompareOp::Gte(number(2010)))), vec![0, 1, 2]);
    assert_eq!(eval_cameras(&compare("year", CompareOp::Gte(LabelValue::Signed(-5)))), vec![0, 1, 2, 3]);
    assert_eq!(eval_cameras(&compare("camera", CompareOp::Lt(number(5)))), Vec::<usize>::new());
    assert_eq!(eval_cameras(&compare("year", CompareOp::Lt(text("3000")))), Vec::<usize>::new());
}

fn fraction(number: f64) -> LabelValue {
    LabelValue::Fraction(number.to_bits())
}

#[test]
fn fractions_are_ordered_among_all_numbers() {
    let mut index = InvertedIndex::new();
    for (id, number) in ["-1e300", "-0.5", "-0.0", "0", "5e-324", "1.5", "2", "2.0", "1e300"]
        .iter()
        .enumerate()
    {
        assert!(index.add_line(&format!("{{\"doc_id\": {}, \"x\": {}}}", id, number)).is_ok());
    }
    let eval = |op: CompareOp| selected(&evaluate_ast_with_inverted_index(&compare("x", op), &index, 9));
    assert_eq!(eval(CompareOp::Lt(LabelValue::Unsigned(2))), vec![0, 1, 2, 3, 4, 5]);
    assert_eq!(eval(CompareOp::Lte(fraction(2.0))), vec![0, 1, 2, 3, 4, 5, 6, 7]);
    assert_eq!(eval(CompareOp::Gt(fraction(1.25))), vec![5, 6, 7, 8]);
    assert_eq!(eval(CompareOp::Gte(LabelValue::Signed(-1))), vec![1, 2, 3, 4, 5, 6, 7, 8]);
    assert_eq!(eval(CompareOp::Gt(LabelValue::Unsigned(u64::MAX))), vec![8]);
    assert_eq!(eval(CompareOp::Gt(LabelValue::Unsigned(0))), vec![4, 5, 6, 7, 8]);
    assert_eq!(eval(CompareOp::Lt(fraction(-0.0))), vec![0, 1]);
    assert_eq!(eval(CompareOp::Eq(LabelValue::Unsigned(2))), vec![6, 7]);
    assert_eq!(eval(CompareOp::Eq(fraction(2.0))), vec![6, 7]);
    assert_eq!(eval(CompareOp::Eq(LabelValue::Signed(0))), vec![2, 3]);
    assert_eq!(eval(CompareOp::In(vec![fraction(1.5), fraction(0.0)])), vec![2, 3, 5]);
    assert_eq!(eval(CompareOp::Nin(vec![fraction(1.5), fraction(0.0)])), vec![0, 1, 4, 6, 7, 8]);
}

#[test]
fn numbers_are_compared_without_rounding() {
    let large = LabelValue::Unsigned((1 << 53) + 1);
    let near = fraction(9007199254740992.0);
    assert!(CompareOp::Gt(near).accepts(&large));
    let near = fraction(9007199254740992.0);
    assert!(!CompareOp::Eq(near).accepts(&large));
    let least = LabelValue::Signed(i64::MIN);
    assert!(least.equals(&fraction(-9223372036854775808.0)));
    assert!(!fraction(1.0).same(&LabelValue::Unsigned(1)));
    assert!(fraction(1.0).equals(&LabelValue::Unsigned(1)));
    let numbers = [-3.5, -1.0, -1.0e-310, -0.0, 0.0, 4.9e-324, 0.25, 1.0, 1.0e19, 1.7e308];
    for a in numbers {
        for b in numbers {
            assert_eq!(CompareOp::Lt(fraction(b)).accepts(&fraction(a)), a < b);
            assert_eq!(CompareOp::Lte(fraction(b)).accepts(&fraction(a)), a <= b);
            assert_eq!(CompareOp::Eq(fraction(b)).accepts(&fraction(a)), a == b);
        }
    }
}

#[test]
fn lists_of_values_are_searched() {
    let list = || vec![text("Canon"), LabelValue::Null];
    assert_eq!(eval_cameras(&compare("camera", CompareOp::In(list()))), vec![1, 2, 3]);
    assert_eq!(eval_cameras(&compare("camera", CompareOp::Nin(list()))), vec![0]);
    assert_eq!(eval_cameras(&compare("camera", CompareOp::In(vec![]))), Vec::<usize>::new());
    assert_eq!(eval_cameras(&compare("camera", CompareOp::Nin(vec![]))), vec![0, 1, 2, 3]);
}

#[test]
fn fields_of_objects_have_dotted_names() {
    assert_eq!(eval_cameras(&compare("specs.cpu", CompareOp::Eq(text("i7")))), vec![1]);
    let inner = LabelValue::Other("{\"x\":1}".to_string());
    assert_eq!(eval_cameras(&compare("specs.cpu", CompareOp::Eq(inner))), vec![3]);
    assert_eq!(
        eval_cameras(&compare("specs.cpu.x", CompareOp::Eq(LabelValue::Unsigned(1)))),
        Vec::<usize>::new()
    );
}

#[test]
fn a_conjunction_over_values() {
    let query = ASTExpr::And(vec![
        compare("year", CompareOp::Gt(LabelValue::Unsigned(2009))),
        compare("camera", CompareOp::Eq(text("Canon"))),
    ]);
    assert_eq!(eval_cameras(&query), vec![1, 2]);
}

#[test]
fn documents_are_read() {
    let line = "{\"b\": 1, \"doc_id\": 9, \"o\": {\"k\": true}}";
    let (doc_id, fields) = read_document(line, 3).ok().unwrap();
    assert_eq!(doc_id, 9);
    let names: Vec<&str> = fields.iter().map(|field| field.name.as_str()).collect();
    assert_eq!(names, vec!["b", "doc_id", "o", "o.k"]);
    assert!(fields[3].value.is_true());
    assert!(matches!(read_document("nothing", 3), Err(LabelError::Json { line: 3, .. })));
    assert!(matches!(read_document("{}", 3), Err(LabelError::MissingDocId { line: 3 })));
    assert!(matches!(read_document("[]", 4), Err(LabelError::MissingDocId { line: 4 })));
}

#[test]
fn expressions_combine_posting_lists() {
    let index = sample();
    let n = index.num_base();
    let eval = |expr: &ASTExpr| selected(&evaluate_ast_with_inverted_index(expr, &index, n));
    assert_eq!(eval(&ASTExpr::And(vec![is("geo_32"), is("dev_1")])), vec![0]);
    assert_eq!(eval(&ASTExpr::Or(vec![is("geo_32"), is("dev_1")])), vec![0, 1, 2]);
    assert_eq!(eval(&ASTExpr::And(vec![])), vec![0, 1, 2, 3]);
    assert_eq!(eval(&ASTExpr::Or(vec![])), Vec::<usize>::new());
    assert_eq!(eval(&ASTExpr::Not(Box::new(is("geo_32")))), vec![2, 3]);
    assert_eq!(eval(&ASTExpr::Not(Box::new(ASTExpr::Not(Box::new(is("geo_32")))))), vec![0, 1]);
    let cnf = ASTExpr::And(vec![
        ASTExpr::Or(vec![is("geo_32"), is("mkt_en-us")]),
        ASTExpr::Or(vec![is("dev_1"), is("unknown")]),
    ]);
    assert_eq!(eval(&cnf), vec![0]);
}

#[test]
fn bitmaps_and_counts_of_queries() {
    let index = sample();
    let queries = vec![is("geo_32"), ASTExpr::Not(Box::new(is("mkt_en-us"))), is("unknown")];
    let (bitmaps, counts) = compute_filter_bitmaps(&index, &queries);
    assert_eq!(bitmaps.len(), 3);
    assert_eq!(selected(&bitmaps[0]), vec![0, 1]);
    assert_eq!(selected(&bitmaps[1]), vec![1, 2, 3]);
    assert_eq!(selected(&bitmaps[2]), Vec::<usize>::new());
    assert_eq!(counts, vec![2, 3, 0]);
}

#[test]
fn index_and_documents_agree() {
    let lines = [
        "{\"doc_id\": 0, \"a\": true}",
        "{\"doc_id\": 1, \"a\": true, \"b\": true}",
        "{\"doc_id\": 2, \"b\": true}",
        "{\"doc_id\": 3}",
    ];
    let mut index = InvertedIndex::new();
    for line in lines {
        assert!(index.add_line(line).is_ok());
    }
    let query = ASTExpr::Or(vec![
        ASTExpr::And(vec![is("a"), is("b")]),
        ASTExpr::Not(Box::new(ASTExpr::Or(vec![is("a"), is("b")]))),
    ]);
    let bits = evaluate_ast_with_inverted_index(&query, &index, 4);
    let a = [true, true, false, false];
    let b = [false, true, true, false];
    for id in 0..4 {
        assert_eq!(bits.contains(id), (a[id] && b[id]) || !(a[id] || b[id]));
    }
    assert!(!bits.contains(4));
}

#[test]
fn label_progress() {
    assert!(reports_labels(200000));
    assert!(reports_labels(400000));
    assert!(!reports_labels(200001));
}
