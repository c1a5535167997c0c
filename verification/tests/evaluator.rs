use label_filter::evaluator::SlicePredicateEvaluator;
use label_filter::filter_expr::ASTIdExpr;
use label_filter::sorting::sort_labels;

#[test]
fn short_lists_are_scanned() {
    let labels: Vec<u32> = vec![2, 5, 9];
    let evaluator = SlicePredicateEvaluator::new(&labels);
    assert!(evaluator.contains_id(2));
    assert!(evaluator.contains_id(5));
    assert!(evaluator.contains_id(9));
    assert!(!evaluator.contains_id(0));
    assert!(!evaluator.contains_id(6));
    assert!(!evaluator.contains_id(10));
    assert!(!SlicePredicateEvaluator::new(&[]).contains_id(0));
}

#[test]
fn short_lists_need_no_order() {
    let labels: Vec<u32> = (0..32).rev().collect();
    let evaluator = SlicePredicateEvaluator::new(&labels);
    for id in 0..40 {
        assert_eq!(evaluator.contains_id(id), id < 32);
        assert_eq!(evaluator.visit_terminal(id as u64), id < 32);
    }
}

#[test]
fn long_lists_are_searched() {
    for n in [31u32, 32, 33, 34, 100] {
        let labels: Vec<u32> = (0..n).map(|i| 3 * i + 1).collect();
        let evaluator = SlicePredicateEvaluator::new(&labels);
        for id in 0..3 * n + 3 {
            assert_eq!(evaluator.contains_id(id), id % 3 == 1 && id < 3 * n);
        }
    }
}

#[test]
fn expressions_are_evaluated() {
    let labels: Vec<u32> = vec![1, 4];
    let evaluator = SlicePredicateEvaluator::new(&labels);
    let one = ASTIdExpr::Terminal(1);
    let two = ASTIdExpr::Terminal(2);
    assert!(evaluator.visit(&one));
    assert!(!evaluator.visit(&two));
    assert!(evaluator.visit_not(&two));
    assert!(!evaluator.visit_not(&one));
    assert!(evaluator.visit_and(&[]));
    assert!(!evaluator.visit_or(&[]));
    assert!(!evaluator.visit_and(&[ASTIdExpr::Terminal(1), ASTIdExpr::Terminal(2)]));
    assert!(evaluator.visit_or(&[ASTIdExpr::Terminal(2), ASTIdExpr::Terminal(1)]));
    assert!(evaluator.visit_terminal(4));
    assert!(!evaluator.visit_terminal(1 + (1 << 32)));
    let nested = ASTIdExpr::And(vec![
        ASTIdExpr::Or(vec![ASTIdExpr::Terminal(9), ASTIdExpr::Terminal(4)]),
        ASTIdExpr::Not(Box::new(ASTIdExpr::And(vec![
            ASTIdExpr::Terminal(1),
            ASTIdExpr::Terminal(2),
        ]))),
    ]);
    assert!(evaluator.visit(&nested));
}

#[test]
fn labels_are_sorted() {
    assert_eq!(sort_labels(&[5, 1, 4, 1, 0]), vec![0, 1, 1, 4, 5]);
    assert_eq!(sort_labels(&[]), Vec::<u32>::new());
}
