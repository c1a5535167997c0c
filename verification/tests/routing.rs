use label_filter::attribute::Attribute;
use label_filter::filter_expr::{ASTIdExpr, EncodedFilterExpr};
use label_filter::knn::Neighbor;
use label_filter::recall::query_recall;
use label_filter::routing::{
    analyze_and_of_ors, found_rows, matching_candidates, matching_results, merge_topk,
    route_filter, route_inline, scan_candidates, sum_routes, summarize, unsatisfiable_row, Route,
    RoutingSummary, RoutingSums,
};
use label_filter::search::FilterStrategy;
use label_filter::store::RoaringAttributeStore;

fn label(id: u64) -> ASTIdExpr {
    ASTIdExpr::Terminal(id)
}

fn any(ids: &[u64]) -> ASTIdExpr {
    ASTIdExpr::Or(ids.iter().map(|id| label(*id)).collect())
}

/// Label 0 is on points 0 to 9, label 1 on 0 to 3, label 2 on 8 and 9, label 3 on none.
fn sample() -> RoaringAttributeStore {
    let mut store = RoaringAttributeStore::new();
    let strings: Vec<Attribute> =
        ["a", "b", "c", "d"].iter().map(|text| Attribute { text: text.to_string() }).collect();
    let docs = (0..10u64)
        .map(|id| {
            let mut labels = vec![0];
            if id < 4 {
                labels.push(1);
            }
            if id >= 8 {
                labels.push(2);
            }
            (id, labels)
        })
        .collect();
    assert_eq!(store.bulk_insert_encoded(&strings, docs), Ok(()));
    store
}

fn neighbor(id: u32, distance: f32) -> Neighbor {
    Neighbor { id, distance: distance.to_bits() }
}

#[test]
fn conjunctions_of_disjunctions_have_clauses() {
    assert_eq!(analyze_and_of_ors(&label(5)), Some(vec![vec![5]]));
    assert_eq!(analyze_and_of_ors(&any(&[1, 2])), Some(vec![vec![1, 2]]));
    assert_eq!(
        analyze_and_of_ors(&ASTIdExpr::And(vec![any(&[1, 2]), label(3)])),
        Some(vec![vec![1, 2], vec![3]])
    );
    let nested = ASTIdExpr::Or(vec![label(1), any(&[2, 3]), ASTIdExpr::Or(vec![any(&[4])])]);
    assert_eq!(analyze_and_of_ors(&nested), Some(vec![vec![1, 2, 3, 4]]));
    assert_eq!(analyze_and_of_ors(&ASTIdExpr::And(vec![])), Some(vec![]));
    assert_eq!(analyze_and_of_ors(&ASTIdExpr::Or(vec![])), Some(vec![vec![]]));
}

#[test]
fn other_shapes_have_none() {
    assert_eq!(analyze_and_of_ors(&ASTIdExpr::Not(Box::new(label(1)))), None);
    let inner = ASTIdExpr::And(vec![label(1), ASTIdExpr::Not(Box::new(label(2)))]);
    assert_eq!(analyze_and_of_ors(&inner), None);
    let conjunction = ASTIdExpr::Or(vec![label(1), ASTIdExpr::And(vec![label(2)])]);
    assert_eq!(analyze_and_of_ors(&conjunction), None);
    let deep = ASTIdExpr::And(vec![ASTIdExpr::And(vec![label(1)])]);
    assert_eq!(analyze_and_of_ors(&deep), None);
}

#[test]
fn a_clause_without_points_is_unsatisfiable() {
    let store = sample();
    let filter = EncodedFilterExpr::new(ASTIdExpr::And(vec![label(0), label(3)]));
    assert!(matches!(route_filter(&store, &filter, 100, false), Route::Unsatisfiable));
    for id in 0..12 {
        assert!(!store.matches_filter(id, &filter));
    }
    let nothing = EncodedFilterExpr::new(ASTIdExpr::Or(vec![]));
    assert!(matches!(route_filter(&store, &nothing, 100, true), Route::Unsatisfiable));
}

#[test]
fn a_cheap_clause_is_scanned() {
    let store = sample();
    let filter = EncodedFilterExpr::new(ASTIdExpr::And(vec![label(0), any(&[1, 2]), label(0)]));
    match route_filter(&store, &filter, 6, true) {
        Route::BruteForce { labels, upper_bound } => {
            assert_eq!(labels, vec![1, 2]);
            assert_eq!(upper_bound, 6);
            let candidates = store.union_posting_lists(&labels);
            assert_eq!(
                matching_candidates(&store, &filter, &candidates, 100),
                vec![0, 1, 2, 3, 8, 9]
            );
            assert_eq!(matching_candidates(&store, &filter, &candidates, 3), vec![0, 1, 2]);
            assert_eq!(scan_candidates(&store, &filter, &labels, 9), vec![0, 1, 2, 3, 8]);
        }
        _ => panic!("the clause is within the budget"),
    }
    assert!(matches!(route_filter(&store, &filter, 5, false), Route::Graph));
}

#[test]
fn of_equal_clauses_the_first_is_scanned() {
    let store = sample();
    let filter = EncodedFilterExpr::new(ASTIdExpr::And(vec![any(&[2, 1]), any(&[1, 2])]));
    match route_filter(&store, &filter, 10, false) {
        Route::BruteForce { labels, .. } => assert_eq!(labels, vec![2, 1]),
        _ => panic!("the clause is within the budget"),
    }
}

#[test]
fn the_scan_checks_the_whole_filter() {
    let store = sample();
    let filter = EncodedFilterExpr::new(ASTIdExpr::And(vec![label(1), label(2)]));
    match route_filter(&store, &filter, 10, false) {
        Route::BruteForce { labels, upper_bound } => {
            assert_eq!(labels, vec![2]);
            assert_eq!(upper_bound, 2);
            let candidates = store.union_posting_lists(&labels);
            assert_eq!(
                matching_candidates(&store, &filter, &candidates, 100),
                Vec::<usize>::new()
            );
        }
        _ => panic!("the clause is within the budget"),
    }
}

#[test]
fn graph_search_is_augmented_by_rare_labels() {
    let store = sample();
    let filter = EncodedFilterExpr::new(ASTIdExpr::And(vec![any(&[0, 1]), any(&[0, 2])]));
    match route_filter(&store, &filter, 6, true) {
        Route::Augment { labels, upper_bound, rare_sum } => {
            assert_eq!(labels, vec![2, 1]);
            assert_eq!(upper_bound, 12);
            assert_eq!(rare_sum, 6);
        }
        _ => panic!("the budget pays for rare labels"),
    }
    match route_filter(&store, &filter, 5, true) {
        Route::Augment { labels, rare_sum, .. } => {
            assert_eq!(labels, vec![2]);
            assert_eq!(rare_sum, 2);
        }
        _ => panic!("the budget pays for a rare label"),
    }
    assert!(matches!(route_filter(&store, &filter, 1, true), Route::Graph));
    assert!(matches!(route_filter(&store, &filter, 6, false), Route::Graph));
}

#[test]
fn other_filters_go_to_graph_search() {
    let store = sample();
    let not = EncodedFilterExpr::new(ASTIdExpr::Not(Box::new(label(0))));
    assert!(matches!(route_filter(&store, &not, 100, true), Route::NonCanonical));
    let everything = EncodedFilterExpr::new(ASTIdExpr::And(vec![]));
    assert!(matches!(route_filter(&store, &everything, 100, true), Route::Graph));
}

#[test]
fn graph_results_are_checked() {
    let store = sample();
    let filter = EncodedFilterExpr::new(label(1));
    assert_eq!(matching_results(&store, &filter, &vec![9, 2, 5, 0, 77]), vec![2, 0]);
}

#[test]
fn lists_are_merged() {
    let graph = vec![neighbor(1, 3.0), neighbor(2, 5.0)];
    let scan = vec![neighbor(3, 4.0), neighbor(1, 3.0), neighbor(4, 1.0)];
    assert_eq!(merge_topk(&graph, &scan, 3), vec![4, 1, 3]);
    assert_eq!(merge_topk(&graph, &scan, 10), vec![4, 1, 3, 2]);
    assert_eq!(merge_topk(&graph, &vec![], 1), vec![1]);
    assert_eq!(merge_topk(&vec![], &vec![], 1), Vec::<u32>::new());
    // A point that both lists name counts once, with its first distance.
    assert_eq!(merge_topk(&vec![neighbor(1, 9.0)], &scan, 3), vec![4, 3, 1]);
}

#[test]
fn a_merge_costs_no_recall() {
    // All matching points are 1 to 5; graph search missed the nearest.
    let row = [1, 2, 3, 4, 5];
    let distances: Vec<u32> = [1.0f32, 2.0, 2.0, 2.0, 3.0].iter().map(|d| d.to_bits()).collect();
    let graph = vec![neighbor(3, 2.0), neighbor(4, 2.0), neighbor(5, 3.0)];
    let scan = vec![neighbor(1, 1.0), neighbor(2, 2.0)];
    let alone: Vec<u32> = graph.iter().map(|point| point.id).collect();
    let merged = merge_topk(&graph, &scan, 3);
    assert_eq!(merged, vec![1, 3, 4]);
    assert_eq!(query_recall(&row, Some(&distances), 3, &alone).found, 2);
    assert_eq!(query_recall(&row, Some(&distances), 3, &merged).found, 3);
}

#[test]
fn an_unsatisfiable_query_has_no_neighbours() {
    assert_eq!(unsatisfiable_row(3), vec![u32::MAX; 3]);
    assert_eq!(unsatisfiable_row(0), Vec::<u32>::new());
}

#[test]
fn strategies_lead_to_routes() {
    let store = sample();
    let cheap = EncodedFilterExpr::new(label(2));
    let dear = EncodedFilterExpr::new(any(&[0, 2]));
    let route = |filter: &EncodedFilterExpr, strategy| route_inline(&store, filter, strategy, 5);
    assert!(matches!(route(&cheap, FilterStrategy::InlineBeta), Route::Graph));
    assert!(matches!(route(&cheap, FilterStrategy::InlineBetaBf), Route::BruteForce { .. }));
    assert!(matches!(route(&cheap, FilterStrategy::InlineBetaBfx), Route::BruteForce { .. }));
    assert!(matches!(route(&dear, FilterStrategy::InlineBetaBf), Route::Graph));
    assert!(matches!(route(&dear, FilterStrategy::InlineBetaBfx), Route::Augment { .. }));
    assert!(matches!(route(&cheap, FilterStrategy::Beta), Route::Graph));
}

#[test]
fn routes_are_counted() {
    let routes = vec![
        Route::Graph,
        Route::Unsatisfiable,
        Route::BruteForce { labels: vec![1], upper_bound: 1 },
        Route::Graph,
        Route::NonCanonical,
        Route::Augment { labels: vec![1], upper_bound: 9, rare_sum: 1 },
        Route::Graph,
    ];
    assert_eq!(
        summarize(&routes),
        RoutingSummary {
            unsatisfiable: 1,
            non_canonical: 1,
            brute_force: 1,
            augmented: 1,
            graph: 3,
        }
    );
}

#[test]
fn bounds_and_sizes_are_added_up() {
    let store = sample();
    let scan = |labels: Vec<u64>, upper_bound: u128| Route::BruteForce { labels, upper_bound };
    let routes = vec![
        scan(vec![1, 1], 8),
        scan(vec![1, 2], 6),
        Route::Graph,
        Route::Augment { labels: vec![2], upper_bound: 10, rare_sum: 2 },
        Route::Unsatisfiable,
        Route::NonCanonical,
        Route::Augment { labels: vec![0, 1], upper_bound: 14, rare_sum: 13 },
    ];
    assert_eq!(
        sum_routes(&store, &routes),
        Some(RoutingSums {
            scan_bound: 14,
            scan_size: 10,
            augment_bound: 24,
            rare_sum: 15,
            augment_size: 12,
        })
    );
    assert_eq!(store.union_len(&[0, 1, 3]), 10);
    let full = vec![scan(vec![1], u128::MAX), scan(vec![1], 1)];
    assert_eq!(sum_routes(&store, &full), None);
}

#[test]
fn points_without_a_row_are_left_out() {
    assert_eq!(found_rows(&vec![7, 2, 9, 2, 8], 9), vec![7, 2, 2, 8]);
    assert_eq!(found_rows(&vec![0], 0), Vec::<usize>::new());
}
