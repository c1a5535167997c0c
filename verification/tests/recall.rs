use label_filter::distance::{distance_rank, same_distance};
use label_filter::recall::{compute_recall, query_recall, QueryRecall};

fn bits(values: &[f32]) -> Vec<u32> {
    values.iter().map(|value| value.to_bits()).collect()
}

const SAMPLES: [f32; 13] = [
    0.0,
    -0.0,
    1.0,
    -1.0,
    1.5,
    f32::MIN_POSITIVE,
    -f32::MIN_POSITIVE,
    1.0e-45,
    f32::MAX,
    f32::MIN,
    f32::INFINITY,
    f32::NEG_INFINITY,
    f32::NAN,
];

#[test]
fn patterns_compare_as_numbers() {
    for a in SAMPLES {
        for b in SAMPLES {
            assert_eq!(same_distance(a.to_bits(), b.to_bits()), a == b);
            if !a.is_nan() && !b.is_nan() {
                assert_eq!(distance_rank(a.to_bits()) < distance_rank(b.to_bits()), a < b);
                assert_eq!(distance_rank(a.to_bits()) == distance_rank(b.to_bits()), a == b);
            }
        }
    }
    assert!(distance_rank(f32::NAN.to_bits()) > distance_rank(f32::INFINITY.to_bits()));
    assert_eq!(distance_rank((-f32::NAN).to_bits()), distance_rank(f32::NAN.to_bits()));
    assert_eq!(distance_rank(1.0f32.to_bits()), 0x3f80_0000);
}

#[test]
fn recall_without_distances() {
    let row = [4, 7, 1, 9];
    assert_eq!(query_recall(&row, None, 3, &[7, 9, 4]), QueryRecall { found: 2, total: 3 });
    assert_eq!(query_recall(&row, None, 4, &[7, 9, 4]), QueryRecall { found: 3, total: 4 });
    assert_eq!(query_recall(&row, None, 3, &[]), QueryRecall { found: 0, total: 3 });
    assert_eq!(query_recall(&row, None, 3, &[4, 7, 1]), QueryRecall { found: 3, total: 3 });
}

#[test]
fn fillers_do_not_count() {
    let row = [4, 7, u32::MAX, u32::MAX];
    assert_eq!(query_recall(&row, None, 4, &[7]), QueryRecall { found: 1, total: 2 });
    let none = [u32::MAX, 5];
    assert_eq!(query_recall(&none, None, 2, &[5]), QueryRecall { found: 0, total: 0 });
    let distances = bits(&[1.0, 2.0, 2.0, 2.0]);
    assert_eq!(
        query_recall(&row, Some(&distances), 4, &[7]),
        QueryRecall { found: 1, total: 2 }
    );
}

#[test]
fn ties_at_the_boundary_are_interchangeable() {
    let row = [1, 2, 3, 4, 5];
    let distances = bits(&[0.5, 1.0, 1.0, 1.0, 2.0]);
    // Two places are left in the tie; any two of its points fill them.
    assert_eq!(
        query_recall(&row, Some(&distances), 3, &[1, 3, 4]),
        QueryRecall { found: 3, total: 3 }
    );
    assert_eq!(query_recall(&row, None, 3, &[1, 3, 4]), QueryRecall { found: 2, total: 3 });
    // More than two of them give no more credit.
    assert_eq!(
        query_recall(&row, Some(&distances), 3, &[2, 3, 4]),
        QueryRecall { found: 2, total: 3 }
    );
    // Behind the tie nothing counts.
    assert_eq!(
        query_recall(&row, Some(&distances), 3, &[1, 5]),
        QueryRecall { found: 1, total: 3 }
    );
}

#[test]
fn zeros_of_both_signs_tie() {
    let row = [1, 2];
    let distances = bits(&[0.0, -0.0]);
    assert_eq!(
        query_recall(&row, Some(&distances), 1, &[2]),
        QueryRecall { found: 1, total: 1 }
    );
}

#[test]
fn what_is_not_a_number_ties_with_nothing() {
    let row = [1, 2];
    let distances = bits(&[f32::NAN, f32::NAN]);
    assert_eq!(
        query_recall(&row, Some(&distances), 1, &[2]),
        QueryRecall { found: 0, total: 1 }
    );
}

#[test]
fn recall_of_every_query() {
    let gt = [1, 2, 3, 10, 11, 12];
    let results = [3, 1, 11, 99];
    assert_eq!(
        compute_recall(2, &gt, None, 3, &results, 2, 2),
        vec![QueryRecall { found: 1, total: 2 }, QueryRecall { found: 1, total: 2 }]
    );
    // Of a row of results no more entries count than of a row of ground truth.
    assert_eq!(
        compute_recall(2, &gt, None, 3, &results, 2, 1),
        vec![QueryRecall { found: 0, total: 1 }, QueryRecall { found: 0, total: 1 }]
    );
    // A greater cut than the rows are long is the length of the rows.
    assert_eq!(
        compute_recall(2, &gt, None, 3, &results, 2, 10),
        vec![QueryRecall { found: 2, total: 3 }, QueryRecall { found: 1, total: 3 }]
    );
    assert!(compute_recall(0, &[], None, 3, &[], 2, 2).is_empty());
}

#[test]
fn recall_of_every_query_with_ties() {
    let gt = [1, 2, 3, 10, 11, 12];
    let distances = bits(&[1.0, 2.0, 2.0, 1.0, 2.0, 3.0]);
    let results = [1, 3, 10, 12];
    assert_eq!(
        compute_recall(2, &gt, Some(&distances), 3, &results, 2, 2),
        vec![QueryRecall { found: 2, total: 2 }, QueryRecall { found: 1, total: 2 }]
    );
}

#[test]
fn more_results_never_lower_the_recall() {
    let row = [1, 2, 3, 4];
    let distances = bits(&[1.0, 1.0, 1.0, 1.0]);
    let mut last = 0;
    for n in 0..5u32 {
        let results: Vec<u32> = (1..=n).collect();
        let recall = query_recall(&row, Some(&distances), 2, &results);
        assert!(recall.found >= last && recall.found <= recall.total);
        last = recall.found;
    }
    assert_eq!(last, 2);
}

#[test]
fn distances_may_end_before_rows_that_do_not_need_them() {
    // The second query has a filler among the entries that count, so no distance is read.
    let gt = [1, 2, 3, u32::MAX];
    let distances = bits(&[1.0, 1.0]);
    assert_eq!(
        compute_recall(2, &gt, Some(&distances), 2, &[2, 1, 3, 9], 2, 2),
        vec![QueryRecall { found: 2, total: 2 }, QueryRecall { found: 1, total: 1 }]
    );
    assert_eq!(
        query_recall(&[3, u32::MAX], Some(&[]), 2, &[3]),
        QueryRecall { found: 1, total: 1 }
    );
}

#[test]
fn a_query_without_neighbours_has_found_all() {
    assert_eq!(QueryRecall { found: 0, total: 0 }.share(), (1, 1));
    assert_eq!(QueryRecall { found: 2, total: 3 }.share(), (2, 3));
}
