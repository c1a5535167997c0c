use bit_set::BitSet;
use label_filter::knn::{brute_force_candidates, brute_force_knn, brute_force_topk, Neighbor};
use label_filter::recall::{query_recall, QueryRecall};

fn bitmap(ids: &[usize]) -> BitSet {
    let mut bits = BitSet::new();
    for id in ids {
        bits.insert(*id);
    }
    bits
}

fn bits(values: &[f32]) -> Vec<u32> {
    values.iter().map(|value| value.to_bits()).collect()
}

#[test]
fn candidates_have_rows() {
    assert_eq!(brute_force_candidates(&bitmap(&[9, 3, 0, 7]), 8), vec![0, 3, 7]);
    assert_eq!(brute_force_candidates(&bitmap(&[9, 3]), 3), Vec::<usize>::new());
    assert_eq!(brute_force_candidates(&bitmap(&[]), 3), Vec::<usize>::new());
    assert_eq!(brute_force_candidates(&bitmap(&[64, 65, 1000]), 1001), vec![64, 65, 1000]);
}

#[test]
fn nearest_come_first() {
    let candidates = vec![2, 5, 6, 8];
    let distances = bits(&[3.0, 0.5, -1.0, 2.0]);
    assert_eq!(brute_force_knn(&candidates, &distances, 2), vec![6, 5]);
    assert_eq!(brute_force_knn(&candidates, &distances, 4), vec![6, 5, 8, 2]);
    assert_eq!(brute_force_knn(&candidates, &distances, 9), vec![6, 5, 8, 2]);
    assert_eq!(brute_force_knn(&candidates, &distances, 0), Vec::<u32>::new());
}

#[test]
fn of_equal_distances_the_first_is_preferred() {
    let candidates = vec![1, 2, 3, 4];
    let distances = bits(&[1.0, 1.0, 0.0, 1.0]);
    assert_eq!(brute_force_knn(&candidates, &distances, 2), vec![3, 1]);
    let distances = bits(&[0.0, -0.0, 0.0, -0.0]);
    assert_eq!(brute_force_knn(&candidates, &distances, 3), vec![1, 2, 3]);
}

#[test]
fn what_is_not_a_number_comes_last() {
    let candidates = vec![1, 2, 3];
    let distances = bits(&[f32::NAN, f32::INFINITY, 1.0]);
    assert_eq!(brute_force_knn(&candidates, &distances, 3), vec![3, 2, 1]);
    assert_eq!(brute_force_knn(&candidates, &distances, 2), vec![3, 2]);
}

#[test]
fn points_keep_their_distances() {
    let candidates = vec![4, 5];
    let distances = bits(&[2.0, 1.0]);
    assert_eq!(
        brute_force_topk(&candidates, &distances, 1),
        vec![Neighbor { id: 5, distance: 1.0f32.to_bits() }]
    );
}

#[test]
fn selection_agrees_with_sorting() {
    let candidates: Vec<usize> = (0..200).collect();
    let values: Vec<f32> = (0..200u32).map(|i| ((i * 7919) % 101) as f32 - 50.0).collect();
    let mut order: Vec<usize> = candidates.clone();
    order.sort_by(|a, b| values[*a].partial_cmp(&values[*b]).unwrap());
    for k in [0, 1, 7, 199, 200, 300] {
        let expected: Vec<u32> = order.iter().take(k).map(|id| *id as u32).collect();
        assert_eq!(brute_force_knn(&candidates, &bits(&values), k), expected);
    }
}

#[test]
fn brute_force_has_full_recall() {
    let candidates = vec![3, 4, 8, 9];
    let distances = bits(&[1.0, 2.0, 2.0, 2.0]);
    let found = brute_force_knn(&candidates, &distances, 2);
    // The ground truth prefers another of the tied points.
    let row = [3, 9, 8, 4];
    let truth = bits(&[1.0, 2.0, 2.0, 2.0]);
    assert_eq!(
        query_recall(&row, Some(&truth), 2, &found),
        QueryRecall { found: 2, total: 2 }
    );
    // Fewer points than are asked for.
    let few = brute_force_knn(&vec![3], &bits(&[1.0]), 2);
    let row = [3, u32::MAX];
    assert_eq!(query_recall(&row, None, 2, &few), QueryRecall { found: 1, total: 1 });
}
