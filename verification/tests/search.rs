use bit_set::BitSet;
use label_filter::knn::{brute_force_candidates, brute_force_knn};
use label_filter::recall::{compute_recall, QueryRecall};
use label_filter::search::{
    check_setup, filter_stats, is_filtered, pad_ids, route_query, search_width, strategy_label,
    BitmapLabelProvider, FilterStats, FilterStrategy, SearchPass, SearchPath, SetupError,
};

fn bitmap(ids: &[usize]) -> BitSet {
    let mut bits = BitSet::new();
    for id in ids {
        bits.insert(*id);
    }
    bits
}

fn beta(value: f32) -> Result<(), SetupError> {
    check_setup(FilterStrategy::Beta, true, true, value.to_bits(), 0, false)
}

#[test]
fn a_strategy_needs_both_label_files() {
    let half = 0.5f32.to_bits();
    for strategy in [FilterStrategy::Beta, FilterStrategy::Multihop] {
        for (data, query) in [(false, false), (true, false), (false, true)] {
            assert_eq!(
                check_setup(strategy, data, query, half, 0, false),
                Err(SetupError::LabelsRequired { strategy })
            );
        }
        assert_eq!(check_setup(strategy, true, true, half, 0, false), Ok(()));
    }
    assert_eq!(check_setup(FilterStrategy::NoFilter, false, false, half, 0, false), Ok(()));
}

#[test]
fn beta_is_above_zero_and_at_most_one() {
    assert_eq!(beta(0.5), Ok(()));
    assert_eq!(beta(1.0), Ok(()));
    assert_eq!(beta(1.0e-45), Ok(()));
    assert_eq!(beta(0.0), Err(SetupError::BetaOutOfRange));
    assert_eq!(beta(-0.0), Err(SetupError::BetaOutOfRange));
    assert_eq!(beta(-0.5), Err(SetupError::BetaOutOfRange));
    assert_eq!(beta(1.0000001), Err(SetupError::BetaOutOfRange));
    assert_eq!(beta(f32::INFINITY), Err(SetupError::BetaOutOfRange));
    assert_eq!(beta(f32::NAN), Err(SetupError::BetaOutOfRange));
    // Only the strategy that uses it asks for it.
    let two = 2.0f32.to_bits();
    assert_eq!(check_setup(FilterStrategy::Multihop, true, true, two, 0, false), Ok(()));
}

#[test]
fn brute_force_needs_the_base_vectors() {
    let half = 0.5f32.to_bits();
    assert_eq!(
        check_setup(FilterStrategy::NoFilter, true, true, half, 1, false),
        Err(SetupError::DataPathRequired)
    );
    assert_eq!(check_setup(FilterStrategy::NoFilter, true, true, half, 1, true), Ok(()));
}

#[test]
fn inline_strategies_are_checked() {
    let half = 0.5f32.to_bits();
    let two = 2.0f32.to_bits();
    let hybrids = [FilterStrategy::InlineBetaBf, FilterStrategy::InlineBetaBfx];
    for strategy in [FilterStrategy::InlineBeta, hybrids[0], hybrids[1]] {
        assert!(strategy.is_inline() && strategy.uses_beta());
        assert_eq!(
            check_setup(strategy, true, false, half, 9, true),
            Err(SetupError::LabelsRequired { strategy })
        );
        assert_eq!(
            check_setup(strategy, true, true, two, 9, true),
            Err(SetupError::BetaOutOfRange)
        );
        assert_eq!(
            check_setup(strategy, true, true, half, 9, false),
            Err(SetupError::DataPathRequired)
        );
        assert_eq!(check_setup(strategy, true, true, half, 9, true), Ok(()));
    }
    for strategy in hybrids {
        assert!(strategy.is_hybrid());
        assert_eq!(
            check_setup(strategy, true, true, half, 0, true),
            Err(SetupError::ThresholdRequired { strategy })
        );
    }
    assert_eq!(check_setup(FilterStrategy::InlineBeta, true, true, half, 0, false), Ok(()));
    assert!(!FilterStrategy::InlineBeta.is_hybrid());
    assert!(!FilterStrategy::Multihop.uses_beta() && FilterStrategy::Beta.uses_beta());
    assert!(!FilterStrategy::Beta.is_inline());
}

#[test]
fn inline_strategies_count_no_matching_points() {
    for strategy in [
        FilterStrategy::InlineBeta,
        FilterStrategy::InlineBetaBf,
        FilterStrategy::InlineBetaBfx,
    ] {
        assert_eq!(route_query(strategy, None, 500), SearchPath::InlineBeta);
        assert_eq!(route_query(strategy, Some(1), 500), SearchPath::InlineBeta);
        assert_eq!(search_width(strategy, true, 50, 10), Some(10));
    }
    assert_eq!(strategy_label(FilterStrategy::InlineBeta, true), "inline-beta");
    assert_eq!(strategy_label(FilterStrategy::InlineBetaBf, true), "inline-beta-bf");
    assert_eq!(strategy_label(FilterStrategy::InlineBetaBfx, true), "inline-beta-bfx");
}

#[test]
fn label_files_come_in_pairs() {
    assert_eq!(is_filtered(true, true), Ok(true));
    assert_eq!(is_filtered(false, false), Ok(false));
    assert_eq!(is_filtered(true, false), Err(SetupError::LabelsNotPaired));
    assert_eq!(is_filtered(false, true), Err(SetupError::LabelsNotPaired));
}

#[test]
fn strategies_have_labels() {
    assert_eq!(strategy_label(FilterStrategy::NoFilter, true), "post-filter");
    assert_eq!(strategy_label(FilterStrategy::NoFilter, false), "unfiltered");
    assert_eq!(strategy_label(FilterStrategy::Beta, true), "beta-filter");
    assert_eq!(strategy_label(FilterStrategy::Multihop, true), "multihop");
}

#[test]
fn filters_are_summed_up() {
    assert_eq!(
        filter_stats(&vec![5, 0, 12, 5], 6),
        FilterStats { total: 22, min: 0, max: 12, brute_forced: 3 }
    );
    assert_eq!(
        filter_stats(&vec![7], 7),
        FilterStats { total: 7, min: 7, max: 7, brute_forced: 0 }
    );
    assert_eq!(
        filter_stats(&vec![], 7),
        FilterStats { total: 0, min: 0, max: 0, brute_forced: 0 }
    );
    assert_eq!(filter_stats(&vec![usize::MAX, usize::MAX], 0).total, 2 * usize::MAX as u128);
}

#[test]
fn list_sizes_below_k_are_skipped() {
    assert_eq!(search_width(FilterStrategy::NoFilter, true, 9, 10), None);
    assert_eq!(search_width(FilterStrategy::NoFilter, true, 10, 10), Some(10));
    assert_eq!(search_width(FilterStrategy::NoFilter, true, 50, 10), Some(50));
    assert_eq!(search_width(FilterStrategy::NoFilter, false, 50, 10), Some(10));
    assert_eq!(search_width(FilterStrategy::Beta, true, 50, 10), Some(10));
    assert_eq!(search_width(FilterStrategy::Multihop, true, 50, 10), Some(10));
}

#[test]
fn selective_queries_are_brute_forced() {
    for strategy in [FilterStrategy::NoFilter, FilterStrategy::Beta, FilterStrategy::Multihop] {
        assert_eq!(route_query(strategy, Some(499), 500), SearchPath::BruteForce);
        assert_ne!(route_query(strategy, Some(500), 500), SearchPath::BruteForce);
        assert_ne!(route_query(strategy, Some(0), 0), SearchPath::BruteForce);
        assert_eq!(route_query(strategy, None, 500), SearchPath::Plain);
    }
    assert_eq!(route_query(FilterStrategy::NoFilter, Some(500), 500), SearchPath::Plain);
    assert_eq!(route_query(FilterStrategy::Beta, Some(500), 500), SearchPath::Beta);
    assert_eq!(route_query(FilterStrategy::Multihop, Some(500), 500), SearchPath::Multihop);
}

#[test]
fn buffers_are_padded_with_zeros() {
    assert_eq!(pad_ids(&vec![4, 5], 4), vec![4, 5, 0, 0]);
    assert_eq!(pad_ids(&vec![4, 5], 1), vec![4]);
    assert_eq!(pad_ids(&vec![], 0), Vec::<u32>::new());
}

#[test]
fn unfiltered_ids_are_recorded() {
    let mut pass = SearchPass::new(2, 2);
    assert_eq!(pass.ids(), &vec![0, 0, 0, 0]);
    pass.record(0, 1, SearchPath::Plain, &vec![8, 9], None);
    assert_eq!(pass.ids(), &vec![0, 0, 8, 9]);
    pass.record(0, 0, SearchPath::Plain, &vec![5, 6, 7], None);
    assert_eq!(pass.ids(), &vec![5, 6, 8, 9]);
    assert_eq!(pass.brute_forced(), 0);
}

#[test]
fn matching_ids_are_recorded() {
    let mut pass = SearchPass::new(2, 3);
    let bits = bitmap(&[2, 4, 6, 8]);
    pass.record(0, 0, SearchPath::Plain, &vec![1, 4, 3, 2, 8, 6], Some(&bits));
    assert_eq!(pass.ids(), &vec![4, 2, 8, 0, 0, 0]);
    pass.record(0, 1, SearchPath::Beta, &vec![1, 6, 3], Some(&bits));
    assert_eq!(pass.ids(), &vec![4, 2, 8, 6, 0, 0]);
}

#[test]
fn point_zero_is_recorded_where_it_matches() {
    let mut pass = SearchPass::new(1, 2);
    pass.record(0, 0, SearchPath::Plain, &vec![0, 7, 5], Some(&bitmap(&[5, 7])));
    assert_eq!(pass.ids(), &vec![7, 5]);
    let mut pass = SearchPass::new(1, 2);
    pass.record(0, 0, SearchPath::Plain, &vec![7, 0, 5], Some(&bitmap(&[0, 5, 7])));
    assert_eq!(pass.ids(), &vec![7, 0]);
}

#[test]
fn only_the_first_repetition_counts() {
    let mut pass = SearchPass::new(1, 1);
    pass.record(0, 0, SearchPath::BruteForce, &vec![3], Some(&bitmap(&[3, 4])));
    pass.record(1, 0, SearchPath::BruteForce, &vec![4], Some(&bitmap(&[3, 4])));
    assert_eq!(pass.ids(), &vec![3]);
    assert_eq!(pass.brute_forced(), 1);
}

#[test]
fn a_run_reports_the_queries_that_it_announced() {
    let bitmaps = [bitmap(&[1]), bitmap(&[1, 2, 3]), bitmap(&[2, 3])];
    let counts: Vec<usize> = bitmaps.iter().map(|bits| bits.len()).collect();
    let stats = filter_stats(&counts, 3);
    let mut pass = SearchPass::new(3, 1);
    for q in 0..3 {
        let path = route_query(FilterStrategy::Beta, Some(counts[q]), 3);
        pass.record(0, q, path, &vec![3, 1], Some(&bitmaps[q]));
    }
    assert_eq!(pass.brute_forced(), stats.brute_forced);
    assert_eq!(stats.brute_forced, 2);
    assert_eq!(pass.ids(), &vec![1, 3, 3]);
}

#[test]
fn a_brute_forced_query_fills_its_row() {
    let bits = bitmap(&[0, 2, 5]);
    let candidates = brute_force_candidates(&bits, 6);
    let distances: Vec<u32> = [2.0f32, 1.0, 3.0].iter().map(|d| d.to_bits()).collect();
    let found = brute_force_knn(&candidates, &distances, 4);
    assert_eq!(found, vec![2, 0, 5]);
    let mut pass = SearchPass::new(1, 4);
    pass.record(0, 0, SearchPath::BruteForce, &pad_ids(&found, 10), Some(&bits));
    assert_eq!(pass.ids(), &vec![2, 0, 5, 0]);
    let gt = [2, 0, 5, u32::MAX];
    assert_eq!(
        compute_recall(1, &gt, None, 4, pass.ids(), 4, 4),
        vec![QueryRecall { found: 3, total: 3 }]
    );
}

#[test]
fn a_bitmap_answers_for_points() {
    let provider = BitmapLabelProvider::new(bitmap(&[3, 64]));
    assert!(provider.is_match(3));
    assert!(provider.is_match(64));
    assert!(!provider.is_match(4));
    assert!(!provider.is_match(u32::MAX));
}

#[test]
fn a_row_without_places_takes_no_match() {
    let mut pass = SearchPass::new(2, 0);
    pass.record(0, 1, SearchPath::Plain, &vec![4, 5], Some(&bitmap(&[6])));
    assert!(pass.ids().is_empty());
}
