use label_filter::index_build::{build_threads, reports_progress, resolve_threads};

#[test]
fn requested_threads_are_kept() {
    assert_eq!(resolve_threads(3, 8), 3);
    assert_eq!(resolve_threads(0, 8), 8);
    assert_eq!(build_threads(5), 5);
    assert_eq!(build_threads(0), num_cpus::get());
    assert!(build_threads(0) >= 1);
}

#[test]
fn progress_is_reported_in_steps() {
    assert!(reports_progress(10000, 25000));
    assert!(reports_progress(20000, 25000));
    assert!(reports_progress(25000, 25000));
    assert!(!reports_progress(9999, 25000));
    assert!(!reports_progress(1, 25000));
}
