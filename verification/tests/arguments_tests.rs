use scanr::arguments::{
    detector_arguments, nonnegative_u64, optional_positive_usize, optional_workers, positive_usize,
    single_window_arguments, usize_vec,
};
use scanr::types::ChangeType;

fn bits(values: &[f64]) -> Vec<u64> {
    values.iter().map(|v| v.to_bits()).collect()
}

#[test]
fn single_conversions() {
    assert_eq!(positive_usize(4, "n_boot").unwrap(), 4);
    assert_eq!(positive_usize(0, "n_boot").unwrap_err(), "n_boot must be positive");
    assert_eq!(positive_usize(-3, "tolerance").unwrap_err(), "tolerance must be positive");
    assert_eq!(nonnegative_u64(0, "seed").unwrap(), 0);
    assert_eq!(nonnegative_u64(i32::MAX, "seed").unwrap(), 2147483647);
    assert_eq!(nonnegative_u64(-1, "seed").unwrap_err(), "seed must be non-negative");
    assert_eq!(optional_positive_usize(0, "block_length").unwrap(), None);
    assert_eq!(optional_positive_usize(-5, "block_length").unwrap(), None);
    assert_eq!(optional_positive_usize(6, "block_length").unwrap(), Some(6));
    assert_eq!(optional_workers(-1).unwrap(), None);
    assert_eq!(optional_workers(3).unwrap(), Some(3));
}

#[test]
fn list_conversion_stops_at_first_bad_entry() {
    assert_eq!(usize_vec(vec![3, 5], "window_sizes").unwrap(), vec![3, 5]);
    assert_eq!(usize_vec(vec![], "window_sizes").unwrap(), Vec::<usize>::new());
    assert_eq!(
        usize_vec(vec![3, 0, 5], "window_sizes").unwrap_err(),
        "window_sizes must be positive"
    );
}

#[test]
fn detector_arguments_in_order() {
    let a = detector_arguments(vec![10, 20], 100, 7, 5, 0, -1, 16).unwrap();
    assert_eq!(a.window_sizes, vec![10, 20]);
    assert_eq!(a.n_boot, 100);
    assert_eq!(a.seed, 7);
    assert_eq!(a.tolerance, 5);
    assert_eq!(a.workers, None);
    assert_eq!(a.block_length, None);
    assert_eq!(a.batch_size, 16);
    assert_eq!(
        detector_arguments(vec![0], 0, -1, 0, 0, 0, 0).unwrap_err(),
        "window_sizes must be positive"
    );
    assert_eq!(
        detector_arguments(vec![1], 0, -1, 0, 0, 0, 0).unwrap_err(),
        "n_boot must be positive"
    );
    assert_eq!(
        detector_arguments(vec![1], 1, -1, 0, 0, 0, 0).unwrap_err(),
        "seed must be non-negative"
    );
    assert_eq!(
        detector_arguments(vec![1], 1, 1, 0, 0, 0, 0).unwrap_err(),
        "tolerance must be positive"
    );
    assert_eq!(
        detector_arguments(vec![1], 1, 1, 1, 4, 9, 0).unwrap_err(),
        "batch_size must be positive"
    );
    let b = detector_arguments(vec![1], 1, 1, 1, 4, 9, 1).unwrap();
    assert_eq!(b.workers, Some(4));
    assert_eq!(b.block_length, Some(9));
}

#[test]
fn single_window_arguments_in_order() {
    let series = bits(&[1.0, 2.0, 3.0, 4.0, 5.0]);
    let a = single_window_arguments(&series, 2, 50, 3, "Mean", 0, 8).unwrap();
    assert_eq!(a.w, 2);
    assert_eq!(a.n_boot, 50);
    assert_eq!(a.seed, 3);
    assert_eq!(a.change_type, ChangeType::Mean);
    assert_eq!(a.block_length, None);
    assert_eq!(a.batch_size, 8);
    assert_eq!(
        single_window_arguments(&bits(&[1.0]), 0, 0, -1, "x", 0, 0).unwrap_err(),
        "series must contain at least 3 values"
    );
    assert_eq!(
        single_window_arguments(&series, 0, 0, -1, "x", 0, 0).unwrap_err(),
        "window_size must be positive"
    );
    assert_eq!(
        single_window_arguments(&series, 3, 0, -1, "x", 0, 0).unwrap_err(),
        "window_size must satisfy 2 * window_size <= length(x)"
    );
    assert_eq!(
        single_window_arguments(&series, 2, 0, -1, "x", 0, 0).unwrap_err(),
        "n_boot must be positive"
    );
    assert_eq!(
        single_window_arguments(&series, 2, 1, -1, "x", 0, 0).unwrap_err(),
        "seed must be non-negative"
    );
    assert_eq!(
        single_window_arguments(&series, 2, 1, 0, "x", 0, 0).unwrap_err(),
        "change_type must be one of {'mean', 'var', 'distribution'}, got \"x\""
    );
    assert_eq!(
        single_window_arguments(&series, 2, 1, 0, "var", 4, 0).unwrap_err(),
        "batch_size must be positive"
    );
}
