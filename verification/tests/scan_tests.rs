use scanr::detect::{check_backend, prepare_scan, WindowScan};
use scanr::types::ChangeType;

fn bits(values: &[f64]) -> Vec<u64> {
    values.iter().map(|v| v.to_bits()).collect()
}

#[test]
fn scan_walks_blocks_and_skips_flagged_ones() {
    let mut scan = WindowScan::new(10, 2);
    assert_eq!(scan.next_block(), Some((0, 4)));
    scan.record(false, 0);
    assert_eq!(scan.next_block(), Some((2, 6)));
    scan.record(true, 1);
    assert_eq!(scan.next_block(), Some((6, 10)));
    scan.record(true, 100);
    assert_eq!(scan.next_block(), None);
    let (cps, starts, regions) = scan.finish();
    assert_eq!(cps, vec![3, 9]);
    assert_eq!(starts, vec![0, 2, 6]);
    assert_eq!(regions, vec![(2, 6), (6, 10)]);
}

#[test]
fn change_point_at_block_start_moves_inside() {
    let mut scan = WindowScan::new(8, 3);
    assert_eq!(scan.next_block(), Some((0, 6)));
    scan.record(true, 0);
    assert_eq!(scan.next_block(), None);
    let (cps, starts, regions) = scan.finish();
    assert_eq!(cps, vec![1]);
    assert_eq!(starts, vec![0]);
    assert_eq!(regions, vec![(0, 6)]);
}

#[test]
fn series_shorter_than_two_windows_has_no_block() {
    let scan = WindowScan::new(5, 3);
    assert_eq!(scan.next_block(), None);
    let (cps, starts, regions) = scan.finish();
    assert!(cps.is_empty() && starts.is_empty() && regions.is_empty());
}

#[test]
fn unflagged_scan_moves_one_window_at_a_time() {
    let mut scan = WindowScan::new(9, 2);
    let mut seen = Vec::new();
    while let Some((s, e)) = scan.next_block() {
        seen.push((s, e));
        scan.record(false, 0);
    }
    assert_eq!(seen, vec![(0, 4), (2, 6), (4, 8)]);
    let (cps, starts, _) = scan.finish();
    assert!(cps.is_empty());
    assert_eq!(starts, vec![0, 2, 4]);
}

#[test]
fn backend_names_ignore_case() {
    assert!(check_backend("thread").is_ok());
    assert!(check_backend("Process").is_ok());
    assert_eq!(
        check_backend("gpu").unwrap_err(),
        "backend must be 'thread' or 'process'. Rust uses Rayon threads internally for both options."
    );
}

#[test]
fn prepare_scan_fills_defaults() {
    let series = bits(&[1.0, 2.0, 3.0, 4.0]);
    let plan = prepare_scan(&series, None, "THREAD", "Var", 0).unwrap();
    assert_eq!(plan.window_sizes, (10usize..=20usize).collect::<Vec<usize>>());
    assert_eq!(plan.change_type, ChangeType::Var);
    assert_eq!(plan.batch_size, 1);
    let plan = prepare_scan(&series, Some(vec![2, 3]), "process", "mean", 7).unwrap();
    assert_eq!(plan.window_sizes, vec![2, 3]);
    assert_eq!(plan.change_type, ChangeType::Mean);
    assert_eq!(plan.batch_size, 7);
}

#[test]
fn prepare_scan_reports_first_problem() {
    let short = bits(&[1.0, 2.0]);
    assert_eq!(
        prepare_scan(&short, Some(vec![]), "gpu", "foo", 1).unwrap_err(),
        "series must contain at least 3 values"
    );
    let nan = bits(&[1.0, f64::NAN, 3.0]);
    assert_eq!(
        prepare_scan(&nan, Some(vec![]), "gpu", "foo", 1).unwrap_err(),
        "series contains NaN or infinite values; clean/impute before calling scan"
    );
    let ok = bits(&[1.0, 2.0, 3.0]);
    assert_eq!(
        prepare_scan(&ok, Some(vec![]), "gpu", "foo", 1).unwrap_err(),
        "window_sizes must not be empty"
    );
    assert_eq!(
        prepare_scan(&ok, Some(vec![3, 0]), "gpu", "foo", 1).unwrap_err(),
        "window_sizes must be positive, got 0"
    );
    assert_eq!(
        prepare_scan(&ok, Some(vec![3]), "gpu", "foo", 1).unwrap_err(),
        "backend must be 'thread' or 'process'. Rust uses Rayon threads internally for both options."
    );
    assert_eq!(
        prepare_scan(&ok, Some(vec![3]), "thread", "Foo", 1).unwrap_err(),
        "change_type must be one of {'mean', 'var', 'distribution'}, got \"foo\""
    );
}
