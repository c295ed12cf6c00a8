use scanr::types::ChangeType;
use scanr::validation::{
    check_all_finite, finite_bits, require_min_points, validate_samples, validate_series,
    validate_window_sizes,
};

fn bits(values: &[f64]) -> Vec<u64> {
    values.iter().map(|v| v.to_bits()).collect()
}

#[test]
fn finiteness_from_bit_patterns() {
    for v in [0.0, -0.0, 1.5, -2.25e300, f64::MIN_POSITIVE, f64::MAX, 5e-324] {
        assert!(finite_bits(v.to_bits()), "{v}");
    }
    for v in [f64::NAN, f64::INFINITY, f64::NEG_INFINITY, -f64::NAN] {
        assert!(!finite_bits(v.to_bits()), "{v}");
    }
    assert!(check_all_finite(&bits(&[1.0, 2.0])));
    assert!(!check_all_finite(&bits(&[1.0, f64::INFINITY])));
    assert!(check_all_finite(&[]));
}

#[test]
fn series_checks() {
    assert!(validate_series(&bits(&[1.0, 2.0, 3.0])).is_ok());
    assert_eq!(
        validate_series(&bits(&[f64::NAN, 2.0])).unwrap_err(),
        "series must contain at least 3 values"
    );
    assert_eq!(
        validate_series(&bits(&[1.0, 2.0, f64::NEG_INFINITY])).unwrap_err(),
        "series contains NaN or infinite values; clean/impute before calling scan"
    );
}

#[test]
fn window_size_checks() {
    assert!(validate_window_sizes(&[1, 5]).is_ok());
    assert_eq!(validate_window_sizes(&[]).unwrap_err(), "window_sizes must not be empty");
    assert_eq!(
        validate_window_sizes(&[4, 0, 2]).unwrap_err(),
        "window_sizes must be positive, got 0"
    );
}

#[test]
fn sample_checks() {
    assert!(validate_samples(&bits(&[1.0]), &bits(&[2.0])).is_ok());
    assert_eq!(
        validate_samples(&bits(&[]), &bits(&[f64::NAN])).unwrap_err(),
        "left and right samples must be non-empty"
    );
    assert_eq!(
        validate_samples(&bits(&[1.0]), &bits(&[f64::NAN])).unwrap_err(),
        "samples contain NaN or infinite values"
    );
}

#[test]
fn refinement_needs_three_points() {
    assert_eq!(require_min_points(2).unwrap_err(), "need at least 3 points");
    assert!(require_min_points(3).is_ok());
}

#[test]
fn change_type_names() {
    assert_eq!(ChangeType::parse("mean").unwrap(), ChangeType::Mean);
    assert_eq!(ChangeType::parse("MEAN").unwrap(), ChangeType::Mean);
    assert_eq!(ChangeType::parse("vAr").unwrap(), ChangeType::Var);
    assert_eq!(ChangeType::parse("Distribution").unwrap(), ChangeType::Distribution);
    assert_eq!(
        ChangeType::parse("Median").unwrap_err(),
        "change_type must be one of {'mean', 'var', 'distribution'}, got \"median\""
    );
    assert_eq!(
        ChangeType::parse("a\"b").unwrap_err(),
        "change_type must be one of {'mean', 'var', 'distribution'}, got \"a\\\"b\""
    );
}
