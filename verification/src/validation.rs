use crate::types::ScanRustResult;
use vstd::prelude::*;

verus! {

/// The biased exponent field of an IEEE 754 double, given its bit pattern.
pub open spec fn exponent_field(bits: u64) -> u64 {
    (bits >> 52u64) & 0x7ffu64
}

/// A double is finite (neither infinite nor NaN) exactly when its exponent
/// field is not all ones.
pub open spec fn is_finite_bits(bits: u64) -> bool {
    exponent_field(bits) != 0x7ffu64
}

/// Every value of `values` (bit patterns of doubles) is finite.
pub open spec fn all_finite(values: Seq<u64>) -> bool {
    forall|i: int| 0 <= i < values.len() ==> is_finite_bits(#[trigger] values[i])
}

/// What is wrong with a series (given as bit patterns of doubles), if anything.
pub open spec fn series_problem(series: Seq<u64>) -> Option<Seq<char>> {
    if series.len() < 3 {
        Some("series must contain at least 3 values"@)
    } else if !all_finite(series) {
        Some("series contains NaN or infinite values; clean/impute before calling scan"@)
    } else {
        None
    }
}

/// What is wrong with a list of window sizes, if anything.
pub open spec fn window_sizes_problem(window_sizes: Seq<usize>) -> Option<Seq<char>> {
    if window_sizes.len() == 0 {
        Some("window_sizes must not be empty"@)
    } else if window_sizes.contains(0usize) {
        Some("window_sizes must be positive, got 0"@)
    } else {
        None
    }
}

/// `r` reports `problem`: an error with that message, or success when there is none.
pub open spec fn reports(r: Result<(), String>, problem: Option<Seq<char>>) -> bool {
    match problem {
        Some(m) => r matches Err(e) && e@ == m,
        None => r is Ok,
    }
}

/// Decide finiteness of one double from its bit pattern (`f64::to_bits`).
pub fn finite_bits(bits: u64) -> (r: bool)
    ensures
        r == is_finite_bits(bits),
{
    (bits >> 52u64) & 0x7ffu64 != 0x7ffu64
}

/// Whether all the doubles (as bit patterns) of `values` are finite.
pub fn check_all_finite(values: &[u64]) -> (r: bool)
    ensures
        r == all_finite(values@),
{
    let mut i: usize = 0;
    while i < values.len()
        invariant
            0 <= i <= values@.len(),
            forall|j: int| 0 <= j < i ==> is_finite_bits(#[trigger] values@[j]),
        decreases values@.len() - i,
    {
        if !finite_bits(values[i]) {
            return false;
        }
        i = i + 1;
    }
    true
}

/// Validate the input time series before any scanning or refinement.
///
/// The series is given as the bit patterns (`f64::to_bits`) of its values.
pub fn validate_series(series: &[u64]) -> (r: ScanRustResult<()>)
    ensures
        reports(r, series_problem(series@)),
{
    if series.len() < 3 {
        return Err("series must contain at least 3 values".to_string());
    }
    if !check_all_finite(series) {
        return Err(
            "series contains NaN or infinite values; clean/impute before calling scan".to_string(),
        );
    }
    Ok(())
}

/// Window sizes are usable: at least one is given, and none is zero.
pub fn validate_window_sizes(window_sizes: &[usize]) -> (r: ScanRustResult<()>)
    ensures
        reports(r, window_sizes_problem(window_sizes@)),
{
    if window_sizes.len() == 0 {
        return Err("window_sizes must not be empty".to_string());
    }
    let mut i: usize = 0;
    while i < window_sizes.len()
        invariant
            0 <= i <= window_sizes@.len(),
            forall|j: int| 0 <= j < i ==> window_sizes@[j] != 0,
        decreases window_sizes@.len() - i,
    {
        if window_sizes[i] == 0 {
            assert(window_sizes@[i as int] == 0);
            return Err("window_sizes must be positive, got 0".to_string());
        }
        i = i + 1;
    }
    Ok(())
}

/// The two samples compared by the Wasserstein statistic are usable: both
/// non-empty, and all their values (as bit patterns) finite.
pub fn validate_samples(left: &[u64], right: &[u64]) -> (r: ScanRustResult<()>)
    ensures
        (left@.len() == 0 || right@.len() == 0) ==> (r matches Err(e) && e@
            == "left and right samples must be non-empty"@),
        left@.len() > 0 && right@.len() > 0 && !(all_finite(left@) && all_finite(right@)) ==> (r matches Err(e)
            && e@ == "samples contain NaN or infinite values"@),
        left@.len() > 0 && right@.len() > 0 && all_finite(left@) && all_finite(right@) ==> r is Ok,
{
    if left.len() == 0 || right.len() == 0 {
        return Err("left and right samples must be non-empty".to_string());
    }
    if !check_all_finite(left) || !check_all_finite(right) {
        return Err("samples contain NaN or infinite values".to_string());
    }
    Ok(())
}

/// The refinement statistics need at least three observations.
pub fn require_min_points(len: usize) -> (r: ScanRustResult<()>)
    ensures
        len < 3 ==> (r matches Err(e) && e@ == "need at least 3 points"@),
        len >= 3 ==> r is Ok,
{
    if len < 3 {
        Err("need at least 3 points".to_string())
    } else {
        Ok(())
    }
}

/// A series passes validation exactly when it has at least 3 values and no
/// value, at any index, has an all-ones exponent field (infinite or NaN); a
/// long enough series with such a value anywhere gets the NaN/infinite error.
pub proof fn lemma_series_validation(series: Seq<u64>, r: Result<(), String>)
    requires
        reports(r, series_problem(series)),
    ensures
        r is Ok <==> (series.len() >= 3 && forall|i: int|
            0 <= i < series.len() ==> (#[trigger] series[i] >> 52u64) & 0x7ffu64 != 0x7ffu64),
        series.len() < 3 ==> (r matches Err(e) && e@ == "series must contain at least 3 values"@),
        forall|i: int|
            series.len() >= 3 && 0 <= i < series.len() && (#[trigger] series[i] >> 52u64) & 0x7ffu64
                == 0x7ffu64 ==> (r matches Err(e) && e@
                == "series contains NaN or infinite values; clean/impute before calling scan"@),
{
}

/// Window sizes pass validation exactly when the list is not empty and every
/// entry, at any index, is positive; a zero anywhere in a non-empty list gets
/// the "must be positive" error.
pub proof fn lemma_window_sizes_validation(window_sizes: Seq<usize>, r: Result<(), String>)
    requires
        reports(r, window_sizes_problem(window_sizes)),
    ensures
        r is Ok <==> (window_sizes.len() > 0 && forall|i: int|
            0 <= i < window_sizes.len() ==> #[trigger] window_sizes[i] > 0),
        window_sizes.len() == 0 ==> (r matches Err(e) && e@ == "window_sizes must not be empty"@),
        forall|i: int|
            0 <= i < window_sizes.len() && #[trigger] window_sizes[i] == 0 ==> (r matches Err(e) && e@
                == "window_sizes must be positive, got 0"@),
{
    if window_sizes.len() > 0 && !window_sizes.contains(0usize) {
        assert forall|i: int| 0 <= i < window_sizes.len() implies #[trigger] window_sizes[i] > 0 by {
            if window_sizes[i] == 0 {
                assert(window_sizes.contains(0usize));
            }
        }
    }
    assert forall|i: int| 0 <= i < window_sizes.len() && #[trigger] window_sizes[i] == 0 implies (r matches Err(
        e,
    ) && e@ == "window_sizes must be positive, got 0"@) by {
        assert(window_sizes.contains(0usize));
    }
}

} // verus!
