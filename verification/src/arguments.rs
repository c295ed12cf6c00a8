use crate::types::{ascii_lower, change_type_error_text, spec_change_type, ChangeType, ScanRustResult};
use crate::validation::{series_problem, validate_series};
use vstd::prelude::*;

verus! {

/// The message for an argument that must be positive.
pub open spec fn must_be_positive(name: Seq<char>) -> Seq<char> {
    name + " must be positive"@
}

/// The message for an argument that must not be negative.
pub open spec fn must_be_nonnegative(name: Seq<char>) -> Seq<char> {
    name + " must be non-negative"@
}

fn message(name: &str, suffix: &str) -> (r: String)
    ensures
        r@ == name@ + suffix@,
{
    let mut text = name.to_string();
    text.append(suffix);
    text
}

/// Convert an integer argument that must be positive.
pub fn positive_usize(value: i32, name: &str) -> (r: ScanRustResult<usize>)
    ensures
        value <= 0 ==> (r matches Err(e) && e@ == must_be_positive(name@)),
        value > 0 ==> r == Ok::<usize, String>(value as usize),
{
    if value <= 0 {
        Err(message(name, " must be positive"))
    } else {
        Ok(value as usize)
    }
}

/// Convert an integer argument that must not be negative.
pub fn nonnegative_u64(value: i32, name: &str) -> (r: ScanRustResult<u64>)
    ensures
        value < 0 ==> (r matches Err(e) && e@ == must_be_nonnegative(name@)),
        value >= 0 ==> r == Ok::<u64, String>(value as u64),
{
    if value < 0 {
        Err(message(name, " must be non-negative"))
    } else {
        Ok(value as u64)
    }
}

/// Convert an optional positive argument: zero or less means "not given".
pub fn optional_positive_usize(value: i32, name: &str) -> (r: ScanRustResult<Option<usize>>)
    ensures
        value <= 0 ==> r == Ok::<Option<usize>, String>(None),
        value > 0 ==> r == Ok::<Option<usize>, String>(Some(value as usize)),
{
    if value <= 0 {
        Ok(None)
    } else {
        match positive_usize(value, name) {
            Ok(v) => Ok(Some(v)),
            Err(e) => Err(e),
        }
    }
}

/// Convert the worker count: zero or less lets the thread pool choose.
pub fn optional_workers(value: i32) -> (r: ScanRustResult<Option<usize>>)
    ensures
        value <= 0 ==> r == Ok::<Option<usize>, String>(None),
        value > 0 ==> r == Ok::<Option<usize>, String>(Some(value as usize)),
{
    if value <= 0 {
        Ok(None)
    } else {
        Ok(Some(value as usize))
    }
}

/// All entries of `values` are positive.
pub open spec fn all_positive(values: Seq<i32>) -> bool {
    forall|i: int| 0 <= i < values.len() ==> #[trigger] values[i] > 0
}

/// Convert a list of integers that must all be positive.
pub fn usize_vec(values: Vec<i32>, name: &str) -> (r: ScanRustResult<Vec<usize>>)
    ensures
        !all_positive(values@) ==> (r matches Err(e) && e@ == must_be_positive(name@)),
        all_positive(values@) ==> (r matches Ok(v) && v@.len() == values@.len() && forall|i: int|
            0 <= i < values@.len() ==> #[trigger] v@[i] as int == values@[i] as int),
{
    let mut out: Vec<usize> = Vec::new();
    let mut i: usize = 0;
    while i < values.len()
        invariant
            0 <= i <= values@.len(),
            out@.len() == i,
            forall|j: int| 0 <= j < i ==> #[trigger] values@[j] > 0,
            forall|j: int| 0 <= j < i ==> #[trigger] out@[j] as int == values@[j] as int,
        decreases values@.len() - i,
    {
        match positive_usize(values[i], name) {
            Ok(v) => out.push(v),
            Err(e) => {
                assert(!all_positive(values@));
                return Err(e);
            },
        }
        i = i + 1;
    }
    assert(all_positive(values@));
    Ok(out)
}

/// Integer arguments of a full scan, converted.
#[derive(Debug)]
pub struct DetectorArguments {
    pub window_sizes: Vec<usize>,
    pub n_boot: usize,
    pub seed: u64,
    pub tolerance: usize,
    pub workers: Option<usize>,
    pub block_length: Option<usize>,
    pub batch_size: usize,
}

/// The first problem among the integer arguments of a full scan, in the
/// order in which they are converted.
pub open spec fn detector_arguments_problem(
    window_sizes: Seq<i32>,
    n_boot: i32,
    seed: i32,
    tolerance: i32,
    batch_size: i32,
) -> Option<Seq<char>> {
    if !all_positive(window_sizes) {
        Some(must_be_positive("window_sizes"@))
    } else if n_boot <= 0 {
        Some(must_be_positive("n_boot"@))
    } else if seed < 0 {
        Some(must_be_nonnegative("seed"@))
    } else if tolerance <= 0 {
        Some(must_be_positive("tolerance"@))
    } else if batch_size <= 0 {
        Some(must_be_positive("batch_size"@))
    } else {
        None
    }
}

/// Zero or less means "not given".
pub open spec fn optional_value(value: i32) -> Option<usize> {
    if value <= 0 {
        None
    } else {
        Some(value as usize)
    }
}

/// Convert the integer arguments of a full scan, reporting the first bad one.
pub fn detector_arguments(
    window_sizes: Vec<i32>,
    n_boot: i32,
    seed: i32,
    tolerance: i32,
    workers: i32,
    block_length: i32,
    batch_size: i32,
) -> (r: ScanRustResult<DetectorArguments>)
    ensures
        match detector_arguments_problem(window_sizes@, n_boot, seed, tolerance, batch_size) {
            Some(m) => r matches Err(e) && e@ == m,
            None => r matches Ok(a) && {
                &&& a.window_sizes@.len() == window_sizes@.len()
                &&& forall|i: int|
                    0 <= i < window_sizes@.len() ==> #[trigger] a.window_sizes@[i] as int
                        == window_sizes@[i] as int
                &&& a.n_boot as int == n_boot as int
                &&& a.seed as int == seed as int
                &&& a.tolerance as int == tolerance as int
                &&& a.workers == optional_value(workers)
                &&& a.block_length == optional_value(block_length)
                &&& a.batch_size as int == batch_size as int
            },
        },
{
    let window_sizes = match usize_vec(window_sizes, "window_sizes") {
        Ok(v) => v,
        Err(e) => {
            return Err(e);
        },
    };
    let n_boot = match positive_usize(n_boot, "n_boot") {
        Ok(v) => v,
        Err(e) => {
            return Err(e);
        },
    };
    let seed = match nonnegative_u64(seed, "seed") {
        Ok(v) => v,
        Err(e) => {
            return Err(e);
        },
    };
    let tolerance = match positive_usize(tolerance, "tolerance") {
        Ok(v) => v,
        Err(e) => {
            return Err(e);
        },
    };
    let workers = match optional_workers(workers) {
        Ok(v) => v,
        Err(e) => {
            return Err(e);
        },
    };
    let block_length = match optional_positive_usize(block_length, "block_length") {
        Ok(v) => v,
        Err(e) => {
            return Err(e);
        },
    };
    let batch_size = match positive_usize(batch_size, "batch_size") {
        Ok(v) => v,
        Err(e) => {
            return Err(e);
        },
    };
    Ok(DetectorArguments { window_sizes, n_boot, seed, tolerance, workers, block_length, batch_size })
}

/// Arguments of a scan with a single window size, checked and converted.
#[derive(Debug)]
pub struct SingleWindowArguments {
    pub w: usize,
    pub n_boot: usize,
    pub seed: u64,
    pub change_type: ChangeType,
    pub block_length: Option<usize>,
    pub batch_size: usize,
}

/// The message for a window too large for the series.
pub open spec fn window_too_large_text() -> Seq<char> {
    "window_size must satisfy 2 * window_size <= length(x)"@
}

/// The first problem among the arguments of a single-window scan, in the
/// order in which they are checked.
pub open spec fn single_window_problem(
    series: Seq<u64>,
    window_size: i32,
    n_boot: i32,
    seed: i32,
    change_type: Seq<char>,
    batch_size: i32,
) -> Option<Seq<char>> {
    if series_problem(series) is Some {
        series_problem(series)
    } else if window_size <= 0 {
        Some(must_be_positive("window_size"@))
    } else if 2 * window_size > series.len() {
        Some(window_too_large_text())
    } else if n_boot <= 0 {
        Some(must_be_positive("n_boot"@))
    } else if seed < 0 {
        Some(must_be_nonnegative("seed"@))
    } else if spec_change_type(change_type) is None {
        Some(change_type_error_text(ascii_lower(change_type)))
    } else if batch_size <= 0 {
        Some(must_be_positive("batch_size"@))
    } else {
        None
    }
}

/// Check and convert the arguments of a single-window scan, reporting the
/// first problem.
pub fn single_window_arguments(
    series: &[u64],
    window_size: i32,
    n_boot: i32,
    seed: i32,
    change_type: &str,
    block_length: i32,
    batch_size: i32,
) -> (r: ScanRustResult<SingleWindowArguments>)
    ensures
        match single_window_problem(series@, window_size, n_boot, seed, change_type@, batch_size) {
            Some(m) => r matches Err(e) && e@ == m,
            None => r matches Ok(a) && {
                &&& a.w as int == window_size as int
                &&& 2 * a.w <= series@.len()
                &&& a.n_boot as int == n_boot as int
                &&& a.seed as int == seed as int
                &&& Some(a.change_type) == spec_change_type(change_type@)
                &&& a.block_length == optional_value(block_length)
                &&& a.batch_size as int == batch_size as int
            },
        },
{
    match validate_series(series) {
        Ok(()) => {},
        Err(e) => {
            return Err(e);
        },
    }
    let w = match positive_usize(window_size, "window_size") {
        Ok(v) => v,
        Err(e) => {
            return Err(e);
        },
    };
    if w > series.len() / 2 {
        return Err("window_size must satisfy 2 * window_size <= length(x)".to_string());
    }
    let n_boot = match positive_usize(n_boot, "n_boot") {
        Ok(v) => v,
        Err(e) => {
            return Err(e);
        },
    };
    let seed = match nonnegative_u64(seed, "seed") {
        Ok(v) => v,
        Err(e) => {
            return Err(e);
        },
    };
    let change_type = match ChangeType::parse(change_type) {
        Ok(t) => t,
        Err(e) => {
            return Err(e);
        },
    };
    let block_length = match optional_positive_usize(block_length, "block_length") {
        Ok(v) => v,
        Err(e) => {
            return Err(e);
        },
    };
    let batch_size = match positive_usize(batch_size, "batch_size") {
        Ok(v) => v,
        Err(e) => {
            return Err(e);
        },
    };
    Ok(SingleWindowArguments { w, n_boot, seed, change_type, block_length, batch_size })
}

} // verus!
