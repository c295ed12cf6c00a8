# scanr

Sequential change-point detection for long univariate time series.

- `src/` is the verified library: input checks (series values are handled as
  IEEE 754 bit patterns), argument conversion, the block-by-block window scan,
  vote counting, segment merging and leader selection, and the seeding and
  block layout of the tapered block bootstrap (random block starts are drawn
  with `rand_xoshiro`).
- `app/` holds the floating-point statistics (prefix sums, Wasserstein
  distances, CUSUM and Wasserstein refinement, tapering, percentiles,
  scores and probabilities), the Rayon thread pool and the `extendr` bindings
  that return JSON to R.
- `tests/` exercises the library on concrete inputs.
