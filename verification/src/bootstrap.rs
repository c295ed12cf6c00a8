use crate::types::ScanRustResult;
use crate::sampler::{draw_below, seeded_sampler, xoshiro_range_draw};
use vstd::arithmetic::div_mod::{lemma_mul_mod_noop_left, lemma_mul_mod_noop_right, lemma_small_mod};
use vstd::prelude::*;

verus! {

/// `a * b` reduced modulo 2^64, as `u64::wrapping_mul` computes it.
pub open spec fn wrapped_product(a: u64, b: u64) -> u64 {
    ((a as int * b as int) % 0x1_0000_0000_0000_0000int) as u64
}

/// The seed of one resampling task, mixed from the user seed, the window
/// position, the window size and a salt that tells the uses apart.
pub open spec fn spec_seed_from_parts(seed: u64, start: usize, w: usize, salt: u64) -> u64 {
    seed ^ 0x9E37_79B9_7F4A_7C15u64 ^ wrapped_product(start as u64, 0xBF58_476D_1CE4_E5B9u64)
        ^ wrapped_product(w as u64, 0x94D0_49BB_1331_11EBu64) ^ wrapped_product(
        salt,
        0xD6E8_FD50_1B3D_F1ABu64,
    )
}

/// Deterministically mix seed components so each task gets its own random stream.
pub fn seed_from_parts(seed: u64, start: usize, w: usize, salt: u64) -> (r: u64)
    ensures
        r == spec_seed_from_parts(seed, start, w, salt),
{
    let mut x = seed ^ 0x9E37_79B9_7F4A_7C15u64;
    x = x ^ (start as u64).wrapping_mul(0xBF58_476D_1CE4_E5B9u64);
    x = x ^ (w as u64).wrapping_mul(0x94D0_49BB_1331_11EBu64);
    x = x ^ salt.wrapping_mul(0xD6E8_FD50_1B3D_F1ABu64);
    x
}

/// Salt of the seed that a window position hands to its bootstrap.
pub const WINDOW_SALT: u64 = 999;

/// Salt of the seed of each bootstrap replication.
pub const REPLICATION_SALT: u64 = 10_007;

/// Block length asked for explicitly: at least 3 and at most the pooled length.
pub open spec fn spec_requested_block_length(value: usize, m: usize) -> usize {
    if value < m {
        if value < 3 { 3 } else { value }
    } else {
        if m < 3 { 3 } else { m }
    }
}

/// Block length from the rounded root of the pooled length: at least 8 and at
/// most the pooled length.
pub open spec fn spec_default_block_length(rounded_root: usize, m: usize) -> usize {
    let b = if rounded_root < m { rounded_root } else { m };
    if b < 8 { 8 } else { b }
}

/// Clamp a requested block length: `max(3, min(value, m))`.
pub fn requested_block_length(value: usize, m: usize) -> (r: usize)
    ensures
        r == spec_requested_block_length(value, m),
        r >= 3,
{
    let b = if value < m { value } else { m };
    if b < 3 { 3 } else { b }
}

/// Clamp the default block length: `max(8, min(rounded_root, m))`, where
/// `rounded_root` is the rounded square root (`m < 100`) or cube root of `m`.
pub fn default_block_length(rounded_root: usize, m: usize) -> (r: usize)
    ensures
        r == spec_default_block_length(rounded_root, m),
        r >= 8,
{
    let b = if rounded_root < m { rounded_root } else { m };
    if b < 8 { 8 } else { b }
}

/// Shape of the tapered block bootstrap of one window pair.
#[derive(Clone, Copy, Debug)]
pub struct TbbLayout {
    /// Number of positions where a block can start in the pooled series.
    pub n_views: usize,
    /// Number of blocks drawn per replication.
    pub k: usize,
    /// Length of one block.
    pub block_len: usize,
    /// Length of one bootstrap sample (both halves together).
    pub total_len: usize,
    /// Window size (length of each half).
    pub w: usize,
}

impl TbbLayout {
    /// The layout fits a pooled series of length `pooled_len`.
    pub open spec fn wf(self, pooled_len: usize) -> bool {
        &&& self.block_len > 0
        &&& self.block_len <= pooled_len
        &&& self.n_views == pooled_len - self.block_len + 1
        &&& self.total_len == 2 * self.w
        &&& self.k * self.block_len >= self.total_len
        &&& (self.k - 1) * self.block_len < self.total_len || self.k == 0
    }
}

/// Lay out the blocks of a tapered block bootstrap over a pooled series of
/// length `pooled_len` for two halves of length `w`.
pub fn tbb_layout(pooled_len: usize, w: usize, block_len: usize) -> (r: ScanRustResult<TbbLayout>)
    requires
        block_len > 0,
        pooled_len >= block_len ==> 2 * w + block_len <= usize::MAX,
    ensures
        pooled_len < block_len ==> (r matches Err(e) && e@
            == "reference series is shorter than block length"@),
        pooled_len >= block_len ==> (r matches Ok(l) && l.wf(pooled_len) && l.w == w && l.block_len
            == block_len && l.k == (2 * w + block_len - 1) / (block_len as int)),
{
    if pooled_len < block_len {
        return Err("reference series is shorter than block length".to_string());
    }
    let n_views = pooled_len - block_len + 1;
    let total_len = 2 * w;
    let k = (total_len + block_len - 1) / block_len;
    proof {
        let t = total_len as int;
        let b = block_len as int;
        assert(k * b >= t && (k == 0 || (k - 1) * b < t)) by (nonlinear_arith)
            requires
                k == (t + b - 1) / b,
                b > 0,
                t >= 0,
        ;
    }
    Ok(TbbLayout { n_views, k, block_len, total_len, w })
}

/// `count` draws, all below `bound`.
pub open spec fn same_bounds(bound: usize, count: int) -> Seq<usize> {
    Seq::new(count as nat, |i: int| bound)
}

/// Start positions of the `k` blocks of one replication: the first `k` draws
/// below `n_views` from the generator seeded with `seed`.
pub open spec fn block_starts(seed: u64, n_views: usize, k: usize) -> Seq<usize> {
    Seq::new(k as nat, |b: int| xoshiro_range_draw(seed, same_bounds(n_views, b), n_views))
}

/// The source positions of one bootstrap sample: position `p` lies in block
/// `p / block_len`, at offset `p % block_len` from that block's start.
pub open spec fn sample_positions(rep_seed: u64, layout: TbbLayout) -> Seq<(usize, usize)> {
    Seq::new(
        layout.total_len as nat,
        |p: int|
            (
                (block_starts(rep_seed, layout.n_views, layout.k)[p / (layout.block_len as int)] + p
                    % (layout.block_len as int)) as usize,
                (p % (layout.block_len as int)) as usize,
            ),
    )
}

/// Source positions of one bootstrap sample: entry `p` pairs the index in the
/// pooled series that fills position `p` with the index into the taper window.
///
/// The sample is made of `k` blocks of `block_len` consecutive pooled values,
/// each block starting at a position drawn from a generator seeded with
/// `rep_seed`, cut to `total_len` values.
pub fn bootstrap_positions(rep_seed: u64, layout: TbbLayout, pooled_len: usize) -> (r: Vec<
    (usize, usize),
>)
    requires
        layout.wf(pooled_len),
    ensures
        r@.len() == layout.total_len,
        forall|p: int|
            0 <= p < r@.len() ==> {
                &&& (#[trigger] r@[p]).1 == p % (layout.block_len as int)
                &&& r@[p].0 < pooled_len
                &&& r@[p].0 - r@[p].1 < layout.n_views
            },
        forall|p: int|
            0 <= p < r@.len() ==> #[trigger] r@[p].0 - r@[p].1 == block_starts(
                rep_seed,
                layout.n_views,
                layout.k,
            )[p / (layout.block_len as int)],
        r@ == sample_positions(rep_seed, layout),
{
    let ghost starts = block_starts(rep_seed, layout.n_views, layout.k);
    let mut sampler = seeded_sampler(rep_seed);
    let bl = layout.block_len;
    let mut out: Vec<(usize, usize)> = Vec::new();
    let mut block: usize = 0;
    assert(same_bounds(layout.n_views, 0) =~= Seq::<usize>::empty());
    while block < layout.k
        invariant
            layout.wf(pooled_len),
            bl == layout.block_len,
            0 <= block <= layout.k,
            starts == block_starts(rep_seed, layout.n_views, layout.k),
            sampler@ == (rep_seed, same_bounds(layout.n_views, block as int)),
            out@.len() == if block * bl < layout.total_len { block * bl } else { layout.total_len as int },
            forall|p: int|
                0 <= p < out@.len() ==> {
                    &&& (#[trigger] out@[p]).1 == p % (bl as int)
                    &&& out@[p].0 < pooled_len
                    &&& out@[p].0 - out@[p].1 < layout.n_views
                    &&& out@[p].0 - out@[p].1 == starts[p / (bl as int)]
                },
        decreases layout.k - block,
    {
        let start = draw_below(&mut sampler, layout.n_views);
        proof {
            assert(start == starts[block as int]);
            assert(same_bounds(layout.n_views, block as int).push(layout.n_views) =~= same_bounds(
                layout.n_views,
                block + 1,
            ));
            assert(block * bl + bl == (block + 1) * bl) by (nonlinear_arith);
            assert(block < layout.k);
            assert((block + 1) * bl <= layout.k * bl) by (nonlinear_arith)
                requires
                    block + 1 <= layout.k,
            ;
        }
        let mut j: usize = 0;
        let ghost base = out@.len();
        while j < bl && out.len() < layout.total_len
            invariant
                layout.wf(pooled_len),
                bl == layout.block_len,
                block < layout.k,
                start < layout.n_views,
                start == starts[block as int],
                base == if block * bl < layout.total_len { block * bl } else { layout.total_len as int },
                0 <= j <= bl,
                out@.len() == base + j || (out@.len() == layout.total_len && base + j >= layout.total_len),
                out@.len() <= layout.total_len,
                out@.len() >= base,
                forall|p: int|
                    0 <= p < out@.len() ==> {
                        &&& (#[trigger] out@[p]).1 == p % (bl as int)
                        &&& out@[p].0 < pooled_len
                        &&& out@[p].0 - out@[p].1 < layout.n_views
                        &&& out@[p].0 - out@[p].1 == starts[p / (bl as int)]
                    },
            decreases bl - j,
        {
            let ghost p: int = out@.len() as int;
            proof {
                assert(base == block * bl);
                assert(p == base + j);
                assert(p % (bl as int) == j && p / (bl as int) == block) by (nonlinear_arith)
                    requires
                        p == block * bl + j,
                        0 <= j < bl,
                        bl > 0,
                        block >= 0,
                ;
            }
            out.push((start + j, j));
            j = j + 1;
        }
        proof {
            if block * bl < layout.total_len {
                if out@.len() < layout.total_len {
                    assert(out@.len() == base + bl);
                }
            }
            assert((block + 1) * bl == block * bl + bl) by (nonlinear_arith);
        }
        block = block + 1;
    }
    assert(out@ =~= sample_positions(rep_seed, layout));
    out
}

/// Source positions of bootstrap replication `rep_id`, drawn from a generator
/// seeded from the user seed, the replication's index and the window size.
///
/// Each replication's sample depends on nothing else, so the thresholds do
/// not depend on how the replications are batched or scheduled.
pub fn replication_positions(seed: u64, rep_id: usize, layout: TbbLayout, pooled_len: usize) -> (r: Vec<
    (usize, usize),
>)
    requires
        layout.wf(pooled_len),
    ensures
        r@ == sample_positions(spec_seed_from_parts(seed, rep_id, layout.w, REPLICATION_SALT), layout),
        forall|p: int|
            0 <= p < r@.len() ==> (#[trigger] r@[p]).0 < pooled_len && r@[p].1 < layout.block_len,
{
    let rep_seed = seed_from_parts(seed, rep_id, layout.w, REPLICATION_SALT);
    bootstrap_positions(rep_seed, layout, pooled_len)
}

/// Where the bootstrap threshold of a window pair can be computed.
///
/// Halves of unequal length are refused; a pair that does not fit in the
/// series gets no threshold (`Ok(false)`, an infinite threshold).
pub fn threshold_applies(series_len: usize, start: usize, w: usize, delta: usize) -> (r: ScanRustResult<bool>)
    ensures
        delta != w ==> (r matches Err(e) && e@ == "this implementation assumes delta == w"@),
        delta == w ==> r == Ok::<bool, String>(start + w + delta <= series_len),
{
    if delta != w {
        return Err("this implementation assumes delta == w".to_string());
    }
    if start > series_len || w > series_len - start || delta > series_len - start - w {
        return Ok(false);
    }
    Ok(true)
}

/// The seed of a task is the user seed mixed with each part multiplied by its
/// own odd constant modulo 2^64: `seed ^ 0x9E3779B97F4A7C15 ^ start * 0xBF58476D1CE4E5B9
/// ^ w * 0x94D049BB133111EB ^ salt * 0xD6E8FD501B3DF1AB`, products taken mod 2^64.
pub proof fn lemma_seed_mixing_formula(seed: u64, start: usize, w: usize, salt: u64)
    ensures
        spec_seed_from_parts(seed, start, w, salt) == seed ^ 0x9E37_79B9_7F4A_7C15u64 ^ ((start as int
            * 0xBF58_476D_1CE4_E5B9int) % 0x1_0000_0000_0000_0000int) as u64 ^ ((w as int
            * 0x94D0_49BB_1331_11EBint) % 0x1_0000_0000_0000_0000int) as u64 ^ ((salt as int
            * 0xD6E8_FD50_1B3D_F1ABint) % 0x1_0000_0000_0000_0000int) as u64,
{
}

/// Multiplying by the odd start constant modulo 2^64 loses nothing: the
/// start can be recovered from the product.
proof fn lemma_start_product_injective(a: u64, b: u64)
    requires
        wrapped_product(a, 0xBF58_476D_1CE4_E5B9u64) == wrapped_product(b, 0xBF58_476D_1CE4_E5B9u64),
    ensures
        a == b,
{
    lemma_undo_start_product(a as int);
    lemma_undo_start_product(b as int);
}

/// Multiplying the product by the inverse of the start constant modulo 2^64
/// gives the factor back.
proof fn lemma_undo_start_product(x: int)
    requires
        0 <= x < 0x1_0000_0000_0000_0000int,
    ensures
        ((x * 0xBF58_476D_1CE4_E5B9int) % 0x1_0000_0000_0000_0000int) * 0x96de_1b17_3f11_9089int
            % 0x1_0000_0000_0000_0000int == x,
{
    let m: int = 0x1_0000_0000_0000_0000int;
    let c: int = 0xBF58_476D_1CE4_E5B9int;
    let inv: int = 0x96de_1b17_3f11_9089int;
    assert((c * inv) % m == 1);
    lemma_mul_mod_noop_left(x * c, inv, m);
    vstd::arithmetic::mul::lemma_mul_is_associative(x, c, inv);
    lemma_mul_mod_noop_right(x, c * inv, m);
    lemma_small_mod(x as nat, m as nat);
}

/// Different replications (or window positions) get different seeds: for a
/// fixed user seed, window size and salt, the mixed seed determines `start`.
pub proof fn lemma_seed_distinct_starts(seed: u64, s1: usize, s2: usize, w: usize, salt: u64)
    requires
        s1 != s2,
    ensures
        spec_seed_from_parts(seed, s1, w, salt) != spec_seed_from_parts(seed, s2, w, salt),
{
    let a = wrapped_product(s1 as u64, 0xBF58_476D_1CE4_E5B9u64);
    let b = wrapped_product(s2 as u64, 0xBF58_476D_1CE4_E5B9u64);
    let x = seed ^ 0x9E37_79B9_7F4A_7C15u64;
    let y = wrapped_product(w as u64, 0x94D0_49BB_1331_11EBu64) ^ wrapped_product(salt, 0xD6E8_FD50_1B3D_F1ABu64);
    if spec_seed_from_parts(seed, s1, w, salt) == spec_seed_from_parts(seed, s2, w, salt) {
        let wp = wrapped_product(w as u64, 0x94D0_49BB_1331_11EBu64);
        let sp = wrapped_product(salt, 0xD6E8_FD50_1B3D_F1ABu64);
        assert(x ^ a ^ wp ^ sp == x ^ b ^ wp ^ sp);
        assert(a == b) by (bit_vector)
            requires
                x ^ a ^ wp ^ sp == x ^ b ^ wp ^ sp,
        ;
        lemma_start_product_injective(s1 as u64, s2 as u64);
        assert(s1 as u64 == s2 as u64);
    }
}

/// A requested block length is used as it is when it lies between 3 and the
/// pooled length; a shorter request gets 3 and a longer one the pooled length
/// (or 3, if the pooled length is shorter still).
pub proof fn lemma_requested_block_length_cases(value: usize, m: usize)
    ensures
        3 <= value <= m ==> spec_requested_block_length(value, m) == value,
        value < 3 ==> spec_requested_block_length(value, m) == 3,
        value > m && m >= 3 ==> spec_requested_block_length(value, m) == m,
        value > m && m < 3 ==> spec_requested_block_length(value, m) == 3,
        spec_requested_block_length(value, m) >= 3,
        spec_requested_block_length(value, m) <= value || spec_requested_block_length(value, m) == 3,
        spec_requested_block_length(value, m) <= m || spec_requested_block_length(value, m) == 3,
{
}

/// The default block length is the rounded root when it lies between 8 and
/// the pooled length; a smaller root gives 8 and a larger one the pooled
/// length (or 8, if the pooled length is shorter still).
pub proof fn lemma_default_block_length_cases(rounded_root: usize, m: usize)
    ensures
        8 <= rounded_root <= m ==> spec_default_block_length(rounded_root, m) == rounded_root,
        rounded_root < 8 ==> spec_default_block_length(rounded_root, m) == 8,
        rounded_root > m && m >= 8 ==> spec_default_block_length(rounded_root, m) == m,
        rounded_root > m && m < 8 ==> spec_default_block_length(rounded_root, m) == 8,
{
}

} // verus!
