use crate::types::{
    ascii_lower, change_type_error_text, spec_change_type, to_ascii_lowercase, ChangeType,
    ScanRustResult,
};
use crate::validation::{series_problem, validate_series, validate_window_sizes, window_sizes_problem};
use vstd::prelude::*;

verus! {

/// The index reported inside a flagged block: the block start plus the
/// refined offset, kept strictly inside the block.
pub open spec fn clamped_change_point(start: int, k_loc: int, w: int) -> int {
    let raw = start + k_loc;
    if raw < start + 1 {
        start + 1
    } else if raw > start + 2 * w - 1 {
        start + 2 * w - 1
    } else {
        raw
    }
}

/// A refined offset strictly inside the block is reported as it is, at
/// `start + k`; an offset of 0 moves to the block's second index and one at or
/// past the block's end moves to its last index.
pub proof fn lemma_change_point_within_block(start: int, k: int, w: int)
    requires
        w > 0,
    ensures
        1 <= k <= 2 * w - 1 ==> clamped_change_point(start, k, w) == start + k,
        k < 1 ==> clamped_change_point(start, k, w) == start + 1,
        k > 2 * w - 1 ==> clamped_change_point(start, k, w) == start + 2 * w - 1,
        start < clamped_change_point(start, k, w) < start + 2 * w,
{
}

/// Where the scan moves after the block at `start`: past the whole block
/// when a change was flagged there, else by one window.
pub open spec fn next_start(start: int, flagged: bool, w: int) -> int {
    if flagged {
        start + 2 * w
    } else {
        start + w
    }
}

/// The examined blocks: the first starts the series, every next one follows
/// from the decision on the previous one, all lie inside the series, and the
/// scan stands where the last decision sent it.
pub open spec fn starts_follow(n: int, w: int, position: int, starts: Seq<usize>, flags: Seq<bool>) -> bool {
    &&& w > 0
    &&& flags.len() == starts.len()
    &&& starts.len() > 0 ==> starts[0] == 0
    &&& forall|i: int|
        0 <= i < starts.len() - 1 ==> #[trigger] starts[i + 1] == next_start(starts[i] as int, flags[i], w)
    &&& position == if starts.len() == 0 {
        0
    } else {
        next_start(starts.last() as int, flags.last(), w)
    }
    &&& forall|i: int| 0 <= i < starts.len() ==> #[trigger] starts[i] + 2 * w <= n
}

/// The reports: one region and one change point per flagged block, each
/// change point strictly inside its region, the regions in order, disjoint,
/// and all behind the current position.
pub open spec fn regions_follow(
    w: int,
    position: int,
    starts: Seq<usize>,
    flags: Seq<bool>,
    cps: Seq<usize>,
    regions: Seq<(usize, usize)>,
) -> bool {
    &&& cps.len() == regions.len()
    &&& forall|k: int|
        0 <= k < regions.len() ==> {
            &&& (#[trigger] regions[k]).1 == regions[k].0 + 2 * w
            &&& regions[k].0 < cps[k] < regions[k].1
            &&& regions[k].1 <= position
        }
    &&& forall|a: int, b: int|
        0 <= a < b < regions.len() ==> #[trigger] regions[a].1 <= #[trigger] regions[b].0
    &&& regions.map_values(|r: (usize, usize)| r.0) == flagged_starts(starts, flags)
}

/// The starts of the flagged blocks, in order.
pub open spec fn flagged_starts(starts: Seq<usize>, flags: Seq<bool>) -> Seq<usize>
    decreases starts.len(),
{
    if starts.len() == 0 {
        Seq::empty()
    } else {
        let prev = flagged_starts(starts.drop_last(), flags.drop_last());
        if flags[starts.len() - 1] {
            prev.push(starts.last())
        } else {
            prev
        }
    }
}

/// The invariant of a scan over a series of length `n` with window size `w`,
/// currently at `position`, after examining the blocks starting at `starts`
/// (flagged as in `flags`) and reporting `cps` in the blocks `regions`.
pub open spec fn scan_invariant(
    n: int,
    w: int,
    position: int,
    starts: Seq<usize>,
    flags: Seq<bool>,
    cps: Seq<usize>,
    regions: Seq<(usize, usize)>,
) -> bool {
    &&& starts_follow(n, w, position, starts, flags)
    &&& regions_follow(w, position, starts, flags, cps, regions)
}

proof fn lemma_starts_push(n: int, w: int, start: int, starts: Seq<usize>, flags: Seq<bool>, flagged: bool)
    requires
        starts_follow(n, w, start, starts, flags),
        0 <= start,
        start + 2 * w <= n,
        n <= usize::MAX,
    ensures
        starts_follow(n, w, next_start(start, flagged, w), starts.push(start as usize), flags.push(flagged)),
{
    let ns = starts.push(start as usize);
    let nf = flags.push(flagged);
    let k0 = starts.len() as int;
    assert(ns[k0] == start && nf[k0] == flagged);
    assert forall|i: int| 0 <= i < ns.len() - 1 implies #[trigger] ns[i + 1] == next_start(
        ns[i] as int,
        nf[i],
        w,
    ) by {
        if i < k0 - 1 {
            assert(ns[i + 1] == starts[i + 1] && ns[i] == starts[i] && nf[i] == flags[i]);
        } else {
            assert(ns[i] == starts.last() && nf[i] == flags.last());
        }
    }
    assert forall|i: int| 0 <= i < ns.len() implies #[trigger] ns[i] + 2 * w <= n by {
        if i < k0 {
            assert(ns[i] == starts[i]);
        }
    }
}

proof fn lemma_regions_unflagged(
    w: int,
    start: int,
    starts: Seq<usize>,
    flags: Seq<bool>,
    cps: Seq<usize>,
    regions: Seq<(usize, usize)>,
)
    requires
        regions_follow(w, start, starts, flags, cps, regions),
        w > 0,
        0 <= start <= usize::MAX,
        flags.len() == starts.len(),
    ensures
        regions_follow(w, start + w, starts.push(start as usize), flags.push(false), cps, regions),
{
    let ns = starts.push(start as usize);
    let nf = flags.push(false);
    assert(ns.drop_last() =~= starts);
    assert(nf.drop_last() =~= flags);
    assert(flagged_starts(ns, nf) == flagged_starts(starts, flags));
}

proof fn lemma_regions_flagged(
    w: int,
    start: int,
    starts: Seq<usize>,
    flags: Seq<bool>,
    cps: Seq<usize>,
    regions: Seq<(usize, usize)>,
    cp: usize,
)
    requires
        regions_follow(w, start, starts, flags, cps, regions),
        w > 0,
        0 <= start,
        start + 2 * w <= usize::MAX,
        flags.len() == starts.len(),
        start < cp < start + 2 * w,
    ensures
        regions_follow(
            w,
            start + 2 * w,
            starts.push(start as usize),
            flags.push(true),
            cps.push(cp),
            regions.push((start as usize, (start + 2 * w) as usize)),
        ),
{
    let ns = starts.push(start as usize);
    let nf = flags.push(true);
    let nc = cps.push(cp);
    let nr = regions.push((start as usize, (start + 2 * w) as usize));
    assert(ns.drop_last() =~= starts);
    assert(nf.drop_last() =~= flags);
    assert(flagged_starts(ns, nf) == flagged_starts(starts, flags).push(start as usize));
    assert(nr.map_values(|r: (usize, usize)| r.0) =~= regions.map_values(|r: (usize, usize)| r.0).push(
        start as usize,
    ));
    assert forall|k: int| 0 <= k < nr.len() implies {
        &&& (#[trigger] nr[k]).1 == nr[k].0 + 2 * w
        &&& nr[k].0 < nc[k] < nr[k].1
        &&& nr[k].1 <= start + 2 * w
    } by {
        if k < regions.len() {
            assert(nr[k] == regions[k] && nc[k] == cps[k]);
        }
    }
    assert forall|a: int, b: int| 0 <= a < b < nr.len() implies #[trigger] nr[a].1 <= #[trigger] nr[b].0 by {
        if b < regions.len() {
            assert(nr[a] == regions[a] && nr[b] == regions[b]);
        } else {
            assert(nr[a] == regions[a]);
        }
    }
}

/// The scan of one window size over a series of length `n`: adjacent windows
/// of length `w` are compared block by block, and the decisions (flagged or
/// not, and where the refined change point lies) are recorded.
///
/// The statistics themselves are computed by the caller; this type decides
/// which block comes next and what is reported.
pub struct WindowScan {
    n: usize,
    w: usize,
    start: usize,
    starts: Vec<usize>,
    change_points: Vec<usize>,
    localized_regions: Vec<(usize, usize)>,
    flags: Ghost<Seq<bool>>,
    offsets: Ghost<Seq<usize>>,
}

/// What a scan has done, as mathematical values.
pub struct ScanView {
    /// Length of the series being scanned.
    pub series_len: int,
    /// Window size.
    pub window: int,
    /// Start of the block to be examined next.
    pub position: int,
    /// Starts of the blocks examined so far, in order.
    pub starts: Seq<usize>,
    /// Whether each examined block was flagged.
    pub flags: Seq<bool>,
    /// Change points reported so far, in order.
    pub change_points: Seq<usize>,
    /// Blocks in which a change was reported, in order.
    pub regions: Seq<(usize, usize)>,
    /// Refined offsets recorded for the flagged blocks, in order.
    pub offsets: Seq<usize>,
}

impl View for WindowScan {
    type V = ScanView;

    open spec fn view(&self) -> ScanView {
        ScanView {
            series_len: self.series_len(),
            window: self.window(),
            position: self.position(),
            starts: self.spec_starts(),
            flags: self.spec_flags(),
            change_points: self.spec_change_points(),
            regions: self.spec_regions(),
            offsets: self.spec_offsets(),
        }
    }
}

/// Each reported change point is the clamped sum of its block start and the
/// offset recorded for that block.
pub open spec fn offsets_follow(w: int, cps: Seq<usize>, regions: Seq<(usize, usize)>, offsets: Seq<usize>) -> bool {
    &&& offsets.len() == cps.len()
    &&& forall|k: int|
        0 <= k < cps.len() ==> #[trigger] cps[k] == clamped_change_point(
            regions[k].0 as int,
            offsets[k] as int,
            w,
        )
}

impl WindowScan {
    /// Refined offsets recorded for the flagged blocks, in order.
    pub closed spec fn spec_offsets(&self) -> Seq<usize> {
        self.offsets@
    }

    /// Length of the series being scanned.
    pub closed spec fn series_len(&self) -> int {
        self.n as int
    }

    /// Window size.
    pub closed spec fn window(&self) -> int {
        self.w as int
    }

    /// Start of the block to be examined next.
    pub closed spec fn position(&self) -> int {
        self.start as int
    }

    /// Starts of the blocks examined so far, in order.
    pub closed spec fn spec_starts(&self) -> Seq<usize> {
        self.starts@
    }

    /// Whether each examined block was flagged.
    pub closed spec fn spec_flags(&self) -> Seq<bool> {
        self.flags@
    }

    /// Change points reported so far, in order.
    pub closed spec fn spec_change_points(&self) -> Seq<usize> {
        self.change_points@
    }

    /// Blocks in which a change was reported, in order.
    pub closed spec fn spec_regions(&self) -> Seq<(usize, usize)> {
        self.localized_regions@
    }

    /// The scan's invariant.
    pub open spec fn wf(&self) -> bool {
        scan_invariant(
            self.series_len(),
            self.window(),
            self.position(),
            self.spec_starts(),
            self.spec_flags(),
            self.spec_change_points(),
            self.spec_regions(),
        ) && offsets_follow(
            self.window(),
            self.spec_change_points(),
            self.spec_regions(),
            self.spec_offsets(),
        )
    }

    /// Start scanning a series of length `n` with windows of length `w`.
    pub fn new(n: usize, w: usize) -> (r: WindowScan)
        requires
            w > 0,
        ensures
            r.wf(),
            r.series_len() == n,
            r.window() == w,
            r.position() == 0,
            r.spec_starts().len() == 0,
            r.spec_change_points().len() == 0,
            r.spec_regions().len() == 0,
    {
        let scan = WindowScan {
            n,
            w,
            start: 0,
            starts: Vec::new(),
            change_points: Vec::new(),
            localized_regions: Vec::new(),
            flags: Ghost(Seq::empty()),
            offsets: Ghost(Seq::empty()),
        };
        assert(scan.localized_regions@.map_values(|r: (usize, usize)| r.0) =~= flagged_starts(
            scan.starts@,
            scan.flags@,
        ));
        scan
    }

    /// The next block to examine, as `(start, end)`, or `None` once the
    /// two windows no longer fit in the series.
    pub fn next_block(&self) -> (r: Option<(usize, usize)>)
        requires
            self.wf(),
        ensures
            self.position() + 2 * self.window() <= self.series_len() ==> r == Some(
                (self.position() as usize, (self.position() + 2 * self.window()) as usize),
            ),
            self.position() + 2 * self.window() > self.series_len() ==> r is None,
    {
        if self.start > self.n || self.w > self.n - self.start || self.w > self.n - self.start
            - self.w {
            None
        } else {
            Some((self.start, self.start + 2 * self.w))
        }
    }

    /// Record the decision for the current block: whether its statistic
    /// exceeded the threshold, and (when it did) the offset of the refined
    /// change point inside the block.
    pub fn record(&mut self, flagged: bool, k_loc: usize)
        requires
            old(self).wf(),
            old(self).position() + 2 * old(self).window() <= old(self).series_len(),
        ensures
            final(self).wf(),
            final(self).series_len() == old(self).series_len(),
            final(self).window() == old(self).window(),
            final(self).spec_starts() == old(self).spec_starts().push(old(self).position() as usize),
            final(self).spec_flags() == old(self).spec_flags().push(flagged),
            final(self).position() == next_start(old(self).position(), flagged, old(self).window()),
            flagged ==> final(self).spec_change_points() == old(self).spec_change_points().push(
                clamped_change_point(old(self).position(), k_loc as int, old(self).window()) as usize,
            ),
            flagged ==> final(self).spec_regions() == old(self).spec_regions().push(
                (
                    old(self).position() as usize,
                    (old(self).position() + 2 * old(self).window()) as usize,
                ),
            ),
            flagged ==> final(self).spec_offsets() == old(self).spec_offsets().push(k_loc),
            flagged && 1 <= k_loc <= 2 * old(self).window() - 1 ==> final(self).spec_change_points().last()
                == old(self).position() + k_loc,
            !flagged ==> final(self).spec_change_points() == old(self).spec_change_points(),
            !flagged ==> final(self).spec_regions() == old(self).spec_regions(),
            !flagged ==> final(self).spec_offsets() == old(self).spec_offsets(),
    {
        let start = self.start;
        let w = self.w;
        let block_end = start + 2 * w;
        let ghost old_starts = self.starts@;
        let ghost old_flags = self.flags@;
        let ghost old_regions = self.localized_regions@;
        self.starts.push(start);
        if flagged {
            let cp = if k_loc < 1 {
                start + 1
            } else if k_loc > 2 * w - 1 {
                block_end - 1
            } else {
                start + k_loc
            };
            self.change_points.push(cp);
            self.localized_regions.push((start, block_end));
            self.offsets = Ghost(self.offsets@.push(k_loc));
            self.start = block_end;
        } else {
            self.start = start + w;
        }
        self.flags = Ghost(self.flags@.push(flagged));
        proof {
            lemma_starts_push(self.n as int, w as int, start as int, old_starts, old_flags, flagged);
            if flagged {
                lemma_regions_flagged(
                    w as int,
                    start as int,
                    old_starts,
                    old_flags,
                    old(self).change_points@,
                    old_regions,
                    self.change_points@.last(),
                );
                assert(self.change_points@ == old(self).change_points@.push(self.change_points@.last()));
                let cps = self.change_points@;
                let regions = self.localized_regions@;
                let offs = self.offsets@;
                assert forall|k: int| 0 <= k < cps.len() implies #[trigger] cps[k] == clamped_change_point(
                    regions[k].0 as int,
                    offs[k] as int,
                    w as int,
                ) by {
                    if k < cps.len() - 1 {
                        assert(cps[k] == old(self).change_points@[k]);
                        assert(regions[k] == old_regions[k]);
                        assert(offs[k] == old(self).offsets@[k]);
                    }
                }
            } else {
                lemma_regions_unflagged(
                    w as int,
                    start as int,
                    old_starts,
                    old_flags,
                    old(self).change_points@,
                    old_regions,
                );
            }
        }
    }

    /// Hand back what the scan reported: the change points, the starts of
    /// all examined blocks, and the flagged blocks.
    pub fn finish(self) -> (r: (Vec<usize>, Vec<usize>, Vec<(usize, usize)>))
        requires
            self.wf(),
        ensures
            r.0@ == self.spec_change_points(),
            r.1@ == self.spec_starts(),
            r.2@ == self.spec_regions(),
    {
        (self.change_points, self.starts, self.localized_regions)
    }
}

/// A scan reports each change point strictly inside the block it was found
/// in, and, since it skips past every flagged block, its change points are
/// strictly increasing and its flagged blocks never overlap.
pub proof fn lemma_scan_reports_ordered(scan: &WindowScan)
    requires
        scan.wf(),
    ensures
        forall|k: int|
            0 <= k < scan.spec_regions().len() ==> {
                &&& (#[trigger] scan.spec_regions()[k]).0 < scan.spec_change_points()[k]
                &&& scan.spec_change_points()[k] < scan.spec_regions()[k].1
                &&& scan.spec_regions()[k].1 == scan.spec_regions()[k].0 + 2 * scan.window()
                &&& scan.spec_regions()[k].1 <= scan.series_len()
            },
        forall|a: int, b: int|
            0 <= a < b < scan.spec_change_points().len() ==> #[trigger] scan.spec_change_points()[a]
                < #[trigger] scan.spec_change_points()[b],
        forall|a: int, b: int|
            0 <= a < b < scan.spec_regions().len() ==> #[trigger] scan.spec_regions()[a].1
                <= #[trigger] scan.spec_regions()[b].0,
{
    let cps = scan.spec_change_points();
    let regions = scan.spec_regions();
    let starts = scan.spec_starts();
    let flags = scan.spec_flags();
    assert forall|a: int, b: int| 0 <= a < b < cps.len() implies #[trigger] cps[a] < #[trigger] cps[b] by {
        assert(regions[a].1 <= regions[b].0);
        assert(regions[a].0 < cps[a] < regions[a].1);
        assert(regions[b].0 < cps[b] < regions[b].1);
    }
    assert forall|k: int| 0 <= k < regions.len() implies (#[trigger] regions[k]).1 <= scan.series_len() by {
        lemma_flagged_starts_are_starts(starts, flags, k);
        let i = choose|i: int| 0 <= i < starts.len() && starts[i] == flagged_starts(starts, flags)[k];
        assert(regions.map_values(|r: (usize, usize)| r.0)[k] == regions[k].0);
        assert(starts[i] + 2 * scan.window() <= scan.series_len());
    }
}

proof fn lemma_flagged_starts_are_starts(starts: Seq<usize>, flags: Seq<bool>, k: int)
    requires
        flags.len() == starts.len(),
        0 <= k < flagged_starts(starts, flags).len(),
    ensures
        exists|i: int| 0 <= i < starts.len() && starts[i] == flagged_starts(starts, flags)[k],
    decreases starts.len(),
{
    let pre = flagged_starts(starts.drop_last(), flags.drop_last());
    if k < pre.len() {
        lemma_flagged_starts_are_starts(starts.drop_last(), flags.drop_last(), k);
        let i = choose|i: int|
            0 <= i < starts.drop_last().len() && starts.drop_last()[i] == pre[k];
        assert(starts[i] == starts.drop_last()[i]);
    } else {
        assert(starts[starts.len() - 1] == flagged_starts(starts, flags)[k]);
    }
}

/// Over a whole run, the flagged blocks are exactly `(s, s + 2w)` for the
/// flagged starts `s` in order, and the change point reported in each is the
/// block start plus its recorded offset, kept strictly inside the block;
/// hence the change points increase strictly and lie in `1..n`.
pub proof fn lemma_scan_run(scan: &WindowScan)
    requires
        scan.wf(),
    ensures
        ({
            let v = scan@;
            let fs = flagged_starts(v.starts, v.flags);
            &&& fs.len() == v.regions.len()
            &&& v.change_points.len() == v.regions.len()
            &&& forall|k: int|
                0 <= k < v.regions.len() ==> #[trigger] v.regions[k] == (
                    fs[k],
                    (fs[k] + 2 * v.window) as usize,
                )
            &&& forall|k: int|
                0 <= k < v.change_points.len() ==> #[trigger] v.change_points[k] == clamped_change_point(
                    fs[k] as int,
                    v.offsets[k] as int,
                    v.window,
                )
            &&& forall|k: int|
                0 <= k < v.change_points.len() ==> 1 <= #[trigger] v.change_points[k] < v.series_len
            &&& forall|a: int, b: int|
                0 <= a < b < v.change_points.len() ==> #[trigger] v.change_points[a]
                    < #[trigger] v.change_points[b]
        }),
{
    let v = scan@;
    let fs = flagged_starts(v.starts, v.flags);
    let firsts = v.regions.map_values(|r: (usize, usize)| r.0);
    assert(firsts == fs);
    lemma_scan_reports_ordered(scan);
    assert forall|k: int| 0 <= k < v.regions.len() implies #[trigger] v.regions[k] == (
        fs[k],
        (fs[k] + 2 * v.window) as usize,
    ) by {
        assert(firsts[k] == v.regions[k].0);
    }
    assert forall|k: int| 0 <= k < v.change_points.len() implies #[trigger] v.change_points[k]
        == clamped_change_point(fs[k] as int, v.offsets[k] as int, v.window) by {
        assert(firsts[k] == v.regions[k].0);
    }
    assert forall|k: int| 0 <= k < v.change_points.len() implies 1 <= #[trigger] v.change_points[k]
        < v.series_len by {
        assert(v.regions[k].0 < v.change_points[k] < v.regions[k].1);
    }
}

/// The examined blocks move forward by at least one window each time.
pub proof fn lemma_scan_moves_forward(scan: &WindowScan)
    requires
        scan.wf(),
    ensures
        forall|a: int, b: int|
            0 <= a < b < scan.spec_starts().len() ==> #[trigger] scan.spec_starts()[a] + scan.window()
                <= #[trigger] scan.spec_starts()[b],
        forall|a: int|
            0 <= a < scan.spec_starts().len() ==> #[trigger] scan.spec_starts()[a] + scan.window()
                <= scan.position(),
{
    let starts = scan.spec_starts();
    let flags = scan.spec_flags();
    let w = scan.window();
    assert forall|a: int, b: int| 0 <= a < b < starts.len() implies #[trigger] starts[a] + w
        <= #[trigger] starts[b] by {
        lemma_chain_gap(starts, flags, w, a, b);
    }
    assert forall|a: int| 0 <= a < starts.len() implies #[trigger] starts[a] + w <= scan.position() by {
        if a < starts.len() - 1 {
            lemma_chain_gap(starts, flags, w, a, starts.len() - 1);
        }
    }
}

proof fn lemma_chain_gap(starts: Seq<usize>, flags: Seq<bool>, w: int, a: int, b: int)
    requires
        w > 0,
        flags.len() == starts.len(),
        forall|i: int|
            0 <= i < starts.len() - 1 ==> #[trigger] starts[i + 1] == next_start(starts[i] as int, flags[i], w),
        0 <= a < b < starts.len(),
    ensures
        starts[a] + w <= starts[b],
    decreases b - a,
{
    let i = b - 1;
    assert(starts[i + 1] == next_start(starts[i] as int, flags[i], w));
    if a < b - 1 {
        lemma_chain_gap(starts, flags, w, a, b - 1);
    }
}

/// The window sizes scanned when none are given: 10 to 20.
pub open spec fn default_window_sizes() -> Seq<usize> {
    Seq::new(11, |i: int| (10 + i) as usize)
}

/// The message for a backend other than "thread" or "process".
pub open spec fn backend_error_text() -> Seq<char> {
    "backend must be 'thread' or 'process'. Rust uses Rayon threads internally for both options."@
}

/// What is wrong with the backend name, compared without regard to ASCII case.
pub open spec fn backend_problem(backend: Seq<char>) -> Option<Seq<char>> {
    let lowered = ascii_lower(backend);
    if lowered != "thread"@ && lowered != "process"@ {
        Some(backend_error_text())
    } else {
        None
    }
}

/// Accept the backend names "thread" and "process" (in any ASCII case);
/// both run on the same thread pool.
pub fn check_backend(backend: &str) -> (r: ScanRustResult<()>)
    ensures
        crate::validation::reports(r, backend_problem(backend@)),
{
    let lowered = to_ascii_lowercase(backend);
    if lowered != "thread".to_string() && lowered != "process".to_string() {
        return Err(
            "backend must be 'thread' or 'process'. Rust uses Rayon threads internally for both options.".to_string(),
        );
    }
    Ok(())
}

/// What a full scan runs with, once its inputs have been checked.
#[derive(Debug)]
pub struct ScanPlan {
    /// Window sizes to scan, in the order given.
    pub window_sizes: Vec<usize>,
    /// The refinement used inside flagged blocks.
    pub change_type: ChangeType,
    /// Bootstrap replications per parallel chunk (at least one).
    pub batch_size: usize,
}

/// The first problem among the inputs of a full scan, checked in order:
/// series, window sizes, backend, change type.
pub open spec fn scan_problem(
    series: Seq<u64>,
    window_sizes: Seq<usize>,
    backend: Seq<char>,
    change_type: Seq<char>,
) -> Option<Seq<char>> {
    if series_problem(series) is Some {
        series_problem(series)
    } else if window_sizes_problem(window_sizes) is Some {
        window_sizes_problem(window_sizes)
    } else if backend_problem(backend) is Some {
        backend_problem(backend)
    } else if spec_change_type(change_type) is None {
        Some(change_type_error_text(ascii_lower(change_type)))
    } else {
        None
    }
}

/// Check the inputs of a full scan and settle its parameters.
///
/// Without window sizes, 10 to 20 are scanned; a batch size of zero becomes one.
pub fn prepare_scan(
    series: &[u64],
    window_sizes: Option<Vec<usize>>,
    backend: &str,
    change_type: &str,
    batch_size: usize,
) -> (r: ScanRustResult<ScanPlan>)
    ensures
        ({
            let ws = match window_sizes {
                Some(v) => v@,
                None => default_window_sizes(),
            };
            match scan_problem(series@, ws, backend@, change_type@) {
                Some(m) => r matches Err(e) && e@ == m,
                None => r matches Ok(plan) && plan.window_sizes@ == ws && Some(plan.change_type)
                    == spec_change_type(change_type@) && plan.batch_size == if batch_size == 0 {
                    1
                } else {
                    batch_size
                },
            }
        }),
{
    match validate_series(series) {
        Ok(()) => {},
        Err(e) => {
            return Err(e);
        },
    }
    let window_sizes: Vec<usize> = match window_sizes {
        Some(v) => v,
        None => {
            let mut v: Vec<usize> = Vec::new();
            let mut w: usize = 10;
            while w <= 20
                invariant
                    10 <= w <= 21,
                    v@ == default_window_sizes().take(w - 10),
                decreases 21 - w,
            {
                v.push(w);
                w = w + 1;
                assert(v@ =~= default_window_sizes().take(w - 10));
            }
            assert(v@ =~= default_window_sizes());
            v
        },
    };
    match validate_window_sizes(&window_sizes) {
        Ok(()) => {},
        Err(e) => {
            return Err(e);
        },
    }
    match check_backend(backend) {
        Ok(()) => {},
        Err(e) => {
            return Err(e);
        },
    }
    let ct = match ChangeType::parse(change_type) {
        Ok(t) => t,
        Err(e) => {
            return Err(e);
        },
    };
    let batch_size = if batch_size == 0 {
        1
    } else {
        batch_size
    };
    Ok(ScanPlan { window_sizes, change_type: ct, batch_size })
}

} // verus!
