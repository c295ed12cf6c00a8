use std::collections::BTreeMap;
use std::collections::HashSet;
use crate::types::{ScanRustResult, SegmentInfo};
use vstd::prelude::*;
use vstd::std_specs::cmp::OrdSpec;
use vstd::std_specs::iter::IteratorSpec;

verus! {

/// Number of keys among `ks` whose change-point list (in `d`) mentions `cp`.
pub open spec fn count_lists_with(d: Map<usize, Vec<usize>>, ks: Seq<usize>, cp: usize) -> nat
    decreases ks.len(),
{
    if ks.len() == 0 {
        0
    } else {
        count_lists_with(d, ks.drop_last(), cp) + if d[ks.last()]@.contains(cp) {
            1nat
        } else {
            0nat
        }
    }
}

/// The window sizes whose detected change points include `cp`.
pub open spec fn windows_voting_for(d: Map<usize, Vec<usize>>, cp: usize) -> Set<usize> {
    d.dom().filter(|w: usize| d[w]@.contains(cp))
}

/// `cp` was detected by at least one window size.
pub open spec fn is_candidate(d: Map<usize, Vec<usize>>, cp: usize) -> bool {
    exists|w: usize| #[trigger] d.dom().contains(w) && d[w]@.contains(cp)
}

/// The value stored at `k`, or zero where `m` has no entry.
pub open spec fn count_or_zero(m: Map<usize, usize>, k: usize) -> nat {
    if m.contains_key(k) {
        m[k] as nat
    } else {
        0
    }
}

proof fn lemma_count_bounded(d: Map<usize, Vec<usize>>, ks: Seq<usize>, cp: usize)
    ensures
        count_lists_with(d, ks, cp) <= ks.len(),
    decreases ks.len(),
{
    if ks.len() > 0 {
        lemma_count_bounded(d, ks.drop_last(), cp);
    }
}

proof fn lemma_count_positive(d: Map<usize, Vec<usize>>, ks: Seq<usize>, cp: usize)
    ensures
        count_lists_with(d, ks, cp) > 0 <==> exists|j: int|
            0 <= j < ks.len() && #[trigger] d[ks[j]]@.contains(cp),
    decreases ks.len(),
{
    if ks.len() > 0 {
        let pre = ks.drop_last();
        lemma_count_positive(d, pre, cp);
        if count_lists_with(d, pre, cp) > 0 {
            let j = choose|j: int| 0 <= j < pre.len() && #[trigger] d[pre[j]]@.contains(cp);
            assert(ks[j] == pre[j]);
        }
        if exists|j: int| 0 <= j < ks.len() && #[trigger] d[ks[j]]@.contains(cp) {
            let j = choose|j: int| 0 <= j < ks.len() && #[trigger] d[ks[j]]@.contains(cp);
            if j < ks.len() - 1 {
                assert(pre[j] == ks[j]);
            }
        }
    }
}

proof fn lemma_count_is_cardinality(d: Map<usize, Vec<usize>>, ks: Seq<usize>, cp: usize)
    requires
        ks.no_duplicates(),
    ensures
        count_lists_with(d, ks, cp) == ks.to_set().filter(|w: usize| d[w]@.contains(cp)).len(),
        ks.to_set().filter(|w: usize| d[w]@.contains(cp)).finite(),
    decreases ks.len(),
{
    let p = |w: usize| d[w]@.contains(cp);
    if ks.len() == 0 {
        assert(ks.to_set().filter(p) =~= Set::<usize>::empty());
    } else {
        let pre = ks.drop_last();
        let x = ks.last();
        assert(pre.no_duplicates()) by {
            assert forall|a: int, b: int| 0 <= a < b < pre.len() implies pre[a] != pre[b] by {
                assert(pre[a] == ks[a] && pre[b] == ks[b]);
            }
        }
        lemma_count_is_cardinality(d, pre, cp);
        assert(ks.to_set() =~= pre.to_set().insert(x)) by {
            assert forall|y: usize| ks.to_set().contains(y) implies pre.to_set().insert(x).contains(
                y,
            ) by {
                let j = choose|j: int| 0 <= j < ks.len() && ks[j] == y;
                if j < ks.len() - 1 {
                    assert(pre[j] == y);
                }
            }
            assert forall|y: usize| pre.to_set().insert(x).contains(y) implies ks.to_set().contains(
                y,
            ) by {
                if y != x {
                    let j = choose|j: int| 0 <= j < pre.len() && pre[j] == y;
                    assert(ks[j] == y);
                } else {
                    assert(ks[ks.len() - 1] == y);
                }
            }
        }
        assert(!pre.to_set().contains(x)) by {
            if pre.to_set().contains(x) {
                let j = choose|j: int| 0 <= j < pre.len() && pre[j] == x;
                assert(ks[j] == ks[ks.len() - 1]);
            }
        }
        if p(x) {
            assert(ks.to_set().filter(p) =~= pre.to_set().filter(p).insert(x));
        } else {
            assert(ks.to_set().filter(p) =~= pre.to_set().filter(p));
        }
    }
}

/// `usize` keys follow the ordering model that the `BTreeMap` specifications rely on.
proof fn usize_keys_ordered()
    ensures
        vstd::laws_cmp::obeys_cmp::<usize>(),
{
}

/// The keys of a `BTreeMap` come out of `keys()` in strictly increasing order,
/// each key exactly once.
proof fn lemma_keys_in_order(m: &BTreeMap<usize, usize>)
    ensures
        ({
            let ks = vstd::std_specs::btree::spec_keys_iter(m).remaining();
            &&& ks.len() == m@.dom().len()
            &&& forall|i: int, j: int| 0 <= i < j < ks.len() ==> *ks[i] < *ks[j]
            &&& forall|k: usize| m@.dom().contains(k) <==> exists|i: int| 0 <= i < ks.len() && *ks[i] == k
        }),
{
    broadcast use vstd::std_specs::btree::group_btree_axioms;

    let ks = vstd::std_specs::btree::spec_keys_iter(m).remaining();
    vstd::std_specs::btree::axiom_spec_keys_iter(m);
    usize_keys_ordered();
    assert(vstd::laws_cmp::obeys_cmp::<&usize>());
    assert(vstd::std_specs::btree::increasing_seq(ks));
    vstd::std_specs::btree::axiom_increasing_seq_meaning::<&usize>(ks);
    assert forall|i: int, j: int| 0 <= i < j < ks.len() implies *ks[i] < *ks[j] by {
        assert(OrdSpec::cmp_spec(&ks[i], &ks[j]) is Less);
    }
    assert forall|k: usize| m@.dom().contains(k) implies exists|i: int|
        0 <= i < ks.len() && *ks[i] == k by {
        assert(ks.unref().to_set().contains(k));
        let i = choose|i: int| 0 <= i < ks.unref().len() && ks.unref()[i] == k;
        assert(*ks[i] == k);
    }
    assert forall|k: usize| (exists|i: int| 0 <= i < ks.len() && *ks[i] == k) implies m@.dom().contains(
        k,
    ) by {
        let i = choose|i: int| 0 <= i < ks.len() && *ks[i] == k;
        assert(ks.unref()[i] == k);
        assert(ks.unref().to_set().contains(k));
    }
}

/// The keys of `m` in increasing order.
fn sorted_keys(m: &BTreeMap<usize, usize>) -> (r: Vec<usize>)
    ensures
        forall|i: int, j: int| 0 <= i < j < r@.len() ==> r@[i] < r@[j],
        forall|k: usize| m@.dom().contains(k) <==> r@.contains(k),
{
    proof {
        lemma_keys_in_order(m);
    }
    let ghost ks = vstd::std_specs::btree::spec_keys_iter(m).remaining();
    let mut r: Vec<usize> = Vec::new();
    for k in it: m.keys()
        invariant
            it.seq() == ks,
            ks.len() == m@.dom().len(),
            forall|i: int, j: int| 0 <= i < j < ks.len() ==> *ks[i] < *ks[j],
            r@.len() == it.index(),
            forall|i: int| 0 <= i < it.index() ==> r@[i] == *ks[i],
    {
        r.push(*k);
    }
    proof {
        lemma_keys_in_order(m);
        assert(r@.len() == ks.len());
        assert forall|i: int, j: int| 0 <= i < j < r@.len() implies r@[i] < r@[j] by {
            assert(r@[i] == *ks[i] && r@[j] == *ks[j]);
        }
        assert forall|k: usize| m@.dom().contains(k) <==> r@.contains(k) by {
            if m@.dom().contains(k) {
                let i = choose|i: int| 0 <= i < ks.len() && *ks[i] == k;
                assert(r@[i] == k);
            }
            if r@.contains(k) {
                let i = choose|i: int| 0 <= i < r@.len() && r@[i] == k;
                assert(*ks[i] == k);
            }
        }
    }
    r
}

/// Count how many window sizes produced each candidate change-point.
///
/// Every window size contributes at most one vote to a given index, however
/// often that index occurs in its list.
pub fn compute_cp_counts(change_points_dict: &BTreeMap<usize, Vec<usize>>) -> (r: BTreeMap<
    usize,
    usize,
>)
    ensures
        forall|cp: usize| #[trigger] r@.contains_key(cp) <==> is_candidate(change_points_dict@, cp),
        forall|cp: usize|
            #[trigger] r@.contains_key(cp) ==> r@[cp] as nat == windows_voting_for(
                change_points_dict@,
                cp,
            ).len(),
{
    broadcast use vstd::std_specs::btree::group_btree_axioms;

    let ghost d = change_points_dict@;
    proof {
        vstd::std_specs::btree::axiom_spec_btree_map_len(change_points_dict);
        usize_keys_ordered();
        assert(vstd::std_specs::btree::spec_btree_map_len(change_points_dict) <= usize::MAX);
    }
    let mut cp_to_count: BTreeMap<usize, usize> = BTreeMap::new();
    let vals = change_points_dict.values();
    proof {
        usize_keys_ordered();
    }
    let ghost ks: Seq<usize> = choose|ks: Seq<usize>|
        {
            &&& ks.to_set() == d.dom()
            &&& ks.no_duplicates()
            &&& vals.remaining() == ks.map(|i: int, k: usize| &d[k])
        };
    assert(ks.len() == d.dom().len()) by {
        ks.unique_seq_to_set();
    }
    for cps in it: vals
        invariant
            ks.len() == d.dom().len(),
            d.dom().len() <= usize::MAX,
            d == change_points_dict@,
            it.seq() == ks.map(|i: int, k: usize| &d[k]),
            forall|cp: usize|
                #[trigger] cp_to_count@.contains_key(cp) <==> count_lists_with(d, ks.take(it.index()), cp) > 0,
            forall|cp: usize|
                #[trigger] count_or_zero(cp_to_count@, cp) == count_lists_with(d, ks.take(it.index()), cp),
    {
        let ghost i = it.index();
        let ghost old_counts = cp_to_count@;
        let ghost k = ks[i];
        assert(ks.to_set().contains(k));
        assert(cps@ == d[k]@);
        proof {
            assert forall|cp: usize| count_or_zero(old_counts, cp) <= i by {
                lemma_count_bounded(d, ks.take(i), cp);
            }
        }
        let mut seen: HashSet<usize> = HashSet::new();
        let mut j: usize = 0;
        while j < cps.len()
            invariant
                0 <= j <= cps@.len(),
                0 <= i < ks.len(),
                ks.len() <= usize::MAX,
                seen@ == cps@.take(j as int).to_set(),
                forall|cp: usize|
                    #[trigger] cp_to_count@.contains_key(cp) <==> old_counts.contains_key(cp)
                        || seen@.contains(cp),
                forall|cp: usize|
                    #[trigger] count_or_zero(cp_to_count@, cp) == count_or_zero(old_counts, cp)
                        + if seen@.contains(cp) {
                        1nat
                    } else {
                        0nat
                    },
                forall|cp: usize| count_or_zero(old_counts, cp) <= i,
            decreases cps@.len() - j,
        {
            let cp = cps[j];
            let ghost prev_counts = cp_to_count@;
            let ghost prev_seen = seen@;
            assert(cps@.take(j + 1) =~= cps@.take(j as int).push(cp));
            proof {
                usize_keys_ordered();
                cps@.take(j as int).lemma_push_to_set_commute(cp);
            }
            let fresh = seen.insert(cp);
            if fresh {
                assert(count_or_zero(cp_to_count@, cp) == count_or_zero(old_counts, cp));
                let current: usize = match cp_to_count.get(&cp) {
                    Some(c) => *c,
                    None => 0,
                };
                assert(count_or_zero(old_counts, cp) <= i);
                assert(current == count_or_zero(prev_counts, cp));
                cp_to_count.insert(cp, current + 1);
                assert(cp_to_count@ == prev_counts.insert(cp, (current + 1) as usize));
            }
            j = j + 1;
            proof {
                assert forall|c: usize| #[trigger] count_or_zero(cp_to_count@, c) == count_or_zero(
                    old_counts,
                    c,
                ) + if seen@.contains(c) {
                    1nat
                } else {
                    0nat
                } by {
                    if c != cp {
                        assert(count_or_zero(cp_to_count@, c) == count_or_zero(prev_counts, c));
                        assert(seen@.contains(c) == prev_seen.contains(c));
                    }
                }
            }
        }
        proof {
            assert(cps@.take(cps@.len() as int) =~= cps@);
            assert(ks.take(i + 1).drop_last() =~= ks.take(i));
            assert(ks.take(i + 1).last() == k);
            assert forall|cp: usize| cps@.to_set().contains(cp) <==> d[k]@.contains(cp) by {}
            assert forall|cp: usize|
                #[trigger] cp_to_count@.contains_key(cp) <==> count_lists_with(
                    d,
                    ks.take(i + 1),
                    cp,
                ) > 0 by {
                assert(count_or_zero(cp_to_count@, cp) == count_lists_with(d, ks.take(i + 1), cp));
                if cp_to_count@.contains_key(cp) {
                    if !old_counts.contains_key(cp) {
                        assert(seen@.contains(cp));
                    }
                }
            }
        }
    }
    proof {
        assert(ks.take(ks.len() as int) =~= ks);
        assert forall|cp: usize| #[trigger]
            cp_to_count@.contains_key(cp) <==> is_candidate(d, cp) by {
            lemma_count_positive(d, ks, cp);
            if is_candidate(d, cp) {
                let w = choose|w: usize| #[trigger] d.dom().contains(w) && d[w]@.contains(cp);
                assert(ks.to_set().contains(w));
                let j = choose|j: int| 0 <= j < ks.len() && ks[j] == w;
                assert(d[ks[j]]@.contains(cp));
            }
            if count_lists_with(d, ks, cp) > 0 {
                let j = choose|j: int| 0 <= j < ks.len() && #[trigger] d[ks[j]]@.contains(cp);
                assert(ks.to_set().contains(ks[j]));
                assert(d.dom().contains(ks[j]));
            }
        }
        assert forall|cp: usize| #[trigger]
            cp_to_count@.contains_key(cp) implies cp_to_count@[cp] as nat == windows_voting_for(
                d,
                cp,
            ).len() by {
            lemma_count_is_cardinality(d, ks, cp);
            assert(count_or_zero(cp_to_count@, cp) == count_lists_with(d, ks, cp));
        }
    }
    cp_to_count
}

/// Sum, over the entries of `s`, of the number of window sizes voting for each.
pub open spec fn vote_total(d: Map<usize, Vec<usize>>, s: Seq<usize>) -> nat
    decreases s.len(),
{
    if s.len() == 0 {
        0
    } else {
        vote_total(d, s.drop_last()) + windows_voting_for(d, s.last()).len()
    }
}

/// All votes cast by the window sizes of `d` can be added up in a `usize`.
///
/// Every vote is backed by one stored entry of a change-point list, so this
/// holds for every map that fits in memory.
pub open spec fn votes_fit(d: Map<usize, Vec<usize>>) -> bool {
    forall|s: Seq<usize>| s.no_duplicates() ==> #[trigger] vote_total(d, s) <= usize::MAX
}

/// The entries of `s` are strictly increasing.
pub open spec fn strictly_increasing(s: Seq<usize>) -> bool {
    forall|i: int, j: int| 0 <= i < j < s.len() ==> s[i] < s[j]
}

/// `parts` are non-empty runs whose consecutive entries lie at most `tol`
/// apart, while consecutive runs lie more than `tol` apart.
pub open spec fn splits_at_gaps(parts: Seq<Seq<usize>>, tol: usize) -> bool {
    &&& forall|i: int| 0 <= i < parts.len() ==> #[trigger] parts[i].len() > 0
    &&& forall|i: int, j: int|
        0 <= i < parts.len() && 0 < j < parts[i].len() ==> #[trigger] parts[i][j] - parts[i][j - 1]
            <= tol
    &&& forall|i: int| 0 < i < parts.len() ==> #[trigger] parts[i][0] - parts[i - 1].last() > tol
}

/// `info` describes the run `part`, with the vote counts of `d`.
pub open spec fn describes_segment(info: SegmentInfo, d: Map<usize, Vec<usize>>, part: Seq<usize>) -> bool {
    &&& info.change_points@ == part
    &&& info.votes@.dom() == part.to_set()
    &&& forall|cp: usize| #[trigger]
        info.votes@.contains_key(cp) ==> info.votes@[cp] as nat == windows_voting_for(d, cp).len()
    &&& info.segment_vote as nat == vote_total(d, part)
}

/// `segs` are the segments merged from the detections `d` with tolerance
/// `tol`: the candidates, in increasing order, cut wherever two neighbours
/// lie more than `tol` apart, each run described with its votes.
pub open spec fn merged_segments(d: Map<usize, Vec<usize>>, tol: usize, segs: Seq<SegmentInfo>) -> bool {
    &&& strictly_increasing(segment_parts(segs).flatten())
    &&& forall|cp: usize| #[trigger] segment_parts(segs).flatten().contains(cp) <==> is_candidate(d, cp)
    &&& splits_at_gaps(segment_parts(segs), tol)
    &&& forall|i: int|
        0 <= i < segs.len() ==> describes_segment(#[trigger] segs[i], d, segment_parts(segs)[i])
}

/// The change points of each segment, in segment order.
pub open spec fn segment_parts(segments: Seq<SegmentInfo>) -> Seq<Seq<usize>> {
    segments.map_values(|s: SegmentInfo| s.change_points@)
}

proof fn lemma_vote_total_prefix(d: Map<usize, Vec<usize>>, s: Seq<usize>, k: int)
    requires
        0 <= k <= s.len(),
    ensures
        vote_total(d, s.take(k)) <= vote_total(d, s),
    decreases s.len(),
{
    if k < s.len() {
        assert(s.drop_last().take(k) =~= s.take(k));
        lemma_vote_total_prefix(d, s.drop_last(), k);
    } else {
        assert(s.take(k) =~= s);
    }
}

proof fn lemma_increasing_no_duplicates(s: Seq<usize>)
    requires
        strictly_increasing(s),
    ensures
        s.no_duplicates(),
{
}

/// Build the description of one run of change points.
fn build_segment(
    change_points: Vec<usize>,
    cp_to_count: &BTreeMap<usize, usize>,
    Ghost(d): Ghost<Map<usize, Vec<usize>>>,
) -> (info: SegmentInfo)
    requires
        forall|cp: usize| #[trigger]
            cp_to_count@.contains_key(cp) ==> cp_to_count@[cp] as nat == windows_voting_for(d, cp).len(),
        forall|j: int| 0 <= j < change_points@.len() ==> cp_to_count@.contains_key(#[trigger] change_points@[j]),
        vote_total(d, change_points@) <= usize::MAX,
    ensures
        describes_segment(info, d, change_points@),
{
    let mut votes: BTreeMap<usize, usize> = BTreeMap::new();
    let mut segment_vote: usize = 0;
    let mut j: usize = 0;
    while j < change_points.len()
        invariant
            0 <= j <= change_points@.len(),
            forall|cp: usize| #[trigger]
                cp_to_count@.contains_key(cp) ==> cp_to_count@[cp] as nat == windows_voting_for(d, cp).len(),
            forall|i: int| 0 <= i < change_points@.len() ==> cp_to_count@.contains_key(#[trigger] change_points@[i]),
            vote_total(d, change_points@) <= usize::MAX,
            votes@.dom() == change_points@.take(j as int).to_set(),
            forall|cp: usize| #[trigger]
                votes@.contains_key(cp) ==> votes@[cp] as nat == windows_voting_for(d, cp).len(),
            segment_vote as nat == vote_total(d, change_points@.take(j as int)),
        decreases change_points@.len() - j,
    {
        let cp = change_points[j];
        let v: usize = match cp_to_count.get(&cp) {
            Some(c) => *c,
            None => 0,
        };
        proof {
            usize_keys_ordered();
            let next = change_points@.take(j + 1);
            assert(next.drop_last() =~= change_points@.take(j as int));
            assert(next.last() == cp);
            lemma_vote_total_prefix(d, change_points@, j + 1);
            change_points@.take(j as int).lemma_push_to_set_commute(cp);
            assert(next =~= change_points@.take(j as int).push(cp));
        }
        votes.insert(cp, v);
        segment_vote = segment_vote + v;
        j = j + 1;
    }
    assert(change_points@.take(j as int) =~= change_points@);
    SegmentInfo { change_points, votes, segment_vote }
}

proof fn lemma_extend_last_run(parts: Seq<Seq<usize>>, cur: Seq<usize>, cp: usize, tol: usize)
    requires
        splits_at_gaps(parts.push(cur), tol),
        cur.len() > 0,
        cp - cur.last() <= tol,
    ensures
        splits_at_gaps(parts.push(cur.push(cp)), tol),
{
    let np = parts.push(cur.push(cp));
    let op = parts.push(cur);
    assert forall|i: int| 0 <= i < np.len() implies #[trigger] np[i].len() > 0 by {
        if i < parts.len() {
            assert(np[i] == op[i]);
        }
    }
    assert forall|i: int, j: int|
        0 <= i < np.len() && 0 < j < np[i].len() implies #[trigger] np[i][j] - np[i][j - 1] <= tol by {
        if i < parts.len() {
            assert(np[i] == op[i]);
        } else if j < cur.len() {
            assert(np[i][j] == op[i][j] && np[i][j - 1] == op[i][j - 1]);
        }
    }
    assert forall|i: int| 0 < i < np.len() implies #[trigger] np[i][0] - np[i - 1].last() > tol by {
        assert(np[i - 1] == op[i - 1]);
        assert(np[i][0] == op[i][0]);
    }
}

proof fn lemma_start_new_run(parts: Seq<Seq<usize>>, cur: Seq<usize>, cp: usize, tol: usize)
    requires
        splits_at_gaps(parts.push(cur), tol),
        cur.len() > 0,
        cp - cur.last() > tol,
    ensures
        splits_at_gaps(parts.push(cur).push(seq![cp]), tol),
{
    let op = parts.push(cur);
    let full = op.push(seq![cp]);
    assert forall|i: int| 0 <= i < full.len() implies #[trigger] full[i].len() > 0 by {
        if i < op.len() {
            assert(full[i] == op[i]);
        }
    }
    assert forall|i: int, j: int|
        0 <= i < full.len() && 0 < j < full[i].len() implies #[trigger] full[i][j] - full[i][j - 1]
            <= tol by {
        assert(full[i] == op[i]);
    }
    assert forall|i: int| 0 < i < full.len() implies #[trigger] full[i][0] - full[i - 1].last() > tol by {
        if i < op.len() {
            assert(full[i] == op[i] && full[i - 1] == op[i - 1]);
        } else {
            assert(full[i - 1] == cur);
        }
    }
}

proof fn lemma_run_is_slice(parts: Seq<Seq<usize>>, cur: Seq<usize>, all: Seq<usize>, idx: int)
    requires
        0 < idx <= all.len(),
        cur.len() > 0,
        parts.flatten() + cur == all.take(idx),
        strictly_increasing(all),
    ensures
        strictly_increasing(cur),
        cur.no_duplicates(),
        forall|j: int| 0 <= j < cur.len() ==> all.contains(#[trigger] cur[j]),
        cur.last() == all[idx - 1],
{
    let base = parts.flatten().len();
    let joined = parts.flatten() + cur;
    assert(joined.len() == idx);
    assert forall|j: int| 0 <= j < cur.len() implies #[trigger] cur[j] == all[base + j] by {
        assert(joined[base + j] == cur[j]);
        assert(all.take(idx)[base + j] == all[base + j]);
    }
    assert forall|j: int| 0 <= j < cur.len() implies all.contains(#[trigger] cur[j]) by {
        assert(cur[j] == all[base + j]);
    }
    assert forall|a: int, b: int| 0 <= a < b < cur.len() implies cur[a] < cur[b] by {
        assert(cur[a] == all[base + a]);
        assert(cur[b] == all[base + b]);
    }
    assert(cur[cur.len() - 1] == all[base + cur.len() - 1]);
}

/// Merge nearby candidate change-points into segments and keep vote information.
///
/// The candidates (every index detected by some window size) are taken in
/// increasing order and cut wherever two neighbours lie more than `tol` apart.
/// Segment `i` of the result is the segment the R interface names `segment_{i+1}`.
pub fn compute_change_points_with_votes(
    change_points_dict: &BTreeMap<usize, Vec<usize>>,
    tol: usize,
) -> (r: Vec<SegmentInfo>)
    requires
        votes_fit(change_points_dict@),
    ensures
        merged_segments(change_points_dict@, tol, r@),
{
    let ghost d = change_points_dict@;
    let cp_to_count = compute_cp_counts(change_points_dict);
    let all_cps = sorted_keys(&cp_to_count);

    if all_cps.len() == 0 {
        let out: Vec<SegmentInfo> = Vec::new();
        proof {
            assert(segment_parts(out@) =~= Seq::<Seq<usize>>::empty());
            assert forall|cp: usize| !is_candidate(d, cp) by {
                if is_candidate(d, cp) {
                    assert(cp_to_count@.contains_key(cp));
                    assert(all_cps@.contains(cp));
                }
            }
        }
        return out;
    }

    let mut out: Vec<SegmentInfo> = Vec::new();
    let mut cur: Vec<usize> = Vec::new();
    cur.push(all_cps[0]);
    let mut idx: usize = 1;
    proof {
        assert(all_cps@.take(1) =~= seq![all_cps@[0]]);
        assert(segment_parts(out@) =~= Seq::<Seq<usize>>::empty());
        assert(Seq::<Seq<usize>>::empty().flatten() =~= Seq::<usize>::empty());
        assert(Seq::<usize>::empty() + cur@ =~= cur@);
    }
    while idx < all_cps.len()
        invariant
            1 <= idx <= all_cps@.len(),
            d == change_points_dict@,
            votes_fit(d),
            forall|cp: usize| #[trigger]
                cp_to_count@.contains_key(cp) ==> cp_to_count@[cp] as nat == windows_voting_for(d, cp).len(),
            forall|cp: usize| cp_to_count@.contains_key(cp) <==> all_cps@.contains(cp),
            strictly_increasing(all_cps@),
            segment_parts(out@).flatten() + cur@ == all_cps@.take(idx as int),
            cur@.len() > 0,
            splits_at_gaps(segment_parts(out@).push(cur@), tol),
            forall|i: int|
                0 <= i < out@.len() ==> describes_segment(#[trigger] out@[i], d, segment_parts(out@)[i]),
        decreases all_cps@.len() - idx,
    {
        let cp = all_cps[idx];
        let last_cp = cur[cur.len() - 1];
        let ghost parts = segment_parts(out@);
        proof {
            lemma_run_is_slice(parts, cur@, all_cps@, idx as int);
            assert(all_cps@.take(idx + 1) =~= all_cps@.take(idx as int).push(cp));
        }
        if cp - last_cp <= tol {
            let ghost old_cur = cur@;
            cur.push(cp);
            proof {
                assert(parts.flatten() + cur@ =~= (parts.flatten() + old_cur).push(cp));
                lemma_extend_last_run(parts, old_cur, cp, tol);
            }
        } else {
            let ghost old_cur = cur@;
            let finished = build_segment(cur, &cp_to_count, Ghost(d));
            out.push(finished);
            cur = Vec::new();
            cur.push(cp);
            proof {
                let np = segment_parts(out@);
                assert(np =~= parts.push(old_cur));
                parts.lemma_flatten_push(old_cur);
                assert(np.flatten() + cur@ =~= (parts.flatten() + old_cur).push(cp));
                assert(cur@ =~= seq![cp]);
                lemma_start_new_run(parts, old_cur, cp, tol);
                assert forall|i: int|
                    0 <= i < out@.len() implies describes_segment(#[trigger] out@[i], d, np[i]) by {
                    if i < out@.len() - 1 {
                        assert(np[i] == parts[i]);
                    }
                }
            }
        }
        idx = idx + 1;
    }
    let ghost parts = segment_parts(out@);
    let ghost last_run = cur@;
    proof {
        assert(all_cps@.take(idx as int) =~= all_cps@);
        lemma_run_is_slice(parts, cur@, all_cps@, idx as int);
    }
    let finished = build_segment(cur, &cp_to_count, Ghost(d));
    out.push(finished);
    proof {
        let np = segment_parts(out@);
        assert(np =~= parts.push(last_run));
        parts.lemma_flatten_push(last_run);
        assert(np.flatten() =~= all_cps@);
        assert forall|i: int| 0 <= i < out@.len() implies describes_segment(#[trigger] out@[i], d, np[i]) by {
            if i < out@.len() - 1 {
                assert(np[i] == parts[i]);
            }
        }
        assert forall|cp: usize| #[trigger] np.flatten().contains(cp) <==> is_candidate(d, cp) by {
            if np.flatten().contains(cp) {
                assert(all_cps@.contains(cp));
                assert(cp_to_count@.contains_key(cp));
            }
            if is_candidate(d, cp) {
                assert(cp_to_count@.contains_key(cp));
            }
        }
    }
    out
}

/// `cp` has the most votes in `votes`, and is the smallest such index.
pub open spec fn is_leader(votes: Map<usize, usize>, cp: usize) -> bool {
    &&& votes.contains_key(cp)
    &&& forall|c: usize| #[trigger]
        votes.contains_key(c) ==> votes[c] < votes[cp] || (votes[c] == votes[cp] && cp <= c)
}

/// The leader of a segment's votes (meaningful where the votes are not empty).
pub open spec fn leader_of(votes: Map<usize, usize>) -> usize {
    choose|cp: usize| is_leader(votes, cp)
}

/// Leaders of `segments`, each mapped to its segment's total vote; a later
/// segment with the same leader replaces an earlier one.
pub open spec fn leaders_spec(segments: Seq<SegmentInfo>) -> Map<usize, usize>
    decreases segments.len(),
{
    if segments.len() == 0 {
        Map::empty()
    } else {
        let prev = leaders_spec(segments.drop_last());
        let last = segments.last();
        if last.votes@.dom().is_empty() {
            prev
        } else {
            prev.insert(leader_of(last.votes@), last.segment_vote)
        }
    }
}

/// A leader, where there is one, is the only one.
pub proof fn lemma_leader_unique(votes: Map<usize, usize>, a: usize, b: usize)
    requires
        is_leader(votes, a),
        is_leader(votes, b),
    ensures
        a == b,
{
    assert(votes.contains_key(a) && votes.contains_key(b));
}

/// The change point with the most votes, the smallest among equals.
fn best_voted(votes: &BTreeMap<usize, usize>) -> (r: Option<usize>)
    ensures
        r is None <==> votes@.dom().is_empty(),
        r matches Some(b) ==> is_leader(votes@, b),
{
    broadcast use vstd::std_specs::btree::group_btree_axioms;

    proof {
        usize_keys_ordered();
    }
    let ghost m = votes@;
    let ghost pairs = vstd::std_specs::btree::spec_btree_map_iter(votes).remaining();
    let mut best_cp: Option<usize> = None;
    let mut best_vote: usize = 0;
    for entry in it: votes.iter()
        invariant
            m == votes@,
            it.seq() == pairs,
            pairs.len() == m.dom().len(),
            forall|j: int|
                0 <= j < pairs.len() ==> m.contains_key(*(#[trigger] pairs[j]).0) && m[*pairs[j].0]
                    == *pairs[j].1,
            best_cp is None <==> it.index() == 0,
            best_cp matches Some(b) ==> {
                &&& m.contains_key(b)
                &&& best_vote == m[b]
                &&& forall|j: int|
                    0 <= j < it.index() ==> {
                        let c = *(#[trigger] pairs[j]).0;
                        m[c] < best_vote || (m[c] == best_vote && b <= c)
                    }
            },
    {
        let (cp_ref, vote_ref) = entry;
        let cp = *cp_ref;
        let vote = *vote_ref;
        let is_better = match best_cp {
            Some(current_best_cp) => vote > best_vote || (vote == best_vote && cp < current_best_cp),
            None => true,
        };
        if is_better {
            best_cp = Some(cp);
            best_vote = vote;
        }
    }
    proof {
        if best_cp is None {
            assert(pairs.len() == 0);
            if !m.dom().is_empty() {
                let k = m.dom().choose();
                assert(m.dom().contains(k));
                assert(m.dom().len() > 0);
            }
        } else {
            let b = best_cp->0;
            assert forall|c: usize| #[trigger] m.contains_key(c) implies m[c] < m[b] || (m[c] == m[b] && b
                <= c) by {
                assert(pairs.contains((&c, &m[c])));
                let j = choose|j: int| 0 <= j < pairs.len() && pairs[j] == (&c, &m[c]);
                assert(*pairs[j].0 == c);
            }
            assert(m.contains_key(b));
        }
    }
    best_cp
}

/// Pick the change point with the highest votes within each merged segment,
/// breaking ties towards the smallest index, and record the segment's total
/// vote at that representative point.
pub fn leaders_from_segments(segments: &Vec<SegmentInfo>) -> (r: BTreeMap<usize, usize>)
    ensures
        r@ == leaders_spec(segments@),
{
    let mut leaders: BTreeMap<usize, usize> = BTreeMap::new();
    let mut i: usize = 0;
    while i < segments.len()
        invariant
            0 <= i <= segments@.len(),
            leaders@ == leaders_spec(segments@.take(i as int)),
        decreases segments@.len() - i,
    {
        let info = &segments[i];
        let best = best_voted(&info.votes);
        proof {
            usize_keys_ordered();
            assert(segments@.take(i + 1).drop_last() =~= segments@.take(i as int));
            assert(segments@.take(i + 1).last() == *info);
        }
        match best {
            Some(cp) => {
                proof {
                    lemma_leader_unique(info.votes@, cp, leader_of(info.votes@));
                }
                leaders.insert(cp, info.segment_vote);
            },
            None => {},
        }
        i = i + 1;
    }
    assert(segments@.take(i as int) =~= segments@);
    leaders
}

/// The leaders of the segments with their votes, ready to be turned into
/// normalised scores.
#[derive(Debug)]
pub struct LeaderVotes {
    /// Each leader with its segment's total vote.
    pub leaders_segment_votes: BTreeMap<usize, usize>,
    /// Each leader with its segment's total vote capped at the number of
    /// window sizes: the numerator of its score `min(vote / windows, 1)`.
    pub capped_votes: BTreeMap<usize, usize>,
}

/// The leaders of `segments` and their votes capped at `num_windows`.
///
/// This is the integer part of turning segment votes into scores,
/// probabilities and a cumulative distribution: the score of a leader is its
/// capped vote divided by `num_windows`.
pub fn capped_leader_votes(segments: &Vec<SegmentInfo>, num_windows: usize) -> (r: ScanRustResult<
    LeaderVotes,
>)
    ensures
        num_windows == 0 ==> (r matches Err(e) && e@ == "number of windows must be positive"@),
        num_windows > 0 ==> (r matches Ok(out) && {
            &&& out.leaders_segment_votes@ == leaders_spec(segments@)
            &&& out.capped_votes@.dom() == leaders_spec(segments@).dom()
            &&& forall|cp: usize| #[trigger]
                out.capped_votes@.contains_key(cp) ==> out.capped_votes@[cp] == if leaders_spec(
                    segments@,
                )[cp] < num_windows {
                    leaders_spec(segments@)[cp]
                } else {
                    num_windows
                }
        }),
{
    broadcast use vstd::std_specs::btree::group_btree_axioms;

    if num_windows == 0 {
        return Err("number of windows must be positive".to_string());
    }
    let leaders = leaders_from_segments(segments);
    proof {
        usize_keys_ordered();
    }
    let ghost m = leaders@;
    let ghost pairs = vstd::std_specs::btree::spec_btree_map_iter(&leaders).remaining();
    let mut capped: BTreeMap<usize, usize> = BTreeMap::new();
    for entry in it: leaders.iter()
        invariant
            m == leaders@,
            it.seq() == pairs,
            pairs.len() == m.dom().len(),
            forall|j: int|
                0 <= j < pairs.len() ==> m.contains_key(*(#[trigger] pairs[j]).0) && m[*pairs[j].0]
                    == *pairs[j].1,
            forall|cp: usize| #[trigger]
                capped@.contains_key(cp) <==> exists|j: int| 0 <= j < it.index() && *pairs[j].0 == cp,
            forall|cp: usize| #[trigger]
                capped@.contains_key(cp) ==> capped@[cp] == if m[cp] < num_windows {
                    m[cp]
                } else {
                    num_windows
                },
    {
        let (cp_ref, v_ref) = entry;
        let cp = *cp_ref;
        let v = *v_ref;
        let score = if v < num_windows {
            v
        } else {
            num_windows
        };
        proof {
            usize_keys_ordered();
        }
        let ghost before = capped@;
        capped.insert(cp, score);
        proof {
            assert forall|c: usize| #[trigger]
                capped@.contains_key(c) <==> exists|j: int| 0 <= j < it.index() + 1 && *pairs[j].0 == c by {
                if c != cp && capped@.contains_key(c) {
                    assert(before.contains_key(c));
                }
            }
        }
    }
    proof {
        assert forall|cp: usize| capped@.contains_key(cp) <==> m.dom().contains(cp) by {
            if m.dom().contains(cp) {
                assert(pairs.contains((&cp, &m[cp])));
                let j = choose|j: int| 0 <= j < pairs.len() && pairs[j] == (&cp, &m[cp]);
                assert(*pairs[j].0 == cp);
            }
        }
        assert(capped@.dom() =~= m.dom());
    }
    Ok(LeaderVotes { leaders_segment_votes: leaders, capped_votes: capped })
}

/// Merge the detections of all window sizes into segments and select their
/// leaders, with votes capped at the number of window sizes.
pub fn aggregate_votes(change_points_dict: &BTreeMap<usize, Vec<usize>>, tol: usize) -> (r: ScanRustResult<
    (Vec<SegmentInfo>, LeaderVotes),
>)
    requires
        votes_fit(change_points_dict@),
    ensures
        change_points_dict@.dom().len() == 0 ==> (r matches Err(e) && e@
            == "number of windows must be positive"@),
        change_points_dict@.dom().len() > 0 ==> (r matches Ok((segs, out)) && {
            let nw = change_points_dict@.dom().len();
            &&& merged_segments(change_points_dict@, tol, segs@)
            &&& out.leaders_segment_votes@ == leaders_spec(segs@)
            &&& out.capped_votes@.dom() == leaders_spec(segs@).dom()
            &&& forall|cp: usize| #[trigger]
                out.capped_votes@.contains_key(cp) ==> out.capped_votes@[cp] == if leaders_spec(segs@)[cp]
                    < nw {
                    leaders_spec(segs@)[cp] as int
                } else {
                    nw as int
                }
        }),
{
    broadcast use vstd::std_specs::btree::group_btree_axioms;

    let segments = compute_change_points_with_votes(change_points_dict, tol);
    let num_windows = change_points_dict.len();
    proof {
        usize_keys_ordered();
    }
    match capped_leader_votes(&segments, num_windows) {
        Ok(out) => Ok((segments, out)),
        Err(e) => Err(e),
    }
}

/// Every candidate change point is voted for by at least one window size and
/// by at most all of them.
pub proof fn lemma_votes_between_one_and_all(d: Map<usize, Vec<usize>>, cp: usize)
    requires
        d.dom().finite(),
        is_candidate(d, cp),
    ensures
        1 <= windows_voting_for(d, cp).len() <= d.dom().len(),
{
    let voters = windows_voting_for(d, cp);
    d.dom().lemma_len_filter(|w: usize| d[w]@.contains(cp));
    let w = choose|w: usize| #[trigger] d.dom().contains(w) && d[w]@.contains(cp);
    assert(voters.contains(w));
    if voters.len() == 0 {
        assert(voters =~= Set::<usize>::empty());
    }
}

proof fn lemma_flatten_member(parts: Seq<Seq<usize>>, i: int, a: int)
    requires
        0 <= i < parts.len(),
        0 <= a < parts[i].len(),
    ensures
        parts.flatten().contains(parts[i][a]),
    decreases parts.len(),
{
    let pre = parts.drop_last();
    assert(pre.push(parts.last()) =~= parts);
    pre.lemma_flatten_push(parts.last());
    if i < parts.len() - 1 {
        assert(pre[i] == parts[i]);
        lemma_flatten_member(pre, i, a);
        let k = choose|k: int| 0 <= k < pre.flatten().len() && pre.flatten()[k] == parts[i][a];
        assert(parts.flatten()[k] == parts[i][a]);
    } else {
        let off = pre.flatten().len();
        assert(parts.flatten()[off + a] == parts[i][a]);
    }
}

/// In strictly increasing flattened runs, every entry of an earlier run lies
/// below every entry of a later one.
proof fn lemma_runs_ordered(parts: Seq<Seq<usize>>, i: int, j: int, a: int, b: int)
    requires
        strictly_increasing(parts.flatten()),
        0 <= i < j < parts.len(),
        0 <= a < parts[i].len(),
        0 <= b < parts[j].len(),
    ensures
        parts[i][a] < parts[j][b],
    decreases parts.len(),
{
    let pre = parts.drop_last();
    assert(pre.push(parts.last()) =~= parts);
    pre.lemma_flatten_push(parts.last());
    let off = pre.flatten().len();
    assert(pre[i] == parts[i]);
    if j < parts.len() - 1 {
        assert(pre[j] == parts[j]);
        assert(strictly_increasing(pre.flatten())) by {
            assert forall|x: int, y: int| 0 <= x < y < pre.flatten().len() implies pre.flatten()[x]
                < pre.flatten()[y] by {
                assert(parts.flatten()[x] == pre.flatten()[x]);
                assert(parts.flatten()[y] == pre.flatten()[y]);
            }
        }
        lemma_runs_ordered(pre, i, j, a, b);
    } else {
        lemma_flatten_member(pre, i, a);
        let k = choose|k: int| 0 <= k < pre.flatten().len() && pre.flatten()[k] == parts[i][a];
        assert(parts.flatten()[k] == parts[i][a]);
        assert(parts.flatten()[off + b] == parts[j][b]);
    }
}

/// Each leader of `segs` comes from some segment.
proof fn lemma_leaders_come_from_segments(segs: Seq<SegmentInfo>, cp: usize)
    requires
        leaders_spec(segs).contains_key(cp),
    ensures
        exists|i: int|
            0 <= i < segs.len() && !segs[i].votes@.dom().is_empty() && cp == leader_of(
                #[trigger] segs[i].votes@,
            ) && leaders_spec(segs)[cp] == segs[i].segment_vote,
    decreases segs.len(),
{
    let pre = segs.drop_last();
    let last = segs.last();
    if !last.votes@.dom().is_empty() && cp == leader_of(last.votes@) {
        assert(segs[segs.len() - 1] == last);
    } else {
        lemma_leaders_come_from_segments(pre, cp);
        let i = choose|i: int|
            0 <= i < pre.len() && !pre[i].votes@.dom().is_empty() && cp == leader_of(
                #[trigger] pre[i].votes@,
            ) && leaders_spec(pre)[cp] == pre[i].segment_vote;
        assert(segs[i] == pre[i]);
    }
}

/// A leader lies in its own segment.
proof fn lemma_leader_in_segment(info: SegmentInfo, d: Map<usize, Vec<usize>>, part: Seq<usize>)
    requires
        describes_segment(info, d, part),
        part.len() > 0,
    ensures
        !info.votes@.dom().is_empty(),
        is_leader(info.votes@, leader_of(info.votes@)),
        part.contains(leader_of(info.votes@)),
{
    let votes = info.votes@;
    assert(part.to_set().contains(part[0]));
    assert(votes.dom().contains(part[0]));
    lemma_leader_exists(votes);
    assert(votes.dom().contains(leader_of(votes)));
}

/// A finite, non-empty vote map has a leader.
pub proof fn lemma_leader_exists(votes: Map<usize, usize>)
    requires
        votes.dom().finite(),
        !votes.dom().is_empty(),
    ensures
        is_leader(votes, leader_of(votes)),
    decreases votes.dom().len(),
{
    let k = votes.dom().choose();
    assert(votes.dom().contains(k));
    let rest = votes.remove(k);
    if rest.dom().is_empty() {
        assert forall|c: usize| #[trigger] votes.contains_key(c) implies votes[c] < votes[k] || (votes[c]
            == votes[k] && k <= c) by {
            if c != k {
                assert(rest.dom().contains(c));
            }
        }
        assert(is_leader(votes, k));
    } else {
        assert(rest.dom().len() < votes.dom().len());
        lemma_leader_exists(rest);
        let b = leader_of(rest);
        if votes[k] > votes[b] || (votes[k] == votes[b] && k < b) {
            assert forall|c: usize| #[trigger] votes.contains_key(c) implies votes[c] < votes[k] || (
            votes[c] == votes[k] && k <= c) by {
                if c != k {
                    assert(rest.contains_key(c));
                }
            }
            assert(is_leader(votes, k));
        } else {
            assert forall|c: usize| #[trigger] votes.contains_key(c) implies votes[c] < votes[b] || (
            votes[c] == votes[b] && b <= c) by {
                if c != k {
                    assert(rest.contains_key(c));
                }
            }
            assert(is_leader(votes, b));
        }
    }
}

/// Runs of change points, in increasing order overall, each described with its votes.
pub open spec fn runs_described(d: Map<usize, Vec<usize>>, segs: Seq<SegmentInfo>) -> bool {
    &&& strictly_increasing(segment_parts(segs).flatten())
    &&& forall|i: int|
        0 <= i < segs.len() ==> #[trigger] segment_parts(segs)[i].len() > 0 && describes_segment(
            segs[i],
            d,
            segment_parts(segs)[i],
        )
}

proof fn lemma_leaders_of_runs(d: Map<usize, Vec<usize>>, segs: Seq<SegmentInfo>)
    requires
        runs_described(d, segs),
    ensures
        leaders_spec(segs).dom().len() == segs.len(),
        leaders_spec(segs).dom().finite(),
        map_value_sum(leaders_spec(segs)) == segment_vote_sum(segs),
        forall|i: int|
            0 <= i < segs.len() ==> {
                let cp = leader_of(#[trigger] segs[i].votes@);
                &&& segs[i].change_points@.contains(cp)
                &&& is_leader(segs[i].votes@, cp)
                &&& leaders_spec(segs).contains_key(cp)
                &&& leaders_spec(segs)[cp] == segs[i].segment_vote
            },
    decreases segs.len(),
{
    let parts = segment_parts(segs);
    if segs.len() > 0 {
        let pre = segs.drop_last();
        let last = segs.last();
        let n = segs.len() - 1;
        let pparts = segment_parts(pre);
        assert(pparts =~= parts.drop_last());
        assert(pparts.push(parts.last()) =~= parts);
        pparts.lemma_flatten_push(parts.last());
        assert(runs_described(d, pre)) by {
            assert forall|x: int, y: int| 0 <= x < y < pparts.flatten().len() implies pparts.flatten()[x]
                < pparts.flatten()[y] by {
                assert(parts.flatten()[x] == pparts.flatten()[x]);
                assert(parts.flatten()[y] == pparts.flatten()[y]);
            }
            assert forall|i: int| 0 <= i < pre.len() implies #[trigger] pparts[i].len() > 0 && describes_segment(
                pre[i],
                d,
                pparts[i],
            ) by {
                assert(pre[i] == segs[i] && pparts[i] == parts[i]);
            }
        }
        lemma_leaders_of_runs(d, pre);
        assert(parts[n].len() > 0);
        assert(describes_segment(segs[n], d, parts[n]));
        lemma_leader_in_segment(last, d, parts[n]);
        let lead = leader_of(last.votes@);
        // the new leader differs from all earlier ones
        assert(!leaders_spec(pre).contains_key(lead)) by {
            if leaders_spec(pre).contains_key(lead) {
                lemma_leaders_come_from_segments(pre, lead);
                let i = choose|i: int|
                    0 <= i < pre.len() && !pre[i].votes@.dom().is_empty() && lead == leader_of(
                        #[trigger] pre[i].votes@,
                    ) && leaders_spec(pre)[lead] == pre[i].segment_vote;
                assert(pre[i] == segs[i]);
                assert(pre[i].change_points@.contains(lead));
                let a = choose|a: int| 0 <= a < parts[i].len() && parts[i][a] == lead;
                let b = choose|b: int| 0 <= b < parts[n].len() && parts[n][b] == lead;
                lemma_runs_ordered(parts, i, n, a, b);
            }
        }
        assert(leaders_spec(segs) == leaders_spec(pre).insert(lead, last.segment_vote));
        assert(leaders_spec(segs).dom() =~= leaders_spec(pre).dom().insert(lead));
        lemma_map_value_sum_insert(leaders_spec(pre), lead, last.segment_vote);
        assert forall|i: int| 0 <= i < segs.len() implies {
            let cp = leader_of(#[trigger] segs[i].votes@);
            &&& segs[i].change_points@.contains(cp)
            &&& is_leader(segs[i].votes@, cp)
            &&& leaders_spec(segs).contains_key(cp)
            &&& leaders_spec(segs)[cp] == segs[i].segment_vote
        } by {
            if i < n {
                assert(segs[i] == pre[i]);
                let cp = leader_of(segs[i].votes@);
                assert(pre[i].change_points@.contains(cp));
                if cp == lead {
                    let a = choose|a: int| 0 <= a < parts[i].len() && parts[i][a] == cp;
                    let b = choose|b: int| 0 <= b < parts[n].len() && parts[n][b] == cp;
                    lemma_runs_ordered(parts, i, n, a, b);
                }
            }
        }
    } else {
        assert(leaders_spec(segs).dom() =~= Set::<usize>::empty());
        assert(map_value_sum(leaders_spec(segs)) == 0);
    }
}

/// Merged segments have one leader each: the leaders are as many as the
/// segments, each lies in its own segment, carries its segment's total vote,
/// and holds the most votes there (the smallest index among equals).
pub proof fn lemma_one_leader_per_segment(d: Map<usize, Vec<usize>>, tol: usize, segs: Seq<SegmentInfo>)
    requires
        merged_segments(d, tol, segs),
    ensures
        leaders_spec(segs).dom().len() == segs.len(),
        leaders_spec(segs).dom().finite(),
        forall|i: int|
            0 <= i < segs.len() ==> {
                let cp = leader_of(#[trigger] segs[i].votes@);
                &&& segs[i].change_points@.contains(cp)
                &&& is_leader(segs[i].votes@, cp)
                &&& leaders_spec(segs).contains_key(cp)
                &&& leaders_spec(segs)[cp] == segs[i].segment_vote
            },
{
    let parts = segment_parts(segs);
    assert forall|i: int| 0 <= i < segs.len() implies #[trigger] parts[i].len() > 0 && describes_segment(
        segs[i],
        d,
        parts[i],
    ) by {
        assert(parts[i].len() > 0);
    }
    lemma_leaders_of_runs(d, segs);
}

proof fn lemma_vote_total_covers(d: Map<usize, Vec<usize>>, s: Seq<usize>, j: int)
    requires
        0 <= j < s.len(),
    ensures
        vote_total(d, s) >= windows_voting_for(d, s[j]).len(),
    decreases s.len(),
{
    if j < s.len() - 1 {
        lemma_vote_total_covers(d, s.drop_last(), j);
    }
}

/// Every leader of merged segments carries at least one vote, so every
/// leader score is positive and the scores never sum to zero.
pub proof fn lemma_leader_votes_positive(d: Map<usize, Vec<usize>>, tol: usize, segs: Seq<SegmentInfo>)
    requires
        merged_segments(d, tol, segs),
        d.dom().finite(),
    ensures
        forall|cp: usize| #[trigger] leaders_spec(segs).contains_key(cp) ==> leaders_spec(segs)[cp] >= 1,
{
    let parts = segment_parts(segs);
    assert forall|cp: usize| #[trigger] leaders_spec(segs).contains_key(cp) implies leaders_spec(segs)[cp]
        >= 1 by {
        lemma_leaders_come_from_segments(segs, cp);
        let i = choose|i: int|
            0 <= i < segs.len() && !segs[i].votes@.dom().is_empty() && cp == leader_of(
                #[trigger] segs[i].votes@,
            ) && leaders_spec(segs)[cp] == segs[i].segment_vote;
        assert(describes_segment(segs[i], d, parts[i]));
        assert(parts[i].len() > 0);
        lemma_flatten_member(parts, i, 0);
        assert(is_candidate(d, parts[i][0]));
        lemma_votes_between_one_and_all(d, parts[i][0]);
        lemma_vote_total_covers(d, parts[i], 0);
    }
}

/// Sum of the total votes of `segs`.
pub open spec fn segment_vote_sum(segs: Seq<SegmentInfo>) -> nat
    decreases segs.len(),
{
    if segs.len() == 0 {
        0
    } else {
        segment_vote_sum(segs.drop_last()) + segs.last().segment_vote as nat
    }
}

proof fn lemma_vote_total_concat(d: Map<usize, Vec<usize>>, a: Seq<usize>, b: Seq<usize>)
    ensures
        vote_total(d, a + b) == vote_total(d, a) + vote_total(d, b),
    decreases b.len(),
{
    if b.len() == 0 {
        assert(a + b =~= a);
    } else {
        assert((a + b).drop_last() =~= a + b.drop_last());
        assert((a + b).last() == b.last());
        lemma_vote_total_concat(d, a, b.drop_last());
    }
}

/// Merging loses no vote and counts none twice: the segments' total votes
/// add up to the votes of all candidate change points.
pub proof fn lemma_segment_votes_add_up(d: Map<usize, Vec<usize>>, tol: usize, segs: Seq<SegmentInfo>)
    requires
        merged_segments(d, tol, segs),
    ensures
        segment_vote_sum(segs) == vote_total(d, segment_parts(segs).flatten()),
{
    lemma_described_votes_add_up(d, segs);
}

proof fn lemma_described_votes_add_up(d: Map<usize, Vec<usize>>, segs: Seq<SegmentInfo>)
    requires
        forall|i: int|
            0 <= i < segs.len() ==> describes_segment(#[trigger] segs[i], d, segment_parts(segs)[i]),
    ensures
        segment_vote_sum(segs) == vote_total(d, segment_parts(segs).flatten()),
    decreases segs.len(),
{
    if segs.len() == 0 {
        assert(segment_parts(segs).flatten() =~= Seq::<usize>::empty());
    } else {
        let pre = segs.drop_last();
        let parts = segment_parts(segs);
        let pparts = segment_parts(pre);
        assert(pparts.push(parts.last()) =~= parts);
        pparts.lemma_flatten_push(parts.last());
        assert forall|i: int| 0 <= i < pre.len() implies describes_segment(#[trigger] pre[i], d, pparts[i]) by {
            assert(pre[i] == segs[i] && pparts[i] == parts[i]);
        }
        lemma_described_votes_add_up(d, pre);
        assert(describes_segment(segs[segs.len() - 1], d, parts[segs.len() - 1]));
        lemma_vote_total_concat(d, pparts.flatten(), parts.last());
    }
}

/// Number of distinct change points detected by each window of `ks`, added up.
pub open spec fn distinct_detections(d: Map<usize, Vec<usize>>, ks: Seq<usize>) -> nat
    decreases ks.len(),
{
    if ks.len() == 0 {
        0
    } else {
        distinct_detections(d, ks.drop_last()) + d[ks.last()]@.to_set().len()
    }
}

/// Number of entries of `s` that occur in `list`.
pub open spec fn hits(list: Seq<usize>, s: Seq<usize>) -> nat
    decreases s.len(),
{
    if s.len() == 0 {
        0
    } else {
        hits(list, s.drop_last()) + if list.contains(s.last()) {
            1nat
        } else {
            0nat
        }
    }
}

/// Hits of `s` in every list of `ks`, added up.
pub open spec fn hits_over(d: Map<usize, Vec<usize>>, ks: Seq<usize>, s: Seq<usize>) -> nat
    decreases ks.len(),
{
    if ks.len() == 0 {
        0
    } else {
        hits_over(d, ks.drop_last(), s) + hits(d[ks.last()]@, s)
    }
}

/// Votes of the entries of `s`, counted over the windows listed in `ks`.
pub open spec fn listed_votes(d: Map<usize, Vec<usize>>, ks: Seq<usize>, s: Seq<usize>) -> nat
    decreases s.len(),
{
    if s.len() == 0 {
        0
    } else {
        listed_votes(d, ks, s.drop_last()) + count_lists_with(d, ks, s.last())
    }
}

proof fn lemma_hits_over_push(d: Map<usize, Vec<usize>>, ks: Seq<usize>, s: Seq<usize>, c: usize)
    ensures
        hits_over(d, ks, s.push(c)) == hits_over(d, ks, s) + count_lists_with(d, ks, c),
    decreases ks.len(),
{
    assert(s.push(c).drop_last() =~= s);
    if ks.len() > 0 {
        lemma_hits_over_push(d, ks.drop_last(), s, c);
    }
}

proof fn lemma_swap_sums(d: Map<usize, Vec<usize>>, ks: Seq<usize>, s: Seq<usize>)
    ensures
        listed_votes(d, ks, s) == hits_over(d, ks, s),
    decreases s.len(),
{
    if s.len() == 0 {
        lemma_hits_over_empty(d, ks, s);
    } else {
        lemma_swap_sums(d, ks, s.drop_last());
        assert(s.drop_last().push(s.last()) =~= s);
        lemma_hits_over_push(d, ks, s.drop_last(), s.last());
    }
}

proof fn lemma_hits_over_empty(d: Map<usize, Vec<usize>>, ks: Seq<usize>, s: Seq<usize>)
    requires
        s.len() == 0,
    ensures
        hits_over(d, ks, s) == 0,
    decreases ks.len(),
{
    if ks.len() > 0 {
        lemma_hits_over_empty(d, ks.drop_last(), s);
    }
}

proof fn lemma_hits_is_cardinality(list: Seq<usize>, s: Seq<usize>)
    requires
        s.no_duplicates(),
    ensures
        hits(list, s) == s.to_set().filter(|c: usize| list.contains(c)).len(),
        s.to_set().filter(|c: usize| list.contains(c)).finite(),
    decreases s.len(),
{
    let p = |c: usize| list.contains(c);
    if s.len() == 0 {
        assert(s.to_set().filter(p) =~= Set::<usize>::empty());
    } else {
        let pre = s.drop_last();
        let x = s.last();
        assert(pre.no_duplicates()) by {
            assert forall|a: int, b: int| 0 <= a < b < pre.len() implies pre[a] != pre[b] by {
                assert(pre[a] == s[a] && pre[b] == s[b]);
            }
        }
        lemma_hits_is_cardinality(list, pre);
        assert(pre.push(x) =~= s);
        pre.lemma_push_to_set_commute(x);
        assert(!pre.to_set().contains(x)) by {
            if pre.to_set().contains(x) {
                let j = choose|j: int| 0 <= j < pre.len() && pre[j] == x;
                assert(s[j] == s[s.len() - 1]);
            }
        }
        if p(x) {
            assert(s.to_set().filter(p) =~= pre.to_set().filter(p).insert(x));
        } else {
            assert(s.to_set().filter(p) =~= pre.to_set().filter(p));
        }
    }
}

proof fn lemma_listed_votes_are_vote_total(d: Map<usize, Vec<usize>>, ks: Seq<usize>, s: Seq<usize>)
    requires
        ks.no_duplicates(),
        ks.to_set() == d.dom(),
    ensures
        listed_votes(d, ks, s) == vote_total(d, s),
    decreases s.len(),
{
    if s.len() > 0 {
        lemma_listed_votes_are_vote_total(d, ks, s.drop_last());
        lemma_count_is_cardinality(d, ks, s.last());
    }
}

proof fn lemma_hits_over_all_candidates(d: Map<usize, Vec<usize>>, ks: Seq<usize>, s: Seq<usize>)
    requires
        forall|i: int| 0 <= i < ks.len() ==> d.dom().contains(#[trigger] ks[i]),
        s.no_duplicates(),
        forall|c: usize| s.contains(c) <==> is_candidate(d, c),
    ensures
        hits_over(d, ks, s) == distinct_detections(d, ks),
    decreases ks.len(),
{
    if ks.len() > 0 {
        let pre = ks.drop_last();
        assert forall|i: int| 0 <= i < pre.len() implies d.dom().contains(#[trigger] pre[i]) by {
            assert(pre[i] == ks[i]);
        }
        lemma_hits_over_all_candidates(d, pre, s);
        let w = ks.last();
        assert(d.dom().contains(ks[ks.len() - 1]));
        let list = d[w]@;
        lemma_hits_is_cardinality(list, s);
        assert(s.to_set().filter(|c: usize| list.contains(c)) =~= list.to_set()) by {
            assert forall|c: usize| list.to_set().contains(c) implies s.to_set().contains(c) by {
                assert(d.dom().contains(w) && d[w]@.contains(c));
                assert(is_candidate(d, c));
            }
        }
    }
}

/// Every window size votes once for each distinct change point it detected:
/// the votes of all candidates add up to the numbers of distinct detections
/// of the windows.
pub proof fn lemma_votes_are_distinct_detections(d: Map<usize, Vec<usize>>, ks: Seq<usize>, s: Seq<usize>)
    requires
        ks.no_duplicates(),
        ks.to_set() == d.dom(),
        s.no_duplicates(),
        forall|c: usize| s.contains(c) <==> is_candidate(d, c),
    ensures
        vote_total(d, s) == distinct_detections(d, ks),
{
    lemma_listed_votes_are_vote_total(d, ks, s);
    lemma_swap_sums(d, ks, s);
    assert forall|i: int| 0 <= i < ks.len() implies d.dom().contains(#[trigger] ks[i]) by {
        assert(ks.to_set().contains(ks[i]));
    }
    lemma_hits_over_all_candidates(d, ks, s);
}

/// Merging keeps exactly the votes cast: the segments' total votes add up to
/// the numbers of distinct change points detected by each window size.
pub proof fn lemma_segment_votes_are_distinct_detections(
    d: Map<usize, Vec<usize>>,
    tol: usize,
    segs: Seq<SegmentInfo>,
    ks: Seq<usize>,
)
    requires
        merged_segments(d, tol, segs),
        ks.no_duplicates(),
        ks.to_set() == d.dom(),
    ensures
        segment_vote_sum(segs) == distinct_detections(d, ks),
{
    lemma_segment_votes_add_up(d, tol, segs);
    let all = segment_parts(segs).flatten();
    lemma_increasing_no_duplicates(all);
    lemma_votes_are_distinct_detections(d, ks, all);
}

/// Entries of the change-point lists of the windows of `ks`, added up.
pub open spec fn total_entries(d: Map<usize, Vec<usize>>, ks: Seq<usize>) -> nat
    decreases ks.len(),
{
    if ks.len() == 0 {
        0
    } else {
        total_entries(d, ks.drop_last()) + d[ks.last()]@.len()
    }
}

proof fn lemma_hits_bounded(list: Seq<usize>, s: Seq<usize>)
    requires
        s.no_duplicates(),
    ensures
        hits(list, s) <= list.len(),
{
    lemma_hits_is_cardinality(list, s);
    let found = s.to_set().filter(|c: usize| list.contains(c));
    assert(found.subset_of(list.to_set()));
    vstd::set_lib::lemma_len_subset(found, list.to_set());
    list.lemma_cardinality_of_set();
}

proof fn lemma_hits_over_bounded(d: Map<usize, Vec<usize>>, ks: Seq<usize>, s: Seq<usize>)
    requires
        s.no_duplicates(),
    ensures
        hits_over(d, ks, s) <= total_entries(d, ks),
    decreases ks.len(),
{
    if ks.len() > 0 {
        lemma_hits_over_bounded(d, ks.drop_last(), s);
        lemma_hits_bounded(d[ks.last()]@, s);
    }
}

/// When all change-point lists together hold at most `usize::MAX` entries
/// (as all lists in memory do), every total of votes fits in a `usize`.
pub proof fn lemma_votes_fit_from_entries(d: Map<usize, Vec<usize>>, ks: Seq<usize>)
    requires
        ks.no_duplicates(),
        ks.to_set() == d.dom(),
        total_entries(d, ks) <= usize::MAX,
    ensures
        votes_fit(d),
{
    assert forall|s: Seq<usize>| s.no_duplicates() implies #[trigger] vote_total(d, s) <= usize::MAX by {
        lemma_listed_votes_are_vote_total(d, ks, s);
        lemma_swap_sums(d, ks, s);
        lemma_hits_over_bounded(d, ks, s);
    }
}

/// Whether the change-point lists of `d` together hold at most `usize::MAX`
/// entries; when they do, the votes of `d` can be added up in a `usize`.
pub fn detections_fit(change_points_dict: &BTreeMap<usize, Vec<usize>>) -> (r: bool)
    ensures
        r ==> votes_fit(change_points_dict@),
        !r ==> exists|ks: Seq<usize>|
            ks.no_duplicates() && ks.to_set() == change_points_dict@.dom() && total_entries(
                change_points_dict@,
                ks,
            ) > usize::MAX,
{
    broadcast use vstd::std_specs::btree::group_btree_axioms;

    let ghost d = change_points_dict@;
    let vals = change_points_dict.values();
    proof {
        usize_keys_ordered();
    }
    let ghost ks: Seq<usize> = choose|ks: Seq<usize>|
        {
            &&& ks.to_set() == d.dom()
            &&& ks.no_duplicates()
            &&& vals.remaining() == ks.map(|i: int, k: usize| &d[k])
        };
    let mut total: usize = 0;
    for cps in it: vals
        invariant
            d == change_points_dict@,
            it.seq() == ks.map(|i: int, k: usize| &d[k]),
            ks.to_set() == d.dom(),
            ks.no_duplicates(),
            total as nat == total_entries(d, ks.take(it.index())),
    {
        let ghost i = it.index();
        assert(ks.take(i + 1).drop_last() =~= ks.take(i));
        assert(ks.take(i + 1).last() == ks[i]);
        if cps.len() > usize::MAX - total {
            proof {
                lemma_total_entries_prefix(d, ks, i + 1);
                assert(ks.take(ks.len() as int) =~= ks);
            }
            return false;
        }
        total = total + cps.len();
    }
    proof {
        assert(ks.take(ks.len() as int) =~= ks);
        lemma_votes_fit_from_entries(d, ks);
    }
    true
}

proof fn lemma_total_entries_prefix(d: Map<usize, Vec<usize>>, ks: Seq<usize>, k: int)
    requires
        0 <= k <= ks.len(),
    ensures
        total_entries(d, ks.take(k)) <= total_entries(d, ks),
    decreases ks.len(),
{
    if k < ks.len() {
        assert(ks.drop_last().take(k) =~= ks.take(k));
        lemma_total_entries_prefix(d, ks.drop_last(), k);
    } else {
        assert(ks.take(k) =~= ks);
    }
}

/// Sum of the values of a map with finitely many keys.
pub open spec fn map_value_sum(m: Map<usize, usize>) -> nat
    decreases m.dom().len(),
{
    if m.dom().finite() && m.dom().len() > 0 {
        let k = m.dom().choose();
        proof {
            assert(m.dom().contains(k));
            assert(m.remove(k).dom() =~= m.dom().remove(k));
        }
        m[k] as nat + map_value_sum(m.remove(k))
    } else {
        0
    }
}

/// Any key can be taken out first when adding up the values.
pub proof fn lemma_map_value_sum_remove(m: Map<usize, usize>, k: usize)
    requires
        m.dom().finite(),
        m.dom().contains(k),
    ensures
        map_value_sum(m) == m[k] as nat + map_value_sum(m.remove(k)),
    decreases m.dom().len(),
{
    assert(m.remove(k).dom() =~= m.dom().remove(k));
    let c = m.dom().choose();
    assert(m.dom().contains(c));
    if c != k {
        let mc = m.remove(c);
        let mk = m.remove(k);
        assert(mc.dom() =~= m.dom().remove(c));
        assert(mc.dom().contains(k));
        lemma_map_value_sum_remove(mc, k);
        assert(mk.dom().contains(c));
        assert(mk.dom().len() < m.dom().len());
        lemma_map_value_sum_remove(mk, c);
        assert(mc.remove(k) =~= mk.remove(c));
    }
}

/// Adding a new key adds its value to the sum.
pub proof fn lemma_map_value_sum_insert(m: Map<usize, usize>, k: usize, v: usize)
    requires
        m.dom().finite(),
        !m.dom().contains(k),
    ensures
        map_value_sum(m.insert(k, v)) == map_value_sum(m) + v,
{
    lemma_map_value_sum_remove(m.insert(k, v), k);
    assert(m.insert(k, v).remove(k) =~= m);
}

/// The values of the leaders add up to the votes of all segments, which are
/// the numbers of distinct change points detected by each window size.
pub proof fn lemma_leader_votes_sum(
    d: Map<usize, Vec<usize>>,
    tol: usize,
    segs: Seq<SegmentInfo>,
    ks: Seq<usize>,
)
    requires
        merged_segments(d, tol, segs),
        ks.no_duplicates(),
        ks.to_set() == d.dom(),
    ensures
        map_value_sum(leaders_spec(segs)) == segment_vote_sum(segs),
        segment_vote_sum(segs) == distinct_detections(d, ks),
{
    let parts = segment_parts(segs);
    assert forall|i: int| 0 <= i < segs.len() implies #[trigger] parts[i].len() > 0 && describes_segment(
        segs[i],
        d,
        parts[i],
    ) by {
        assert(parts[i].len() > 0);
    }
    lemma_leaders_of_runs(d, segs);
    lemma_segment_votes_are_distinct_detections(d, tol, segs, ks);
}

/// Where run `i` begins in the flattened runs.
pub open spec fn part_offset(parts: Seq<Seq<usize>>, i: int) -> int {
    parts.take(i).flatten().len() as int
}

proof fn lemma_part_positions(parts: Seq<Seq<usize>>, i: int)
    requires
        0 <= i < parts.len(),
    ensures
        part_offset(parts, i + 1) == part_offset(parts, i) + parts[i].len(),
        part_offset(parts, i) + parts[i].len() <= parts.flatten().len(),
        forall|a: int|
            0 <= a < parts[i].len() ==> parts.flatten()[part_offset(parts, i) + a] == #[trigger] parts[i][a],
    decreases parts.len(),
{
    let pre = parts.drop_last();
    assert(pre.push(parts.last()) =~= parts);
    pre.lemma_flatten_push(parts.last());
    assert(parts.take(i + 1) =~= parts.take(i).push(parts[i]));
    parts.take(i).lemma_flatten_push(parts[i]);
    if i < parts.len() - 1 {
        assert(pre.take(i) =~= parts.take(i));
        assert(pre.take(i + 1) =~= parts.take(i + 1));
        assert(pre[i] == parts[i]);
        lemma_part_positions(pre, i);
        assert forall|a: int| 0 <= a < parts[i].len() implies parts.flatten()[part_offset(parts, i) + a]
            == #[trigger] parts[i][a] by {
            assert(pre.flatten()[part_offset(pre, i) + a] == pre[i][a]);
        }
    } else {
        assert(parts.take(i) =~= pre);
    }
}

proof fn lemma_offsets_monotone(parts: Seq<Seq<usize>>, i: int, j: int)
    requires
        0 <= i <= j <= parts.len(),
    ensures
        part_offset(parts, i) <= part_offset(parts, j),
    decreases j - i,
{
    if i < j {
        lemma_part_positions(parts, j - 1);
        lemma_offsets_monotone(parts, i, j - 1);
    }
}

proof fn lemma_position_in_part(parts: Seq<Seq<usize>>, p: int)
    requires
        0 <= p < parts.flatten().len(),
    ensures
        exists|i: int|
            0 <= i < parts.len() && part_offset(parts, i) <= p < #[trigger] part_offset(parts, i + 1),
    decreases parts.len(),
{
    let pre = parts.drop_last();
    assert(pre.push(parts.last()) =~= parts);
    pre.lemma_flatten_push(parts.last());
    let n = parts.len() - 1;
    assert(parts.take(n) =~= pre);
    assert(parts.take(n + 1) =~= parts);
    if p < pre.flatten().len() {
        lemma_position_in_part(pre, p);
        let i = choose|i: int|
            0 <= i < pre.len() && part_offset(pre, i) <= p < #[trigger] part_offset(pre, i + 1);
        assert(pre.take(i) =~= parts.take(i));
        assert(pre.take(i + 1) =~= parts.take(i + 1));
        assert(part_offset(parts, i) <= p < part_offset(parts, i + 1));
    } else {
        assert(part_offset(parts, n) <= p < part_offset(parts, n + 1));
    }
}

/// Inside a run the gap to the previous candidate is at most `tol`; at the
/// start of every run but the first it is more than `tol`.
proof fn lemma_gap_at_position(parts: Seq<Seq<usize>>, tol: usize, i: int, m: int)
    requires
        splits_at_gaps(parts, tol),
        0 <= i < parts.len(),
        part_offset(parts, i) <= m < part_offset(parts, i + 1),
        m > 0,
    ensures
        m > part_offset(parts, i) ==> parts.flatten()[m] - parts.flatten()[m - 1] <= tol,
        m == part_offset(parts, i) ==> parts.flatten()[m] - parts.flatten()[m - 1] > tol,
{
    lemma_part_positions(parts, i);
    let o = part_offset(parts, i);
    let a = m - o;
    assert(parts.flatten()[o + a] == parts[i][a]);
    if m > o {
        assert(parts.flatten()[o + (a - 1)] == parts[i][a - 1]);
        assert(parts[i][a] - parts[i][a - 1] <= tol);
    } else {
        assert(i > 0) by {
            if i == 0 {
                assert(parts.take(0) =~= Seq::<Seq<usize>>::empty());
                assert(Seq::<Seq<usize>>::empty().flatten() =~= Seq::<usize>::empty());
            }
        }
        lemma_part_positions(parts, i - 1);
        let prev = parts[i - 1];
        assert(prev.len() > 0);
        assert(parts.flatten()[part_offset(parts, i - 1) + (prev.len() - 1)] == prev[prev.len() - 1]);
        assert(parts[i][0] - parts[i - 1].last() > tol);
    }
}

/// Every change point of `inner` is one of `outer`.
pub open spec fn run_within(inner: SegmentInfo, outer: SegmentInfo) -> bool {
    forall|a: int|
        0 <= a < inner.change_points@.len() ==> outer.change_points@.contains(
            #[trigger] inner.change_points@[a],
        )
}

/// Merging with a larger tolerance only joins segments: with `tol1 <= tol2`,
/// segment `i` found with `tol1` lies inside a single segment `j` found with
/// `tol2`, which this returns.
pub proof fn lemma_merging_monotone_in_tolerance(
    d: Map<usize, Vec<usize>>,
    tol1: usize,
    segs1: Seq<SegmentInfo>,
    tol2: usize,
    segs2: Seq<SegmentInfo>,
    i: int,
) -> (j: int)
    requires
        tol1 <= tol2,
        merged_segments(d, tol1, segs1),
        merged_segments(d, tol2, segs2),
        0 <= i < segs1.len(),
    ensures
        0 <= j < segs2.len(),
        run_within(segs1[i], segs2[j]),
{
    let p1 = segment_parts(segs1);
    let p2 = segment_parts(segs2);
    lemma_same_sorted(p1.flatten(), p2.flatten(), d);
    lemma_part_positions(p1, i);
    let o = part_offset(p1, i);
    assert(p1[i].len() > 0);
    lemma_position_in_part(p2, o);
    let j = choose|j: int| 0 <= j < p2.len() && part_offset(p2, j) <= o < #[trigger] part_offset(p2, j + 1);
    lemma_part_positions(p2, j);
    assert forall|a: int| 0 <= a < segs1[i].change_points@.len() implies segs2[j].change_points@.contains(
        #[trigger] segs1[i].change_points@[a],
    ) by {
        lemma_run_stays(p1, tol1, p2, tol2, i, j, a);
        let b = o + a - part_offset(p2, j);
        assert(p2[j][b] == p2.flatten()[part_offset(p2, j) + b]);
    }
    j
}

proof fn lemma_run_stays(
    p1: Seq<Seq<usize>>,
    tol1: usize,
    p2: Seq<Seq<usize>>,
    tol2: usize,
    i: int,
    j: int,
    a: int,
)
    requires
        tol1 <= tol2,
        p1.flatten() == p2.flatten(),
        splits_at_gaps(p1, tol1),
        splits_at_gaps(p2, tol2),
        0 <= i < p1.len(),
        0 <= j < p2.len(),
        part_offset(p2, j) <= part_offset(p1, i) < part_offset(p2, j + 1),
        0 <= a < p1[i].len(),
    ensures
        part_offset(p1, i) + a < part_offset(p2, j + 1),
        p1.flatten()[part_offset(p1, i) + a] == p1[i][a],
    decreases a,
{
    lemma_part_positions(p1, i);
    let o = part_offset(p1, i);
    if a > 0 {
        lemma_run_stays(p1, tol1, p2, tol2, i, j, a - 1);
        let m = o + a;
        if m >= part_offset(p2, j + 1) {
            // m is then the first position of run j + 1 of p2
            assert(m == part_offset(p2, j + 1));
            lemma_part_positions(p2, j);
            assert(j + 1 < p2.len()) by {
                if j + 1 >= p2.len() {
                    assert(p2.take(j + 1) =~= p2);
                }
            }
            lemma_part_positions(p2, j + 1);
            lemma_gap_at_position(p2, tol2, j + 1, m);
            lemma_gap_at_position(p1, tol1, i, m);
            assert(false);
        }
    }
}

/// Two strictly increasing listings of the candidates are the same.
proof fn lemma_same_sorted(a: Seq<usize>, b: Seq<usize>, d: Map<usize, Vec<usize>>)
    requires
        strictly_increasing(a),
        strictly_increasing(b),
        forall|c: usize| #[trigger] a.contains(c) <==> is_candidate(d, c),
        forall|c: usize| #[trigger] b.contains(c) <==> is_candidate(d, c),
    ensures
        a == b,
{
    assert forall|c: usize| a.contains(c) <==> b.contains(c) by {}
    lemma_sorted_unique(a, b);
}

proof fn lemma_sorted_unique(a: Seq<usize>, b: Seq<usize>)
    requires
        strictly_increasing(a),
        strictly_increasing(b),
        forall|c: usize| a.contains(c) <==> b.contains(c),
    ensures
        a == b,
    decreases a.len(),
{
    if a.len() == 0 {
        if b.len() > 0 {
            assert(b.contains(b[0]));
        }
        assert(a =~= b);
    } else {
        assert(b.len() > 0) by {
            assert(a.contains(a[0]));
        }
        let x = a.last();
        let y = b.last();
        assert(a.contains(x));
        assert(b.contains(y));
        let iy = choose|k: int| 0 <= k < a.len() && a[k] == y;
        let ix = choose|k: int| 0 <= k < b.len() && b[k] == x;
        assert(y <= x) by {
            if iy < a.len() - 1 {
                assert(a[iy] < a[a.len() - 1]);
            }
        }
        assert(x <= y) by {
            if ix < b.len() - 1 {
                assert(b[ix] < b[b.len() - 1]);
            }
        }
        let a0 = a.drop_last();
        let b0 = b.drop_last();
        assert forall|c: usize| a0.contains(c) <==> b0.contains(c) by {
            if a0.contains(c) {
                let k = choose|k: int| 0 <= k < a0.len() && a0[k] == c;
                assert(a[k] == c && a[k] < a[a.len() - 1]);
                assert(b.contains(c));
                let m = choose|m: int| 0 <= m < b.len() && b[m] == c;
                assert(m != b.len() - 1);
                assert(b0[m] == c);
            }
            if b0.contains(c) {
                let k = choose|k: int| 0 <= k < b0.len() && b0[k] == c;
                assert(b[k] == c && b[k] < b[b.len() - 1]);
                assert(a.contains(c));
                let m = choose|m: int| 0 <= m < a.len() && a[m] == c;
                assert(m != a.len() - 1);
                assert(a0[m] == c);
            }
        }
        assert(strictly_increasing(a0));
        assert(strictly_increasing(b0));
        lemma_sorted_unique(a0, b0);
        assert(a =~= a0.push(x));
        assert(b =~= b0.push(y));
    }
}

/// With tolerance zero every segment holds exactly one change point.
pub proof fn lemma_zero_tolerance_singletons(d: Map<usize, Vec<usize>>, segs: Seq<SegmentInfo>)
    requires
        merged_segments(d, 0, segs),
    ensures
        forall|i: int| 0 <= i < segs.len() ==> (#[trigger] segs[i]).change_points@.len() == 1,
{
    let parts = segment_parts(segs);
    assert forall|i: int| 0 <= i < segs.len() implies (#[trigger] segs[i]).change_points@.len() == 1 by {
        assert(parts[i].len() > 0);
        if parts[i].len() > 1 {
            lemma_part_positions(parts, i);
            let o = part_offset(parts, i);
            assert(parts.flatten()[o] == parts[i][0]);
            assert(parts.flatten()[o + 1] == parts[i][1]);
            assert(parts[i][1] - parts[i][0] <= 0);
        }
    }
}

/// Where each run begins, in order.
pub open spec fn run_starts(parts: Seq<Seq<usize>>) -> Seq<int> {
    Seq::new(parts.len(), |i: int| part_offset(parts, i))
}

proof fn lemma_run_starts_increasing(parts: Seq<Seq<usize>>, i: int, j: int)
    requires
        forall|k: int| 0 <= k < parts.len() ==> #[trigger] parts[k].len() > 0,
        0 <= i < j < parts.len(),
    ensures
        part_offset(parts, i) < part_offset(parts, j),
    decreases j - i,
{
    lemma_part_positions(parts, i);
    assert(parts[i].len() > 0);
    lemma_offsets_monotone(parts, i + 1, j);
}

/// A run of the coarser split starts where a run of the finer split starts.
proof fn lemma_coarse_start_is_fine_start(
    p1: Seq<Seq<usize>>,
    tol1: usize,
    p2: Seq<Seq<usize>>,
    tol2: usize,
    j: int,
)
    requires
        tol1 <= tol2,
        p1.flatten() == p2.flatten(),
        splits_at_gaps(p1, tol1),
        splits_at_gaps(p2, tol2),
        0 <= j < p2.len(),
    ensures
        exists|i: int| 0 <= i < p1.len() && part_offset(p1, i) == part_offset(p2, j),
{
    lemma_part_positions(p2, j);
    assert(p2[j].len() > 0);
    let m = part_offset(p2, j);
    if j == 0 {
        assert(p2.take(0) =~= Seq::<Seq<usize>>::empty());
        assert(p1.take(0) =~= Seq::<Seq<usize>>::empty());
        assert(p1.len() > 0) by {
            if p1.len() == 0 {
                assert(p1.flatten() =~= Seq::<usize>::empty());
            }
        }
        assert(part_offset(p1, 0) == 0);
    } else {
        lemma_run_starts_increasing(p2, 0, j);
        assert(p2.take(0) =~= Seq::<Seq<usize>>::empty());
        lemma_position_in_part(p1, m);
        let i = choose|i: int| 0 <= i < p1.len() && part_offset(p1, i) <= m < #[trigger] part_offset(p1, i + 1);
        lemma_part_positions(p2, j);
        lemma_gap_at_position(p2, tol2, j, m);
        lemma_gap_at_position(p1, tol1, i, m);
    }
}

/// Merging with a larger tolerance never gives more segments.
pub proof fn lemma_fewer_segments_with_larger_tolerance(
    d: Map<usize, Vec<usize>>,
    tol1: usize,
    segs1: Seq<SegmentInfo>,
    tol2: usize,
    segs2: Seq<SegmentInfo>,
)
    requires
        tol1 <= tol2,
        merged_segments(d, tol1, segs1),
        merged_segments(d, tol2, segs2),
    ensures
        segs2.len() <= segs1.len(),
{
    let p1 = segment_parts(segs1);
    let p2 = segment_parts(segs2);
    lemma_same_sorted(p1.flatten(), p2.flatten(), d);
    let o1 = run_starts(p1);
    let o2 = run_starts(p2);
    assert(o1.no_duplicates()) by {
        assert forall|x: int, y: int| 0 <= x < y < o1.len() implies o1[x] != o1[y] by {
            lemma_run_starts_increasing(p1, x, y);
        }
    }
    assert(o2.no_duplicates()) by {
        assert forall|x: int, y: int| 0 <= x < y < o2.len() implies o2[x] != o2[y] by {
            lemma_run_starts_increasing(p2, x, y);
        }
    }
    assert(o2.to_set().subset_of(o1.to_set())) by {
        assert forall|m: int| o2.to_set().contains(m) implies o1.to_set().contains(m) by {
            let j = choose|j: int| 0 <= j < o2.len() && o2[j] == m;
            lemma_coarse_start_is_fine_start(p1, tol1, p2, tol2, j);
            let i = choose|i: int| 0 <= i < p1.len() && part_offset(p1, i) == part_offset(p2, j);
            assert(o1[i] == m);
        }
    }
    o1.unique_seq_to_set();
    o2.unique_seq_to_set();
    vstd::set_lib::lemma_len_subset(o2.to_set(), o1.to_set());
}

/// Adding up a vote map keyed by distinct change points, each mapped to the
/// number of window sizes voting for it, gives the vote total of those points.
proof fn lemma_vote_map_sum(d: Map<usize, Vec<usize>>, s: Seq<usize>, m: Map<usize, usize>)
    requires
        s.no_duplicates(),
        m.dom() == s.to_set(),
        forall|cp: usize| #[trigger] m.contains_key(cp) ==> m[cp] as nat == windows_voting_for(d, cp).len(),
    ensures
        map_value_sum(m) == vote_total(d, s),
    decreases s.len(),
{
    vstd::seq_lib::seq_to_set_is_finite(s);
    if s.len() == 0 {
        assert(m.dom() =~= Set::<usize>::empty());
        assert(m.dom().len() == 0);
    } else {
        let c = s.last();
        let pre = s.drop_last();
        assert(s.to_set().contains(c)) by {
            assert(s[s.len() - 1] == c);
        }
        let rest = m.remove(c);
        assert(rest.dom() =~= pre.to_set()) by {
            assert forall|x: usize| rest.dom().contains(x) <==> pre.to_set().contains(x) by {
                if pre.to_set().contains(x) {
                    let k = choose|k: int| 0 <= k < pre.len() && pre[k] == x;
                    assert(s[k] == x);
                    assert(k != s.len() - 1);
                    assert(s.to_set().contains(x));
                }
                if rest.dom().contains(x) {
                    assert(s.to_set().contains(x));
                    let k = choose|k: int| 0 <= k < s.len() && s[k] == x;
                    assert(k != s.len() - 1);
                    assert(pre[k] == x);
                }
            }
        }
        assert(pre.no_duplicates()) by {
            assert forall|a: int, b: int| 0 <= a < pre.len() && 0 <= b < pre.len() && a != b implies pre[a]
                != pre[b] by {
                assert(pre[a] == s[a] && pre[b] == s[b]);
            }
        }
        lemma_vote_map_sum(d, pre, rest);
        lemma_map_value_sum_remove(m, c);
    }
}

/// The vote of a segment is the sum of the votes of its change points.
pub proof fn lemma_segment_vote_is_sum_of_votes(d: Map<usize, Vec<usize>>, tol: usize, segs: Seq<SegmentInfo>, i: int)
    requires
        merged_segments(d, tol, segs),
        0 <= i < segs.len(),
    ensures
        segs[i].segment_vote as nat == map_value_sum(segs[i].votes@),
{
    let parts = segment_parts(segs);
    let part = parts[i];
    lemma_part_positions(parts, i);
    let off = part_offset(parts, i);
    assert(strictly_increasing(part)) by {
        assert forall|a: int, b: int| 0 <= a < b < part.len() implies part[a] < part[b] by {
            assert(parts.flatten()[off + a] == part[a]);
            assert(parts.flatten()[off + b] == part[b]);
        }
    }
    lemma_increasing_no_duplicates(part);
    assert(describes_segment(segs[i], d, part));
    lemma_vote_map_sum(d, part, segs[i].votes@);
}

} // verus!
