use scanr::aggregate::{
    aggregate_votes, capped_leader_votes, compute_change_points_with_votes, compute_cp_counts,
    leaders_from_segments,
};
use scanr::types::SegmentInfo;
use std::collections::BTreeMap;

fn detections() -> BTreeMap<usize, Vec<usize>> {
    let mut d = BTreeMap::new();
    d.insert(10, vec![100, 200, 200]);
    d.insert(11, vec![100, 205]);
    d.insert(12, vec![]);
    d
}

fn votes_of(pairs: &[(usize, usize)]) -> BTreeMap<usize, usize> {
    pairs.iter().copied().collect()
}

#[test]
fn counts_one_vote_per_window() {
    let counts = compute_cp_counts(&detections());
    assert_eq!(counts, votes_of(&[(100, 2), (200, 1), (205, 1)]));
}

#[test]
fn counts_of_no_detections_are_empty() {
    let counts = compute_cp_counts(&BTreeMap::new());
    assert!(counts.is_empty());
    let mut d = BTreeMap::new();
    d.insert(5, Vec::new());
    assert!(compute_cp_counts(&d).is_empty());
}

#[test]
fn segments_cut_at_large_gaps() {
    let segs = compute_change_points_with_votes(&detections(), 5);
    assert_eq!(segs.len(), 2);
    assert_eq!(segs[0].change_points, vec![100]);
    assert_eq!(segs[0].votes, votes_of(&[(100, 2)]));
    assert_eq!(segs[0].segment_vote, 2);
    assert_eq!(segs[1].change_points, vec![200, 205]);
    assert_eq!(segs[1].votes, votes_of(&[(200, 1), (205, 1)]));
    assert_eq!(segs[1].segment_vote, 2);
}

#[test]
fn gap_equal_to_tolerance_is_merged() {
    let mut d = BTreeMap::new();
    d.insert(3, vec![10, 13, 17]);
    let segs = compute_change_points_with_votes(&d, 3);
    assert_eq!(segs.len(), 2);
    assert_eq!(segs[0].change_points, vec![10, 13]);
    assert_eq!(segs[1].change_points, vec![17]);
    let all = compute_change_points_with_votes(&d, 100);
    assert_eq!(all.len(), 1);
    assert_eq!(all[0].change_points, vec![10, 13, 17]);
    assert_eq!(all[0].segment_vote, 3);
}

#[test]
fn no_candidates_give_no_segments() {
    assert!(compute_change_points_with_votes(&BTreeMap::new(), 4).is_empty());
}

#[test]
fn leaders_take_most_votes_then_smallest_index() {
    let segs = compute_change_points_with_votes(&detections(), 5);
    let leaders = leaders_from_segments(&segs);
    assert_eq!(leaders, votes_of(&[(100, 2), (200, 2)]));
}

#[test]
fn leader_prefers_more_votes_over_smaller_index() {
    let segs = vec![SegmentInfo {
        change_points: vec![1, 2, 3],
        votes: votes_of(&[(1, 1), (2, 4), (3, 4)]),
        segment_vote: 9,
    }];
    assert_eq!(leaders_from_segments(&segs), votes_of(&[(2, 9)]));
}

#[test]
fn segment_without_votes_has_no_leader() {
    let segs = vec![SegmentInfo {
        change_points: vec![],
        votes: BTreeMap::new(),
        segment_vote: 0,
    }];
    assert!(leaders_from_segments(&segs).is_empty());
}

#[test]
fn capped_votes_never_exceed_window_count() {
    let segs = compute_change_points_with_votes(&detections(), 5);
    let out = capped_leader_votes(&segs, 3).unwrap();
    assert_eq!(out.leaders_segment_votes, votes_of(&[(100, 2), (200, 2)]));
    assert_eq!(out.capped_votes, votes_of(&[(100, 2), (200, 2)]));
    let one = capped_leader_votes(&segs, 1).unwrap();
    assert_eq!(one.capped_votes, votes_of(&[(100, 1), (200, 1)]));
}

#[test]
fn zero_windows_is_an_error() {
    let segs = compute_change_points_with_votes(&detections(), 5);
    let err = capped_leader_votes(&segs, 0).unwrap_err();
    assert_eq!(err, "number of windows must be positive");
    let err = aggregate_votes(&BTreeMap::new(), 5).unwrap_err();
    assert_eq!(err, "number of windows must be positive");
}

#[test]
fn aggregation_keeps_every_vote() {
    let d = detections();
    let (segs, out) = aggregate_votes(&d, 5).unwrap();
    let total: usize = segs.iter().map(|s| s.segment_vote).sum();
    let counts: usize = compute_cp_counts(&d).values().sum();
    assert_eq!(total, counts);
    assert_eq!(total, 4);
    let distinct: usize = d
        .values()
        .map(|cps| cps.iter().collect::<std::collections::BTreeSet<_>>().len())
        .sum();
    assert_eq!(total, distinct);
    assert_eq!(out.leaders_segment_votes.len(), segs.len());
    assert!(out.capped_votes.values().all(|&v| v >= 1 && v <= d.len()));
}

#[test]
fn segments_are_increasing_and_disjoint() {
    let mut d = BTreeMap::new();
    d.insert(1, vec![50, 3, 27, 30]);
    d.insert(2, vec![4, 31, 90]);
    d.insert(3, vec![3, 88]);
    let segs = compute_change_points_with_votes(&d, 3);
    let flat: Vec<usize> = segs.iter().flat_map(|s| s.change_points.clone()).collect();
    assert_eq!(flat, vec![3, 4, 27, 30, 31, 50, 88, 90]);
    let parts: Vec<Vec<usize>> = segs.iter().map(|s| s.change_points.clone()).collect();
    assert_eq!(parts, vec![vec![3, 4], vec![27, 30, 31], vec![50], vec![88, 90]]);
    assert_eq!(segs[0].votes, votes_of(&[(3, 2), (4, 1)]));
    let leaders = leaders_from_segments(&segs);
    assert_eq!(leaders, votes_of(&[(3, 3), (27, 3), (50, 1), (88, 2)]));
}

fn mixed_detections() -> BTreeMap<usize, Vec<usize>> {
    let mut d = BTreeMap::new();
    d.insert(1, vec![50, 3, 27, 30]);
    d.insert(2, vec![4, 31, 90]);
    d.insert(3, vec![3, 88]);
    d
}

#[test]
fn larger_tolerance_only_joins_segments() {
    let d = mixed_detections();
    let fine = compute_change_points_with_votes(&d, 3);
    let coarse = compute_change_points_with_votes(&d, 25);
    assert!(coarse.len() <= fine.len());
    assert_eq!(coarse.len(), 2);
    for seg in &fine {
        assert!(coarse
            .iter()
            .any(|c| seg.change_points.iter().all(|cp| c.change_points.contains(cp))));
    }
}

#[test]
fn zero_tolerance_gives_singletons() {
    let segs = compute_change_points_with_votes(&mixed_detections(), 0);
    assert_eq!(segs.len(), 8);
    assert!(segs.iter().all(|s| s.change_points.len() == 1));
}

#[test]
fn leader_values_add_up_to_distinct_detections() {
    let d = mixed_detections();
    let segs = compute_change_points_with_votes(&d, 3);
    let leaders = leaders_from_segments(&segs);
    let sum: usize = leaders.values().sum();
    let distinct: usize = d
        .values()
        .map(|cps| cps.iter().collect::<std::collections::BTreeSet<_>>().len())
        .sum();
    assert_eq!(sum, distinct);
    assert_eq!(sum, 9);
}

#[test]
fn detections_that_fit_are_accepted() {
    assert!(scanr::aggregate::detections_fit(&mixed_detections()));
    assert!(scanr::aggregate::detections_fit(&BTreeMap::new()));
}

#[test]
fn segment_vote_is_the_sum_of_its_votes() {
    let d = mixed_detections();
    for tol in [0, 1, 3, 25, 100] {
        for seg in compute_change_points_with_votes(&d, tol) {
            let sum: usize = seg.votes.values().sum();
            assert_eq!(seg.segment_vote, sum);
            let keys: Vec<usize> = seg.votes.keys().copied().collect();
            assert_eq!(keys, seg.change_points);
        }
    }
    let segs = compute_change_points_with_votes(&mixed_detections(), 3);
    assert_eq!(segs[0].votes, votes_of(&[(3, 2), (4, 1)]));
    assert_eq!(segs[0].segment_vote, 3);
}
