use rand::{Rng, SeedableRng};
use rand_xoshiro::Xoshiro256PlusPlus;
use scanr::bootstrap::{
    bootstrap_positions, default_block_length, replication_positions, requested_block_length,
    seed_from_parts, tbb_layout, threshold_applies, REPLICATION_SALT, WINDOW_SALT,
};

#[test]
fn seed_mixing_values() {
    assert_eq!(seed_from_parts(0, 0, 0, 0), 0x9e37_79b9_7f4a_7c15);
    assert_eq!(seed_from_parts(1, 2, 3, WINDOW_SALT), 0xf9c3_a9c8_31aa_90ea);
    assert_eq!(seed_from_parts(42, 7, 10, REPLICATION_SALT), 0xb8f9_9d54_e883_4443);
    let by_formula = 5u64
        ^ 0x9E37_79B9_7F4A_7C15
        ^ 11u64.wrapping_mul(0xBF58_476D_1CE4_E5B9)
        ^ 13u64.wrapping_mul(0x94D0_49BB_1331_11EB)
        ^ 17u64.wrapping_mul(0xD6E8_FD50_1B3D_F1AB);
    assert_eq!(seed_from_parts(5, 11, 13, 17), by_formula);
}

#[test]
fn block_length_clamps() {
    assert_eq!(requested_block_length(1, 20), 3);
    assert_eq!(requested_block_length(5, 20), 5);
    assert_eq!(requested_block_length(50, 20), 20);
    assert_eq!(requested_block_length(50, 2), 3);
    assert_eq!(default_block_length(4, 40), 8);
    assert_eq!(default_block_length(9, 40), 9);
    assert_eq!(default_block_length(9, 5), 8);
    assert_eq!(default_block_length(30, 12), 12);
}

#[test]
fn layout_of_blocks() {
    let l = tbb_layout(20, 10, 8).unwrap();
    assert_eq!(l.n_views, 13);
    assert_eq!(l.k, 3);
    assert_eq!(l.total_len, 20);
    let exact = tbb_layout(20, 10, 5).unwrap();
    assert_eq!(exact.k, 4);
    assert_eq!(
        tbb_layout(6, 3, 8).unwrap_err(),
        "reference series is shorter than block length"
    );
}

#[test]
fn positions_follow_the_layout() {
    let pooled_len = 20;
    let l = tbb_layout(pooled_len, 10, 8).unwrap();
    let pos = bootstrap_positions(12345, l, pooled_len);
    assert_eq!(pos.len(), 20);
    for (p, &(src, j)) in pos.iter().enumerate() {
        assert_eq!(j, p % 8);
        assert!(src < pooled_len);
        assert!(src - j < l.n_views);
        let first = pos[(p / 8) * 8];
        assert_eq!(src - j, first.0 - first.1);
    }
    assert_eq!(bootstrap_positions(12345, l, pooled_len), pos);
}

#[test]
fn block_starts_are_the_generator_draws() {
    let pooled_len = 30;
    let l = tbb_layout(pooled_len, 11, 4).unwrap();
    assert_eq!(l.k, 6);
    let seed = 987_654_321;
    let mut rng = Xoshiro256PlusPlus::seed_from_u64(seed);
    let expected: Vec<usize> = (0..l.k).map(|_| rng.random_range(0..l.n_views)).collect();
    let pos = bootstrap_positions(seed, l, pooled_len);
    for (p, &(src, j)) in pos.iter().enumerate() {
        assert_eq!(src - j, expected[p / 4]);
    }
}

#[test]
fn positions_depend_on_the_seed() {
    let pooled_len = 400;
    let l = tbb_layout(pooled_len, 200, 8).unwrap();
    let a = bootstrap_positions(1, l, pooled_len);
    let b = bootstrap_positions(2, l, pooled_len);
    assert_ne!(a, b);
    let starts: Vec<usize> = a.iter().step_by(8).map(|&(s, _)| s).collect();
    assert!(starts.iter().any(|&s| s != starts[0]));
    assert!(starts.iter().all(|&s| s < l.n_views));
}

#[test]
fn threshold_window_checks() {
    assert_eq!(
        threshold_applies(10, 0, 2, 3).unwrap_err(),
        "this implementation assumes delta == w"
    );
    assert_eq!(threshold_applies(10, 2, 4, 4).unwrap(), true);
    assert_eq!(threshold_applies(10, 3, 4, 4).unwrap(), false);
    assert_eq!(threshold_applies(10, 11, 1, 1).unwrap(), false);
}

#[test]
fn replication_positions_use_the_replication_seed() {
    let pooled_len = 40;
    let l = tbb_layout(pooled_len, 15, 6).unwrap();
    let seed = 2024;
    for rep_id in 0..5 {
        let rep_seed = seed_from_parts(seed, rep_id, 15, REPLICATION_SALT);
        let pos = replication_positions(seed, rep_id, l, pooled_len);
        assert_eq!(pos, bootstrap_positions(rep_seed, l, pooled_len));
        let mut rng = Xoshiro256PlusPlus::seed_from_u64(rep_seed);
        let starts: Vec<usize> = (0..l.k).map(|_| rng.random_range(0..l.n_views)).collect();
        for (p, &(src, j)) in pos.iter().enumerate() {
            assert_eq!((src, j), (starts[p / 6] + p % 6, p % 6));
        }
    }
    // The same replication gives the same sample whatever was drawn before.
    let _ = replication_positions(seed, 3, l, pooled_len);
    assert_eq!(
        replication_positions(seed, 1, l, pooled_len),
        replication_positions(seed, 1, l, pooled_len)
    );
    assert_ne!(
        replication_positions(seed, 0, l, pooled_len),
        replication_positions(seed, 1, l, pooled_len)
    );
}
