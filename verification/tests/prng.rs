use mt19937::generator::{InvalidSeed, Prng};

/// Known-answer test: seeding from the key `[0x123, 0x234, 0x345, 0x456]`
/// must reproduce the first 20 outputs of the reference implementation
/// bit for bit.
#[test]
fn rand() {
    let key: Vec<u32> = vec![0x123, 0x234, 0x345, 0x456];
    let mut prng = match Prng::from_array(&key) {
        Ok(g) => g,
        Err(_) => panic!("non-empty key was rejected"),
    };
    let expected: Vec<u64> = vec![
        1067595299, 955945823, 477289528, 4107218783, 4228976476, 3344332714, 3355579695,
        227628506, 810200273, 2591290167, 2560260675, 3242736208, 646746669, 1479517882,
        4245472273, 1143372638, 3863670494, 3221021970, 1773610557, 1138697238,
    ];
    for i in 0..expected.len() {
        let u = prng.rand();
        assert_eq!(u, expected[i]);
    }
}

/// Two generators constructed from the same seed produce identical output
/// sequences, across the twist boundary and beyond.
#[test]
fn determinism() {
    let mut g1 = Prng::new(4357);
    let mut g2 = Prng::new(4357);
    for _ in 0..1300 {
        assert_eq!(g1.rand(), g2.rand());
    }
}

/// Generators constructed from different seeds are genuinely different
/// (the outputs are not a constant of the call count).
#[test]
fn seeds_matter() {
    let mut g1 = Prng::new(1);
    let mut g2 = Prng::new(2);
    let mut all_equal = true;
    for _ in 0..10 {
        if g1.rand() != g2.rand() {
            all_equal = false;
        }
    }
    assert!(!all_equal);
}

/// Resetting with a seed replays the sequence from the start: reset,
/// collect, reset again with the same seed, collect again, equal.
#[test]
fn reset_idempotence() {
    let mut g = Prng::new(99);
    g.reset(20180101);
    let v1: Vec<u64> = (0..10).map(|_| g.rand()).collect();
    g.reset(20180101);
    let v2: Vec<u64> = (0..10).map(|_| g.rand()).collect();
    assert_eq!(v1, v2);
}

/// Resetting restores a freshly constructed generator's sequence even
/// after the original has been drawn from and reseeded in between.
#[test]
fn reset_matches_new() {
    let mut g1 = Prng::new(555);
    let reference: Vec<u64> = (0..700).map(|_| g1.rand()).collect();
    let mut g2 = Prng::new(123);
    for _ in 0..50 {
        g2.rand();
    }
    g2.reset(555);
    let replay: Vec<u64> = (0..700).map(|_| g2.rand()).collect();
    assert_eq!(reference, replay);
}

/// Every output is a 32-bit value, for the integer path and the array
/// path, including across a twist boundary.
#[test]
fn outputs_are_32_bit() {
    let mut g = Prng::new(0xdeadbeef);
    for _ in 0..650 {
        assert!(g.rand() <= 0xffffffff);
    }
    let key: Vec<u32> = vec![7];
    let mut h = match Prng::from_array(&key) {
        Ok(g) => g,
        Err(_) => panic!("non-empty key was rejected"),
    };
    for _ in 0..650 {
        assert!(h.rand() <= 0xffffffff);
    }
}

/// Exact first outputs of the integer seeding path, computed from the
/// congruential seeding, twist and tempering recurrences.
#[test]
fn integer_seeding_known_values() {
    let mut g = Prng::new(4357);
    let expected: Vec<u64> = vec![
        3510405877, 4290933890, 2191955339, 564929546, 152112058, 4262624192, 2687398418,
        268830360,
    ];
    for i in 0..expected.len() {
        assert_eq!(g.rand(), expected[i]);
    }
}

/// Seed 0 is accepted (any 64-bit input is) and the generator still runs;
/// under the congruential seeding the low 32 bits of the seed survive as
/// word 0, so only the all-zero masked seed degenerates.
#[test]
fn zero_seed_runs() {
    let mut g = Prng::new(0);
    for _ in 0..700 {
        assert!(g.rand() <= 0xffffffff);
    }
}

/// An empty key sequence is rejected with `InvalidSeed`.
#[test]
fn empty_key_rejected() {
    let key: Vec<u32> = Vec::new();
    let r = Prng::from_array(&key);
    assert!(matches!(r, Err(InvalidSeed)));
}

/// A single-word key is accepted.
#[test]
fn single_word_key_accepted() {
    let key: Vec<u32> = vec![0];
    assert!(Prng::from_array(&key).is_ok());
}

/// A key longer than the state array (which drives the first mixing pass
/// past one wraparound per step) still seeds a working, deterministic
/// generator.
#[test]
fn long_key() {
    let key: Vec<u32> = (0..700u32).collect();
    let mut g1 = match Prng::from_array(&key) {
        Ok(g) => g,
        Err(_) => panic!("non-empty key was rejected"),
    };
    let mut g2 = match Prng::from_array(&key) {
        Ok(g) => g,
        Err(_) => panic!("non-empty key was rejected"),
    };
    for _ in 0..30 {
        assert_eq!(g1.rand(), g2.rand());
    }
}
