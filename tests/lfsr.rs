use homomorphic_transistor::ConfigError;
use homomorphic_transistor::LFSR;

const P: u64 = 17;

fn clear_lc(cells: &Vec<u64>, coeffs: &Vec<u64>, p: u64) -> u64 {
    let mut acc: u64 = 0;
    for i in 0..cells.len() {
        acc = (acc + cells[i] * coeffs[i]) % p;
    }
    acc
}

fn clear_encrypt(v: u64, _p: u64) -> u64 {
    v
}

fn clear_decrypt(c: &u64) -> u64 {
    *c
}

fn taps_of(size: usize) -> Vec<u64> {
    if size == 32 {
        vec![3, 14, 6, 13, 15, 7, 1, 9, 13, 1, 16, 13, 3, 14, 15, 6, 13, 6, 5, 2, 5, 14, 14, 14, 10,
            12, 6, 1, 14, 14, 14, 8, 1]
    } else {
        vec![3, 12, 9, 15, 12, 6, 3, 9, 16, 3, 16, 15, 14, 13, 3, 16, 8, 15, 4, 7, 10, 14, 11, 13,
            10, 1, 1, 10, 13, 14, 15, 10, 6, 14, 14, 16, 3, 6, 7, 6, 6, 4, 9, 8, 8, 1, 8, 4, 4, 11,
            12, 8, 12, 15, 9, 3, 16, 6, 6, 8, 4, 6, 4, 9, 1]
    }
}

/// Runs the clear recurrence: the register holds the reversed seed; each step
/// outputs cell 0, shifts left and appends the feedback.
fn simulate(seed: &Vec<u64>, steps: usize) -> Vec<u64> {
    let n = seed.len();
    let taps = taps_of(n);
    let mut cells: Vec<u64> = seed.iter().rev().cloned().collect();
    let mut out = Vec::new();
    for _ in 0..steps {
        let mut fb = 0;
        for i in 0..n {
            fb = (fb + taps[i] * cells[i]) % P;
        }
        out.push(cells[0]);
        cells.remove(0);
        cells.push(fb);
    }
    out
}

fn sample_seed(n: usize) -> Vec<u64> {
    (0..n).map(|i| ((i * 7 + 3) % 17) as u64).collect()
}

#[test]
fn new_accepts_registered_pairs() {
    assert!(LFSR::<u64>::new(32, P).is_ok());
    assert!(LFSR::<u64>::new(64, P).is_ok());
}

#[test]
fn new_rejects_unregistered_pairs() {
    assert_eq!(LFSR::<u64>::new(16, P).err(), Some(ConfigError::UnregisteredTaps));
    assert_eq!(LFSR::<u64>::new(32, 19).err(), Some(ConfigError::UnregisteredTaps));
}

#[test]
fn seeding_accepts_a_valid_seed() {
    for size in [32usize, 64] {
        let mut l = LFSR::<u64>::new(size, P).unwrap();
        assert_eq!(l.encrypt_and_seed(&sample_seed(size), &clear_encrypt), Ok(()));
        let mut expected = sample_seed(size);
        expected.reverse();
        assert_eq!(l.decrypt_current_state(&clear_decrypt), expected);
    }
}

#[test]
fn seeding_rejects_wrong_length() {
    let mut l = LFSR::<u64>::new(32, P).unwrap();
    assert_eq!(l.encrypt_and_seed(&sample_seed(31), &clear_encrypt), Err(ConfigError::SeedLength));
    assert_eq!(l.encrypt_and_seed(&sample_seed(33), &clear_encrypt), Err(ConfigError::SeedLength));
}

#[test]
fn seeding_rejects_out_of_range_value() {
    let mut l = LFSR::<u64>::new(64, P).unwrap();
    let mut seed = sample_seed(64);
    seed[10] = 17;
    assert_eq!(l.encrypt_and_seed(&seed, &clear_encrypt), Err(ConfigError::SeedOutOfRange));
}

#[test]
fn silent_clock_matches_fibonacci_clock() {
    for size in [32usize, 64] {
        let seed = sample_seed(size);
        let mut silent = LFSR::<u64>::new(size, P).unwrap();
        silent.encrypt_and_seed(&seed, &clear_encrypt).unwrap();
        let mut fib = silent.clone();
        for _ in 0..(2 * size + 5) {
            assert_eq!(silent.silent_clock(&clear_lc), fib.clock_fibonacci(&clear_lc));
        }
    }
}

#[test]
fn silent_output_matches_clear_recurrence() {
    let seed = sample_seed(32);
    let expected = simulate(&seed, 100);
    let mut l = LFSR::<u64>::new(32, P).unwrap();
    l.encrypt_and_seed(&seed, &clear_encrypt).unwrap();
    for t in 0..100 {
        assert_eq!(l.silent_output(&clear_lc), expected[t]);
        l.silent_clock(&clear_lc);
    }
}

#[test]
fn silent_output_does_not_advance() {
    let mut l = LFSR::<u64>::new(32, P).unwrap();
    l.encrypt_and_seed(&sample_seed(32), &clear_encrypt).unwrap();
    let first = l.silent_output(&clear_lc);
    assert_eq!(l.silent_output(&clear_lc), first);
    assert_eq!(l.silent_clock(&clear_lc), first);
}

#[test]
fn single_one_seed_scenario() {
    for size in [32usize, 64] {
        let mut seed = vec![0u64; size];
        seed[size - 1] = 1;
        let expected = simulate(&seed, 3 * size);
        assert_eq!(expected[0], 1);
        let mut l = LFSR::<u64>::new(size, P).unwrap();
        l.encrypt_and_seed(&seed, &clear_encrypt).unwrap();
        assert_eq!(l.silent_clock(&clear_lc), 1);
        for t in 1..(3 * size) {
            assert_eq!(l.silent_clock(&clear_lc), expected[t]);
        }
    }
}

#[test]
fn first_feedback_of_single_one_seed() {
    // cells are [1, 0, ..., 0]: the feedback is taps[0] * 1 = 3, and it
    // appears as the output after `size` clocks.
    let mut seed = vec![0u64; 32];
    seed[31] = 1;
    let mut l = LFSR::<u64>::new(32, P).unwrap();
    l.encrypt_and_seed(&seed, &clear_encrypt).unwrap();
    let outs: Vec<u64> = (0..33).map(|_| l.silent_clock(&clear_lc)).collect();
    assert_eq!(outs[0], 1);
    assert!(outs[1..32].iter().all(|v| *v == 0));
    assert_eq!(outs[32], 3);
}

#[test]
fn fibonacci_clock_shifts_cells() {
    let seed = sample_seed(32);
    let mut l = LFSR::<u64>::new(32, P).unwrap();
    l.encrypt_and_seed(&seed, &clear_encrypt).unwrap();
    let before = l.decrypt_current_state(&clear_decrypt);
    let out = l.clock_fibonacci(&clear_lc);
    let after = l.decrypt_current_state(&clear_decrypt);
    assert_eq!(out, before[0]);
    assert_eq!(&after[..31], &before[1..]);
    let taps = taps_of(32);
    let fb = (0..32).fold(0, |acc, i| (acc + taps[i] * before[i]) % P);
    assert_eq!(after[31], fb);
}
