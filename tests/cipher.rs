use homomorphic_transistor::shake_keygen;
use homomorphic_transistor::ConfigError;
use homomorphic_transistor::{Transistor, TransistorParameters};

const P: u64 = 17;

fn clear_lc(cells: &Vec<u64>, coeffs: &Vec<u64>, p: u64) -> u64 {
    let mut acc: u64 = 0;
    for i in 0..cells.len() {
        acc = (acc + cells[i] * coeffs[i]) % p;
    }
    acc
}

fn clear_plus(x: &u64, y: &u64) -> u64 {
    (x + y) % P
}

fn clear_lut(x: &u64, table: &Vec<u64>, _p: u64) -> u64 {
    table[*x as usize]
}

fn clear_encrypt(v: u64, _p: u64) -> u64 {
    v
}

fn clear_decrypt(c: &u64) -> u64 {
    *c
}

fn params() -> TransistorParameters {
    TransistorParameters {
        p: 17,
        w: 32,
        k: 64,
        s_box: vec![1, 12, 6, 11, 14, 3, 15, 5, 10, 9, 13, 16, 7, 8, 0, 2, 4],
        matrix_mc: vec![
            vec![16, 16, 16, 2],
            vec![16, 1, 2, 16],
            vec![16, 2, 1, 1],
            vec![2, 1, 16, 1],
        ],
        filter: vec![
            vec![false, false, false, false],
            vec![true, false, true, false],
            vec![false, false, false, false],
            vec![true, false, true, false],
        ],
        a: 4,
        r: 4,
    }
}

fn taps_of(size: usize) -> Vec<u64> {
    if size == 32 {
        vec![3, 14, 6, 13, 15, 7, 1, 9, 13, 1, 16, 13, 3, 14, 15, 6, 13, 6, 5, 2, 5, 14, 14, 14, 10,
            12, 6, 1, 14, 14, 14, 8, 1]
    } else {
        vec![3, 12, 9, 15, 12, 6, 3, 9, 16, 3, 16, 15, 14, 13, 3, 16, 8, 15, 4, 7, 10, 14, 11, 13,
            10, 1, 1, 10, 13, 14, 15, 10, 6, 14, 14, 16, 3, 6, 7, 6, 6, 4, 9, 8, 8, 1, 8, 4, 4, 11,
            12, 8, 12, 15, 9, 3, 16, 6, 6, 8, 4, 6, 4, 9, 1]
    }
}

/// The clear keystream of a register seeded with `seed`.
fn keystream(seed: &Vec<u64>, steps: usize) -> Vec<u64> {
    let n = seed.len();
    let taps = taps_of(n);
    let mut cells: Vec<u64> = seed.iter().rev().cloned().collect();
    let mut out = Vec::new();
    for _ in 0..steps {
        let fb = (0..n).fold(0, |acc, i| (acc + taps[i] * cells[i]) % P);
        out.push(cells[0]);
        cells.remove(0);
        cells.push(fb);
    }
    out
}

/// Straightforward clear evaluation of `rounds` rounds from a zero grid.
fn clear_rounds(seed_w: &Vec<u64>, seed_k: &Vec<u64>, rounds: usize) -> Vec<Vec<u64>> {
    let pr = params();
    let a = pr.a;
    let ks = keystream(seed_k, a * a * rounds);
    let wh = keystream(seed_w, pr.r * rounds);
    let mut grid = vec![vec![0u64; a]; a];
    let mut outs = Vec::new();
    for round in 0..rounds {
        for i in 0..a {
            for j in 0..a {
                grid[i][j] = (grid[i][j] + ks[round * a * a + i * a + j]) % P;
                grid[i][j] = pr.s_box[grid[i][j] as usize];
            }
        }
        let mut out = Vec::new();
        for i in 0..a {
            for j in 0..a {
                if pr.filter[i][j] {
                    out.push(grid[i][j]);
                }
            }
        }
        for k in 0..out.len() {
            out[k] = (out[k] + wh[round * pr.r + k]) % P;
        }
        outs.push(out);
        for i in 0..a {
            grid[i].rotate_left(i);
        }
        let mut next = vec![vec![0u64; a]; a];
        for i in 0..a {
            for j in 0..a {
                next[i][j] = (0..a).fold(0, |acc, k| (acc + pr.matrix_mc[i][k] * grid[k][j]) % P);
            }
        }
        grid = next;
    }
    outs
}

fn seeds() -> (Vec<u64>, Vec<u64>) {
    shake_keygen(b"0123456789abcdef", 64, 32, b"").unwrap()
}

fn ready_cipher() -> Transistor<u64> {
    let (sw, sk) = seeds();
    let mut t = Transistor::instantiate(params()).unwrap();
    t.initialize(&sw, &sk, &clear_encrypt).unwrap();
    t
}

#[test]
fn instantiate_accepts_reference_parameters() {
    assert!(Transistor::<u64>::instantiate(params()).is_ok());
}

#[test]
fn initialize_sets_zero_grid() {
    let t = ready_cipher();
    assert_eq!(t.decrypt_grid(&clear_decrypt), vec![vec![0u64; 4]; 4]);
}

#[test]
fn initialize_rejects_bad_seeds() {
    let (sw, sk) = seeds();
    let mut t = Transistor::<u64>::instantiate(params()).unwrap();
    assert_eq!(t.initialize(&sk, &sk, &clear_encrypt), Err(ConfigError::SeedLength));
    let mut bad = sk.clone();
    bad[0] = 20;
    assert_eq!(t.initialize(&sw, &bad, &clear_encrypt), Err(ConfigError::SeedOutOfRange));
}

#[test]
fn filter_count_mismatch_is_rejected() {
    let mut pr = params();
    pr.r = 3;
    assert_eq!(Transistor::<u64>::instantiate(pr).err(), Some(ConfigError::FilterCount));
    let mut pr = params();
    pr.filter[0][0] = true;
    assert_eq!(Transistor::<u64>::instantiate(pr).err(), Some(ConfigError::FilterCount));
}

#[test]
fn matrix_shape_is_validated() {
    let mut pr = params();
    pr.matrix_mc.pop();
    assert_eq!(Transistor::<u64>::instantiate(pr).err(), Some(ConfigError::MatrixShape));
    let mut pr = params();
    pr.matrix_mc[2].push(1);
    assert_eq!(Transistor::<u64>::instantiate(pr).err(), Some(ConfigError::MatrixShape));
}

#[test]
fn matrix_entries_are_validated() {
    let mut pr = params();
    pr.matrix_mc[3][1] = 17;
    assert_eq!(Transistor::<u64>::instantiate(pr).err(), Some(ConfigError::MatrixEntryOutOfRange));
}

#[test]
fn sbox_and_filter_shape_are_validated() {
    let mut pr = params();
    pr.s_box.pop();
    assert_eq!(Transistor::<u64>::instantiate(pr).err(), Some(ConfigError::SboxLength));
    let mut pr = params();
    pr.filter[1].pop();
    assert_eq!(Transistor::<u64>::instantiate(pr).err(), Some(ConfigError::FilterShape));
}

#[test]
fn unregistered_register_size_is_rejected() {
    let mut pr = params();
    pr.w = 40;
    assert_eq!(Transistor::<u64>::instantiate(pr).err(), Some(ConfigError::UnregisteredTaps));
}

#[test]
fn rounds_match_clear_evaluation() {
    let (sw, sk) = seeds();
    let expected = clear_rounds(&sw, &sk, 5);
    let mut t = ready_cipher();
    for round in 0..5 {
        let out = t.clock(&clear_lc, &clear_plus, &clear_lut);
        assert_eq!(out, expected[round]);
    }
}

#[test]
fn rounds_are_deterministic() {
    let mut t1 = ready_cipher();
    let mut t2 = ready_cipher();
    for _ in 0..4 {
        let o1 = t1.clock(&clear_lc, &clear_plus, &clear_lut);
        let o2 = t2.clock(&clear_lc, &clear_plus, &clear_lut);
        assert_eq!(o1.len(), 4);
        assert_eq!(o1, o2);
    }
}

#[test]
fn shift_rows_rotates_each_row() {
    let mut t = ready_cipher();
    t.add_round_key(&clear_lc, &clear_plus);
    let before = t.decrypt_grid(&clear_decrypt);
    t.shift_rows();
    let after = t.decrypt_grid(&clear_decrypt);
    for i in 0..4 {
        for j in 0..4 {
            assert_eq!(after[i][j], before[i][(j + i) % 4]);
        }
    }
}

#[test]
fn mix_columns_multiplies_by_matrix() {
    let mut t = ready_cipher();
    t.add_round_key(&clear_lc, &clear_plus);
    let before = t.decrypt_grid(&clear_decrypt);
    t.mix_columns(&clear_lc);
    let after = t.decrypt_grid(&clear_decrypt);
    let m = params().matrix_mc;
    for i in 0..4 {
        for j in 0..4 {
            let v = (0..4).fold(0, |acc, k| (acc + m[i][k] * before[k][j]) % P);
            assert_eq!(after[i][j], v);
        }
    }
}

#[test]
fn sub_bytes_applies_the_table() {
    let mut t = ready_cipher();
    t.add_round_key(&clear_lc, &clear_plus);
    let before = t.decrypt_grid(&clear_decrypt);
    t.sub_bytes(&clear_lut);
    let after = t.decrypt_grid(&clear_decrypt);
    let s = params().s_box;
    for i in 0..4 {
        for j in 0..4 {
            assert_eq!(after[i][j], s[before[i][j] as usize]);
        }
    }
}

#[test]
fn filter_and_whitening_follow_the_mask() {
    let (sw, _) = seeds();
    let mut t = ready_cipher();
    t.add_round_key(&clear_lc, &clear_plus);
    let g = t.decrypt_grid(&clear_decrypt);
    let picked = t.filter_output();
    assert_eq!(picked, vec![g[1][0], g[1][2], g[3][0], g[3][2]]);
    let wh = keystream(&sw, 4);
    let out = t.white_output(picked.clone(), &clear_lc, &clear_plus);
    for k in 0..4 {
        assert_eq!(out[k], (picked[k] + wh[k]) % P);
    }
}
