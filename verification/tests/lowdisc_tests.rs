use lowdisc::{
    build_direction_numbers, halton_point_fractions, halton_sequence_fractions, owen_scramble,
    radical_inverse, rightmost_zero, sobol_scrambled_raw, sobol_sequence_raw, SobolGenerator,
};

const SCALE: f64 = 4503599627370496.0; // 2^52

fn unit(x: u64) -> f64 {
    x as f64 / SCALE
}

fn frac(r: (u128, u128)) -> f64 {
    r.0 as f64 / r.1 as f64
}

fn sobol_floats(n: usize, d: usize) -> Vec<Vec<f64>> {
    sobol_sequence_raw(n, d)
        .iter()
        .map(|p| p.iter().map(|&x| unit(x)).collect())
        .collect()
}

fn scrambled_floats(n: usize, d: usize, seed: u64) -> Vec<Vec<f64>> {
    sobol_scrambled_raw(n, d, seed)
        .iter()
        .map(|p| p.iter().map(|&x| unit(x)).collect())
        .collect()
}

fn halton_floats(n: usize, d: usize) -> Vec<Vec<f64>> {
    halton_sequence_fractions(n, d)
        .iter()
        .map(|p| p.iter().map(|&r| frac(r)).collect())
        .collect()
}

// ------- Halton -------

#[test]
fn halton_base2_known_values() {
    let pts = halton_floats(4, 1);
    let expected = [0.5, 0.25, 0.75, 0.125];
    for (p, &e) in pts.iter().zip(&expected) {
        assert!((p[0] - e).abs() < 1e-12, "got {} expected {}", p[0], e);
    }
}

#[test]
fn halton_base3_known_values() {
    let pts = halton_floats(4, 2);
    let expected_d1 = [1.0 / 3.0, 2.0 / 3.0, 1.0 / 9.0, 4.0 / 9.0];
    for (p, &e) in pts.iter().zip(&expected_d1) {
        assert!((p[1] - e).abs() < 1e-12, "got {} expected {}", p[1], e);
    }
}

#[test]
fn halton_in_unit_cube() {
    let pts = halton_floats(1000, 5);
    for p in &pts {
        assert_eq!(p.len(), 5);
        for &x in p {
            assert!((0.0..1.0).contains(&x), "out of range: {x}");
        }
    }
}

#[test]
fn halton_point_doc_example() {
    let p = halton_point_fractions(1, 3);
    assert_eq!(p, vec![(1, 2), (1, 3), (1, 5)]);
    assert!((frac(p[0]) - 0.5).abs() < 1e-12);
    assert!((frac(p[1]) - 1.0 / 3.0).abs() < 1e-12);
    assert!((frac(p[2]) - 0.2).abs() < 1e-12);
}

#[test]
fn halton_index_zero_is_origin() {
    let p = halton_point_fractions(0, 20);
    assert_eq!(p.len(), 20);
    for r in p {
        assert_eq!(r, (0, 1));
    }
}

#[test]
fn halton_zero_dimensions_is_empty() {
    assert!(halton_point_fractions(7, 0).is_empty());
    assert!(halton_sequence_fractions(0, 3).is_empty());
}

#[test]
fn halton_twentieth_base_is_71() {
    let p = halton_point_fractions(1, 20);
    assert_eq!(p[19], (1, 71));
    assert_eq!(lowdisc::halton_base(19), 71);
}

// ------- Sobol -------

#[test]
fn sobol_1d_known_values() {
    let pts = sobol_floats(4, 1);
    let expected = [0.5, 0.75, 0.25, 0.375];
    for (p, &e) in pts.iter().zip(&expected) {
        assert!((p[0] - e).abs() < 1e-12, "got {} expected {}", p[0], e);
    }
}

#[test]
fn sobol_1d_exact_fixed_point() {
    let pts = sobol_sequence_raw(4, 1);
    assert_eq!(pts, vec![vec![1u64 << 51], vec![3u64 << 50], vec![1u64 << 50], vec![3u64 << 49]]);
}

#[test]
fn sobol_2d_first_point() {
    let pts = sobol_floats(1, 2);
    assert!((pts[0][0] - 0.5).abs() < 1e-12);
    assert!((pts[0][1] - 0.5).abs() < 1e-12);
}

#[test]
fn sobol_readme_example() {
    let pts = sobol_floats(4, 2);
    assert_eq!(pts.len(), 4);
    assert!((pts[0][0] - 0.5).abs() < 1e-12);
    assert!((pts[0][1] - 0.5).abs() < 1e-12);
}

#[test]
fn sobol_in_unit_cube() {
    let pts = sobol_floats(1024, 4);
    for p in &pts {
        assert_eq!(p.len(), 4);
        for &x in p {
            assert!((0.0..1.0).contains(&x), "out of range: {x}");
        }
    }
}

#[test]
fn sobol_generator_skip_consistent() {
    let mut gen1 = SobolGenerator::new(3);
    let all: Vec<_> = (0..10).map(|_| gen1.next_raw()).collect();

    let mut gen2 = SobolGenerator::new(3);
    gen2.skip(5);
    let last5: Vec<_> = (0..5).map(|_| gen2.next_raw()).collect();

    for (a, b) in all[5..].iter().zip(&last5) {
        assert_eq!(a, b);
    }
}

#[test]
fn sobol_generator_doc_example() {
    let mut gen = SobolGenerator::new(2);
    let p0 = gen.next_raw();
    assert_eq!(p0, vec![0, 0]);
    let p1 = gen.next_raw();
    assert!((unit(p1[0]) - 0.5).abs() < 1e-12);
    assert!((unit(p1[1]) - 0.5).abs() < 1e-12);
    assert_eq!(gen.index(), 2);
}

#[test]
fn sobol_skip_advances_index() {
    let mut gen = SobolGenerator::new(8);
    assert_eq!(gen.index(), 0);
    gen.skip(0);
    assert_eq!(gen.index(), 0);
    gen.skip(7);
    assert_eq!(gen.index(), 7);
    let p = gen.next_raw();
    assert_eq!(gen.index(), 8);
    assert_eq!(p.len(), 8);
}

#[test]
fn sobol_gray_code_matches_direction_numbers() {
    // The point at counter n is the XOR of the direction numbers selected by
    // the Gray code of n - 1.
    let v = build_direction_numbers(4);
    let mut gen = SobolGenerator::new(4);
    for n in 1u64..200 {
        let p = gen.next_raw();
        let g = (n - 1) ^ ((n - 1) >> 1);
        for j in 0..4 {
            let mut acc = 0u64;
            for b in 0..52 {
                if (g >> b) & 1 == 1 {
                    acc ^= v[j][b];
                }
            }
            assert_eq!(p[j], acc);
        }
    }
}

#[test]
fn direction_numbers_table() {
    let v = build_direction_numbers(8);
    assert_eq!(v.len(), 8);
    for row in &v {
        assert_eq!(row.len(), 52);
        for &x in row {
            assert!(x < (1u64 << 52));
        }
    }
    // Van der Corput in base 2.
    assert_eq!(v[0][0], 1u64 << 51);
    assert_eq!(v[0][51], 1);
    // Dimension 2 (s = 1, a = 0, m = [1]): v_i = v_{i-1} ^ (v_{i-1} >> 1).
    assert_eq!(v[1][0], 1u64 << 51);
    assert_eq!(v[1][1], (1u64 << 51) ^ (1u64 << 50));
    // Dimension 5 (m = [1, 3, 1]).
    assert_eq!(v[4][1], 3u64 << 50);
    assert_eq!(v[4][2], 1u64 << 49);
    // Row counts saturate.
    assert_eq!(build_direction_numbers(0).len(), 1);
    assert_eq!(build_direction_numbers(1).len(), 1);
    assert_eq!(build_direction_numbers(20).len(), 8);
}

// ------- Owen-scrambled Sobol -------

#[test]
fn scrambled_in_unit_cube() {
    let pts = scrambled_floats(512, 3, 12345);
    for p in &pts {
        assert_eq!(p.len(), 3);
        for &x in p {
            assert!((0.0..1.0).contains(&x), "out of range: {x}");
        }
    }
}

#[test]
fn scrambled_doc_example() {
    let pts = scrambled_floats(100, 2, 42);
    assert_eq!(pts.len(), 100);
    for p in &pts {
        assert!(p[0] >= 0.0 && p[0] < 1.0);
        assert!(p[1] >= 0.0 && p[1] < 1.0);
    }
}

#[test]
fn scrambled_different_seeds_differ() {
    let a = scrambled_floats(16, 2, 1);
    let b = scrambled_floats(16, 2, 2);
    let diffs = a.iter().zip(&b).filter(|(pa, pb)| pa != pb).count();
    assert!(diffs > 0, "different seeds should produce different sequences");
}

#[test]
fn scrambled_same_seed_reproducible() {
    let a = scrambled_floats(32, 2, 42);
    let b = scrambled_floats(32, 2, 42);
    assert_eq!(a, b);
}

#[test]
fn scrambled_points_are_scrambled_sobol_points() {
    let raw = sobol_sequence_raw(20, 3);
    let scr = sobol_scrambled_raw(20, 3, 7);
    for (p, q) in raw.iter().zip(&scr) {
        for j in 0..3 {
            assert_eq!(q[j], owen_scramble(p[j], j as u64, 7));
        }
    }
}

#[test]
fn owen_scramble_is_a_permutation_of_stratum() {
    // The scramble of the first 64 one-dimensional points (a (0, 6)-net)
    // keeps one point per interval of width 2^-6.
    let raw = sobol_sequence_raw(63, 1);
    let mut seen = [false; 64];
    seen[(owen_scramble(0, 0, 99) >> 46) as usize] = true;
    for p in &raw {
        let s = owen_scramble(p[0], 0, 99);
        assert!(s < (1u64 << 52));
        let cell = (s >> 46) as usize;
        assert!(!seen[cell]);
        seen[cell] = true;
    }
}

#[test]
fn owen_scramble_keeps_prefix_classes() {
    let x = 0b1011u64 << 48;
    let y = x | 12345;
    assert_eq!(owen_scramble(x, 3, 5) >> 48, owen_scramble(y, 3, 5) >> 48);
    assert_ne!(owen_scramble(x, 3, 5), owen_scramble(y, 3, 5));
}

// ------- Integration test: QMC convergence -------

#[test]
fn qmc_integrates_x_squared() {
    let exact = 1.0 / 3.0;
    let n = 4096;
    let pts = sobol_floats(n, 1);
    let qmc_est: f64 = pts.iter().map(|p| p[0] * p[0]).sum::<f64>() / n as f64;
    let qmc_err = (qmc_est - exact).abs();
    assert!(qmc_err < 5e-4, "QMC integration error too large: {qmc_err}");
}

#[test]
fn halton_integrates_x_squared() {
    let exact = 1.0 / 3.0;
    let n = 4096;
    let pts = halton_floats(n, 1);
    let est: f64 = pts.iter().map(|p| p[0] * p[0]).sum::<f64>() / n as f64;
    let err = (est - exact).abs();
    assert!(err < 5e-4, "Halton integration error too large: {err}");
}

// ------- Helpers -------

#[test]
fn rightmost_zero_cases() {
    assert_eq!(rightmost_zero(0b0), 0);
    assert_eq!(rightmost_zero(0b1), 1);
    assert_eq!(rightmost_zero(0b11), 2);
    assert_eq!(rightmost_zero(0b101), 1);
    assert_eq!(rightmost_zero(0b111), 3);
}

#[test]
fn rightmost_zero_all_ones() {
    assert_eq!(rightmost_zero(u64::MAX), 64);
    assert_eq!(rightmost_zero(u64::MAX - 1), 0);
}

#[test]
fn radical_inverse_base2() {
    assert!((frac(radical_inverse(1, 2)) - 0.5).abs() < 1e-15);
    assert!((frac(radical_inverse(2, 2)) - 0.25).abs() < 1e-15);
    assert!((frac(radical_inverse(3, 2)) - 0.75).abs() < 1e-15);
    assert!((frac(radical_inverse(5, 2)) - 0.625).abs() < 1e-15);
}

#[test]
fn radical_inverse_base3() {
    assert!((frac(radical_inverse(1, 3)) - 1.0 / 3.0).abs() < 1e-15);
    assert!((frac(radical_inverse(2, 3)) - 2.0 / 3.0).abs() < 1e-15);
    assert!((frac(radical_inverse(3, 3)) - 1.0 / 9.0).abs() < 1e-15);
}

#[test]
fn radical_inverse_exact_fractions() {
    assert_eq!(radical_inverse(5, 2), (5, 8));
    assert_eq!(radical_inverse(0, 7), (0, 1));
    assert_eq!(radical_inverse(11, 3), (19, 27)); // 11 = 102_3 -> 0.201_3
    let big = radical_inverse(u64::MAX, 2);
    assert_eq!(big, (u64::MAX as u128, 1u128 << 64));
    let big71 = radical_inverse(u64::MAX, 71);
    assert!(big71.0 < big71.1);
}

#[test]
fn sobol_8d_first_points_exact() {
    let pts = sobol_sequence_raw(6, 8);
    let expected: [[u64; 8]; 6] = [
        [2251799813685248; 8],
        [3377699720527872, 1125899906842624, 3377699720527872, 3377699720527872, 1125899906842624, 3377699720527872, 1125899906842624, 3377699720527872],
        [1125899906842624, 3377699720527872, 1125899906842624, 1125899906842624, 3377699720527872, 1125899906842624, 3377699720527872, 1125899906842624],
        [1688849860263936, 1688849860263936, 2814749767106560, 1688849860263936, 3940649673949184, 562949953421312, 1688849860263936, 3940649673949184],
        [3940649673949184, 3940649673949184, 562949953421312, 3940649673949184, 1688849860263936, 2814749767106560, 3940649673949184, 1688849860263936],
        [2814749767106560, 562949953421312, 1688849860263936, 2814749767106560, 2814749767106560, 3940649673949184, 562949953421312, 562949953421312],
    ];
    for (p, e) in pts.iter().zip(expected.iter()) {
        assert_eq!(p.as_slice(), e.as_slice());
    }
}

#[test]
fn direction_numbers_dimension_8_exact() {
    let v = build_direction_numbers(8);
    assert_eq!(
        &v[7][..8],
        &[2251799813685248, 1125899906842624, 2814749767106560, 1407374883553280, 2392537302040576, 633318697598976, 316659348799488, 791648371998720]
    );
    assert_eq!(v[7][51], 4281017997198913);
}

#[test]
fn scrambled_exact_values() {
    let pts = sobol_scrambled_raw(4, 2, 42);
    let d0: Vec<u64> = pts.iter().map(|p| p[0]).collect();
    let d1: Vec<u64> = pts.iter().map(|p| p[1]).collect();
    assert_eq!(d0, vec![2062753391101756, 1031376695550878, 2678551680278679, 3170824691234178]);
    assert_eq!(d1, vec![1355969490772508, 4102226257461595, 677984745386254, 3782908041559511]);
}
