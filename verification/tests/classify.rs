//! The classifier, the coprime search, the size sets and the shape of the
//! per-size plans, on concrete sizes.

use monarch_butterfly::classify::{compute_coprimes, FFTType};
use monarch_butterfly::coprime::coprime_plan;
use monarch_butterfly::mixed::mixed_plan;
use monarch_butterfly::prime::prime_plan;
use monarch_butterfly::radix2::radix2_plan;
use monarch_butterfly::sizes::{
    all_sizes, check_supported_range, generated_sizes, hand_split, is_hand_size,
};

#[test]
fn test_coprimes() {
    let coprimes = vec![
        (2, 3),
        (2, 5),
        (3, 4),
        (2, 7),
        (3, 5),
        (4, 5),
        (3, 7),
        (2, 11),
        (3, 8),
        (2, 13),
        (4, 7),
        (5, 6),
        (3, 11),
        (2, 17),
        (5, 7),
        (2, 19),
        (3, 13),
        (5, 8),
        (6, 7),
        (4, 11),
        (5, 9),
        (2, 23),
        (2, 25),
        (3, 17),
        (4, 13),
        (2, 27),
        (5, 11),
        (7, 8),
        (3, 19),
        (2, 29),
        (5, 12),
        (2, 31),
        (7, 9),
        (5, 13),
        (6, 11),
        (4, 17),
        (3, 23),
        (7, 10),
        (8, 9),
        (2, 37),
        (3, 25),
        (4, 19),
        (7, 11),
        (6, 13),
        (5, 16),
        (2, 41),
        (7, 12),
        (5, 17),
        (2, 43),
        (3, 29),
    ];
    for (v1, v2) in coprimes {
        let n = v1 * v2;
        let (computed_v1, computed_v2) = compute_coprimes(n);
        assert_eq!(v1, computed_v1);
        assert_eq!(v2, computed_v2);
    }
}

#[test]
fn test_fft_type() {
    assert_eq!(FFTType::compute_type(25), FFTType::Mixed);
    assert_eq!(FFTType::compute_type(36), FFTType::Coprime);
}

#[test]
fn classifier_spot_checks() {
    for &n in &[1usize, 2, 4, 8, 16, 32, 64, 128] {
        assert_eq!(FFTType::compute_type(n), FFTType::PowerOfTwo);
    }
    for &n in &[9usize, 25, 49, 81, 121] {
        assert_eq!(FFTType::compute_type(n), FFTType::Mixed);
    }
    for &n in &[3usize, 5, 7, 11, 13, 27, 125, 127] {
        assert_eq!(FFTType::compute_type(n), FFTType::Prime);
    }
    for &n in &[6usize, 10, 12, 18, 36, 40, 140] {
        assert_eq!(FFTType::compute_type(n), FFTType::Coprime);
    }
}

#[test]
fn coprime_search_falls_back_for_primes() {
    assert_eq!(compute_coprimes(2), (1, 2));
    assert_eq!(compute_coprimes(7), (1, 7));
    assert_eq!(compute_coprimes(27), (1, 27));
    assert_eq!(compute_coprimes(125), (1, 125));
}

#[test]
fn every_covered_size_is_supported() {
    assert!(check_supported_range(140));
}

#[test]
fn coprime_maps_permute_for_covered_sizes() {
    for n in 2..=140usize {
        if FFTType::compute_type(n) == FFTType::Coprime {
            let p = coprime_plan(n);
            let mut inputs: Vec<usize> = p.rows.iter().flatten().copied().collect();
            inputs.sort();
            let expected: Vec<usize> = (0..n).collect();
            assert_eq!(inputs, expected, "input map, n = {}", n);
            let mut cells: Vec<(usize, usize)> = p.combine.clone();
            cells.sort();
            cells.dedup();
            assert_eq!(cells.len(), n, "output map, n = {}", n);
        }
    }
}

#[test]
fn size_lists_cover_the_range() {
    let gen = generated_sizes();
    assert_eq!(gen.len(), 134);
    for &n in &gen {
        assert!(2 <= n && n <= 140);
        assert!(!is_hand_size(n));
    }
    for w in gen.windows(2) {
        assert!(w[0] < w[1]);
    }
    let all = all_sizes();
    assert_eq!(all.len(), 139);
    for (i, &n) in all.iter().enumerate() {
        assert_eq!(n, i + 2);
    }
}

#[test]
fn hand_splits() {
    assert_eq!(hand_split(3), None);
    assert_eq!(hand_split(9), Some((3, 3)));
    assert_eq!(hand_split(18), Some((3, 6)));
    assert_eq!(hand_split(27), Some((3, 9)));
    assert_eq!(hand_split(125), Some((5, 25)));
    assert_eq!(hand_split(12), None);
}

#[test]
fn radix2_plan_of_eight() {
    let p = radix2_plan(8);
    assert_eq!(p.n, 8);
    assert_eq!(p.half, 4);
    assert_eq!(p.even, vec![0, 2, 4, 6]);
    assert_eq!(p.odd, vec![1, 3, 5, 7]);
}

#[test]
fn coprime_plan_of_six() {
    let p = coprime_plan(6);
    assert_eq!((p.c1, p.c2), (2, 3));
    assert_eq!(p.rows, vec![vec![0, 3], vec![2, 5], vec![4, 1]]);
    let expected: Vec<(usize, usize)> =
        vec![(0, 0), (1, 1), (0, 2), (1, 0), (0, 1), (1, 2)];
    assert_eq!(p.combine, expected);
}

#[test]
fn mixed_plan_of_nine() {
    let p = mixed_plan(9, 3, 3);
    assert_eq!(p.rows, vec![vec![0, 3, 6], vec![1, 4, 7], vec![2, 5, 8]]);
    assert_eq!(p.twiddles, vec![vec![0, 0, 0], vec![0, 1, 2], vec![0, 2, 4]]);
    assert_eq!(p.combine[4], (1, 1));
    assert_eq!(p.combine[7], (1, 2));
}

#[test]
fn prime_plan_of_five() {
    let p = prime_plan(5).unwrap();
    assert_eq!(p.half, 3);
    assert_eq!(p.terms.len(), 2);
    let flat: Vec<(usize, bool)> = p
        .terms
        .iter()
        .flat_map(|band| band.iter().map(|t| (t.tw, t.conj)))
        .collect();
    assert_eq!(flat, vec![(1, false), (2, false), (2, false), (1, true)]);
    let folds: Vec<(usize, bool)> = p.fold_out.clone();
    assert_eq!(folds, vec![(1, false), (2, false), (2, true), (1, true)]);
}

#[test]
fn prime_plan_rejects_prime_powers() {
    assert!(prime_plan(27).is_none());
    assert!(prime_plan(125).is_none());
    for &n in &[3usize, 5, 7, 11, 13, 17, 19, 23, 29, 31, 127, 131, 137, 139] {
        assert!(prime_plan(n).is_some(), "n = {}", n);
    }
}
