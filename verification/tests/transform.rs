//! End-to-end transforms driven by the verified plans: an interpreter walks
//! the plan for each size exactly as an emitted kernel would, over complex
//! doubles, and the results are held against the direct DFT.

use monarch_butterfly::classify::FFTType;
use monarch_butterfly::coprime::coprime_plan;
use monarch_butterfly::mixed::{mixed_plan, mixed_square_plan, MixedPlan};
use monarch_butterfly::prime::prime_plan;
use monarch_butterfly::radix2::radix2_plan;
use monarch_butterfly::sizes::hand_split;
use num_complex::Complex;

fn twiddle(k: usize, n: usize) -> Complex<f64> {
    let angle = -2.0 * std::f64::consts::PI * (k as f64) / (n as f64);
    Complex::new(angle.cos(), angle.sin())
}

fn direct_dft(x: &[Complex<f64>]) -> Vec<Complex<f64>> {
    let n = x.len();
    (0..n)
        .map(|j| {
            let mut acc = Complex::new(0.0, 0.0);
            for k in 0..n {
                acc += x[k] * twiddle((j * k) % n, n);
            }
            acc
        })
        .collect()
}

fn run_radix2(n: usize, x: &[Complex<f64>]) -> Vec<Complex<f64>> {
    let p = radix2_plan(n);
    let even_in: Vec<Complex<f64>> = p.even.iter().map(|&i| x[i]).collect();
    let odd_in: Vec<Complex<f64>> = p.odd.iter().map(|&i| x[i]).collect();
    let even = run_fft(p.half, &even_in);
    let odd = run_fft(p.half, &odd_in);
    let mut out = vec![Complex::new(0.0, 0.0); n];
    for j in 0..p.half {
        let t = twiddle(j, n) * odd[j];
        out[j] = even[j] + t;
        out[j + p.half] = even[j] - t;
    }
    out
}

fn run_coprime(n: usize, x: &[Complex<f64>]) -> Vec<Complex<f64>> {
    let p = coprime_plan(n);
    let rows: Vec<Vec<Complex<f64>>> = p
        .rows
        .iter()
        .map(|row| {
            let row_in: Vec<Complex<f64>> = row.iter().map(|&i| x[i]).collect();
            run_fft(p.c1, &row_in)
        })
        .collect();
    let cols: Vec<Vec<Complex<f64>>> = (0..p.c1)
        .map(|i| {
            let col_in: Vec<Complex<f64>> = (0..p.c2).map(|j| rows[j][i]).collect();
            run_fft(p.c2, &col_in)
        })
        .collect();
    p.combine.iter().map(|&(col, idx)| cols[col][idx]).collect()
}

fn run_mixed_plan(p: &MixedPlan, x: &[Complex<f64>]) -> Vec<Complex<f64>> {
    let rows: Vec<Vec<Complex<f64>>> = p
        .rows
        .iter()
        .map(|row| {
            let row_in: Vec<Complex<f64>> = row.iter().map(|&i| x[i]).collect();
            run_fft(p.c2, &row_in)
        })
        .collect();
    let cols: Vec<Vec<Complex<f64>>> = (0..p.c2)
        .map(|y| {
            let col_in: Vec<Complex<f64>> = (0..p.c1)
                .map(|i| rows[i][y] * twiddle(p.twiddles[y][i], p.n))
                .collect();
            run_fft(p.c1, &col_in)
        })
        .collect();
    p.combine.iter().map(|&(col, idx)| cols[col][idx]).collect()
}

fn run_prime(n: usize, x: &[Complex<f64>]) -> Vec<Complex<f64>> {
    let p = prime_plan(n).unwrap();
    let half = p.half;
    let tw: Vec<Complex<f64>> = (1..half).map(|k| twiddle(k, n)).collect();
    let xp: Vec<Complex<f64>> = (1..half).map(|m| x[m] + x[n - m]).collect();
    let xn: Vec<Complex<f64>> = (1..half).map(|m| x[m] - x[n - m]).collect();
    let mut out = vec![Complex::new(0.0, 0.0); n];
    out[0] = x[0] + xp.iter().sum::<Complex<f64>>();
    let mut bands: Vec<(f64, f64, f64, f64)> = Vec::new();
    for a in 1..half {
        let mut re_a = x[0].re;
        let mut re_b = 0.0;
        let mut im_a = x[0].im;
        let mut im_b = 0.0;
        for m in 1..half {
            let term = p.terms[a - 1][m - 1];
            let w = tw[term.tw - 1];
            re_a += w.re * xp[m - 1].re;
            im_a += w.re * xp[m - 1].im;
            let s = if term.conj { -1.0 } else { 1.0 };
            re_b += s * w.im * xn[m - 1].im;
            im_b += s * w.im * xn[m - 1].re;
        }
        bands.push((re_a, re_b, im_a, im_b));
    }
    for k in 0..n - 1 {
        let (src, upper) = p.fold_out[k];
        let (re_a, re_b, im_a, im_b) = bands[src - 1];
        out[k + 1] = if upper {
            Complex::new(re_a + re_b, im_a - im_b)
        } else {
            Complex::new(re_a - re_b, im_a + im_b)
        };
    }
    out
}

fn run_fft(n: usize, x: &[Complex<f64>]) -> Vec<Complex<f64>> {
    assert_eq!(x.len(), n);
    if n == 1 {
        return x.to_vec();
    }
    if let Some((c1, c2)) = hand_split(n) {
        return run_mixed_plan(&mixed_plan(n, c1, c2), x);
    }
    if n == 3 {
        return run_prime(n, x);
    }
    match FFTType::compute_type(n) {
        FFTType::PowerOfTwo => run_radix2(n, x),
        FFTType::Mixed => run_mixed_plan(&mixed_square_plan(n), x),
        FFTType::Coprime => run_coprime(n, x),
        FFTType::Prime => run_prime(n, x),
    }
}

fn run_ifft(n: usize, x: &[Complex<f64>]) -> Vec<Complex<f64>> {
    let conj_in: Vec<Complex<f64>> = x.iter().map(|c| c.conj()).collect();
    run_fft(n, &conj_in).iter().map(|c| c.conj()).collect()
}

fn assert_close(lhs: &[Complex<f64>], rhs: &[Complex<f64>], tol: f64) {
    assert_eq!(lhs.len(), rhs.len());
    for idx in 0..lhs.len() {
        assert!(
            (lhs[idx].re - rhs[idx].re).abs() < tol,
            "index {} re: {} vs {}",
            idx,
            lhs[idx].re,
            rhs[idx].re
        );
        assert!(
            (lhs[idx].im - rhs[idx].im).abs() < tol,
            "index {} im: {} vs {}",
            idx,
            lhs[idx].im,
            rhs[idx].im
        );
    }
}

fn ramp(n: usize) -> Vec<Complex<f64>> {
    (0..n)
        .map(|k| Complex::new(k as f64 + 0.25, 1.5 - (k as f64) / 3.0))
        .collect()
}

#[test]
fn scenario_size_2() {
    let out = run_fft(2, &[Complex::new(1.0, 0.0), Complex::new(2.0, 0.0)]);
    assert_close(
        &out,
        &[Complex::new(3.0, 0.0), Complex::new(-1.0, 0.0)],
        1e-12,
    );
}

#[test]
fn scenario_size_3() {
    let out = run_fft(
        3,
        &[
            Complex::new(0.0, 0.0),
            Complex::new(1.0, 0.0),
            Complex::new(2.0, 0.0),
        ],
    );
    assert_close(
        &out,
        &[
            Complex::new(3.0, 0.0),
            Complex::new(-1.5, 0.8660254037844386),
            Complex::new(-1.5, -0.8660254037844386),
        ],
        1e-10,
    );
}

#[test]
fn scenario_size_4() {
    let out = run_fft(
        4,
        &(1..=4)
            .map(|k| Complex::new(k as f64, 0.0))
            .collect::<Vec<_>>(),
    );
    assert_close(
        &out,
        &[
            Complex::new(10.0, 0.0),
            Complex::new(-2.0, 2.0),
            Complex::new(-2.0, 0.0),
            Complex::new(-2.0, -2.0),
        ],
        1e-10,
    );
}

#[test]
fn scenario_size_8() {
    let out = run_fft(
        8,
        &(1..=8)
            .map(|k| Complex::new(k as f64, 0.0))
            .collect::<Vec<_>>(),
    );
    assert!((out[0].re - 36.0).abs() < 1e-10 && out[0].im.abs() < 1e-10);
    assert!((out[6].re + 4.0).abs() < 1e-10 && (out[6].im + 4.0).abs() < 1e-10);
}

#[test]
fn scenario_size_5() {
    let x: Vec<Complex<f64>> = (0..5).map(|k| Complex::new(k as f64, 0.0)).collect();
    let out = run_fft(5, &x);
    assert!((out[0].re - 10.0).abs() < 1e-8 && out[0].im.abs() < 1e-8);
    assert_close(&out, &direct_dft(&x), 1e-8);
}

#[test]
fn scenario_size_1024_against_recursive() {
    fn butterfly(x: Vec<Complex<f64>>) -> Vec<Complex<f64>> {
        let n = x.len();
        if n <= 1 {
            return x;
        }
        let even = butterfly(x.iter().step_by(2).cloned().collect());
        let odd = butterfly(x.iter().skip(1).step_by(2).cloned().collect());
        let mut out = vec![Complex::new(0.0, 0.0); n];
        for k in 0..n / 2 {
            let t = twiddle(k, n) * odd[k];
            out[k] = even[k] + t;
            out[k + n / 2] = even[k] - t;
        }
        out
    }
    let x: Vec<Complex<f64>> = (0..1024).map(|k| Complex::new(k as f64, k as f64)).collect();
    let ours = run_fft(1024, &x);
    let reference = butterfly(x);
    assert_close(&ours, &reference, 1e-3);
}

#[test]
fn matches_direct_dft_for_every_covered_size() {
    for n in 1..=140usize {
        let x = ramp(n);
        let out = run_fft(n, &x);
        assert_close(&out, &direct_dft(&x), 1e-6);
    }
}

#[test]
fn round_trip_scales_by_n() {
    for &n in &[1usize, 2, 3, 4, 5, 8, 9, 12, 18, 25, 27, 36, 49, 64, 125, 140] {
        let x = ramp(n);
        let back = run_ifft(n, &run_fft(n, &x));
        let scaled: Vec<Complex<f64>> = x.iter().map(|&c| c * (n as f64)).collect();
        assert_close(&back, &scaled, 1e-6);
    }
}

#[test]
fn inverse_matches_direct_inverse_dft() {
    for &n in &[2usize, 7, 9, 18, 27, 32, 45, 125] {
        let x = ramp(n);
        let out = run_ifft(n, &x);
        let direct: Vec<Complex<f64>> = (0..n)
            .map(|j| {
                let mut acc = Complex::new(0.0, 0.0);
                for k in 0..n {
                    acc += x[k] * twiddle((j * k) % n, n).conj();
                }
                acc
            })
            .collect();
        assert_close(&out, &direct, 1e-6);
    }
}

#[test]
fn transform_is_linear() {
    let n = 12usize;
    let x = ramp(n);
    let y: Vec<Complex<f64>> = (0..n)
        .map(|k| Complex::new(2.0 - (k as f64) / 2.0, (k as f64) * 0.75))
        .collect();
    let alpha = Complex::new(1.5, -0.5);
    let beta = Complex::new(-2.0, 0.25);
    let mix: Vec<Complex<f64>> = (0..n).map(|k| alpha * x[k] + beta * y[k]).collect();
    let lhs = run_fft(n, &mix);
    let fx = run_fft(n, &x);
    let fy = run_fft(n, &y);
    let rhs: Vec<Complex<f64>> = (0..n).map(|k| alpha * fx[k] + beta * fy[k]).collect();
    assert_close(&lhs, &rhs, 1e-8);
}

#[test]
fn parseval_identity() {
    let n = 30usize;
    let x = ramp(n);
    let out = run_fft(n, &x);
    let lhs: f64 = x.iter().map(|c| c.norm_sqr()).sum();
    let rhs: f64 = out.iter().map(|c| c.norm_sqr()).sum::<f64>() / (n as f64);
    assert!((lhs - rhs).abs() < 1e-6, "{} vs {}", lhs, rhs);
}

#[test]
fn cyclic_shift_multiplies_by_twiddles() {
    let n = 20usize;
    let s = 3usize;
    let x = ramp(n);
    let shifted: Vec<Complex<f64>> = (0..n).map(|k| x[(k + n - s) % n]).collect();
    let lhs = run_fft(n, &shifted);
    let fx = run_fft(n, &x);
    let rhs: Vec<Complex<f64>> = (0..n).map(|k| fx[k] * twiddle((s * k) % n, n)).collect();
    assert_close(&lhs, &rhs, 1e-7);
}
