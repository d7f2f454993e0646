//! What rounding leaves of the laws, in verified double precision.
use stableprop::backend::Format;
use stableprop::binary64::Binary64;
use stableprop::burn_sdp;
use stableprop::dense::{Dense, DenseCube, DenseMatrix, DenseVector};

type D = Dense<Binary64>;

/// `2^-53`.
const EPSILON: f64 = f64::EPSILON / 2.0;

fn soft(x: f64) -> Binary64 {
    Binary64 { bits: x.to_bits() }
}

fn hard(x: Binary64) -> f64 {
    f64::from_bits(x.bits)
}

fn matrix(rows: &[&[f64]]) -> DenseMatrix<Binary64> {
    let entries = rows.iter().map(|r| r.iter().map(|x| soft(*x)).collect()).collect();
    DenseMatrix::from_rows(entries, rows[0].len(), Format::F64).unwrap()
}

fn cube(rows: &[&[f64]]) -> DenseCube<Binary64> {
    let layers = vec![matrix(rows)];
    DenseCube::from_layers(layers, rows.len(), rows[0].len(), Format::F64).unwrap()
}

fn entry(m: &DenseMatrix<Binary64>, i: usize, j: usize) -> f64 {
    hard(m.entries.get(i, j))
}

fn moments(mean: f64, var: f64) -> burn_sdp::Moments<D> {
    burn_sdp::Moments::new(matrix(&[&[mean]]), matrix(&[&[var]]))
}

/// Rectified mean and variance of a tensor's entry.
fn tensor_relu(mean: f64, var: f64) -> (f64, f64) {
    let out = burn_sdp::propagate_relu::<D>(&moments(mean, var));
    (entry(&out.mean, 0, 0), entry(&out.var, 0, 0))
}

/// Rectified mean and variance of a vector's entry.
fn vector_relu(mean: f64, var: f64) -> (f64, f64) {
    let m = stableprop::Moments { mean: vec![soft(mean)], cov: vec![vec![soft(var)]] };
    let out = stableprop::propagate_relu(&m);
    (hard(out.mean[0]), hard(out.cov[0][0]))
}

/// A covariance carried through the rectifier of its right variable.
fn cross_relu(c: f64, mean: f64, var: f64) -> f64 {
    let out = burn_sdp::propagate_relu_cross_covariance::<D>(cube(&[&[c]]), &moments(mean, var));
    hard(out.entries.get(0, 0, 0))
}

#[test]
fn no_slope_is_a_rectifier_at_the_borders() {
    let extremes = [0.0, 5e-324, 1e-308, 1e-20, 0.3, 1.0, 9.0, 1e20, 1e308, f64::MAX];
    for m in extremes {
        for mean in [m, -m] {
            for var in extremes {
                let out = burn_sdp::propagate_leaky_relu::<D>(&moments(mean, var), soft(0.0));
                let (mu, v) = tensor_relu(mean, var);
                assert_eq!(entry(&out.mean, 0, 0), mu, "mean {mean} {var}");
                assert_eq!(entry(&out.var, 0, 0), v, "variance {mean} {var}");
            }
        }
    }
}

#[test]
fn powers_of_two_pass_through_rectifiers() {
    for k in [1, 10, 200] {
        let s = 2f64.powi(k);
        for mean in [-7.5, -3.0, -1.9, -0.25, 0.0, 0.7, 1.6, 4.0, 20.0] {
            for var in [0.0, 0.3, 1.0, 2.5] {
                let (mu, v) = vector_relu(mean, var);
                assert_eq!(vector_relu(s * mean, s * s * var), (s * mu, s * s * v));
                let (mu, v) = tensor_relu(mean, var);
                assert_eq!(tensor_relu(s * mean, s * s * var), (s * mu, s * s * v));
                let c = cross_relu(0.7, mean, var);
                assert_eq!(cross_relu(s * 0.7, s * mean, s * s * var), s * c);
            }
        }
    }
}

#[test]
fn means_of_opposites_differ_by_the_mean() {
    for mean in [0.0, 1e-300, 0.1, 0.9, 1.7, 2.0, 8.0, 11.0] {
        let (p, _) = vector_relu(mean, 1.0);
        let (n, _) = vector_relu(-mean, 1.0);
        // The density is below one half.
        let bound = EPSILON * (7.0 * mean + 1.0);
        assert!((p - n - mean).abs() <= bound, "mean {mean}");
        if mean >= 8.0 {
            assert_eq!(p - n, mean);
        }
        let (p, _) = vector_relu(mean, 0.0);
        let (n, _) = vector_relu(-mean, 0.0);
        assert_eq!(p - n, mean);
    }
}

#[test]
fn means_of_opposites_differ_by_the_mean_between_series_and_fraction() {
    for mean in [2.25, 3.0, 4.5, 6.0, 7.9] {
        let (p, _) = vector_relu(mean, 1.0);
        let (n, _) = vector_relu(-mean, 1.0);
        // The two probabilities make one to fourteen digits.
        assert!((p - n - mean).abs() <= 1e-14 * mean, "mean {mean}");
    }
}

#[test]
fn full_slope_changes_no_bit() {
    for mean in [-20.0, -7.0, -2.5, -1.0, -0.25, 0.0, 0.3, 1.9, 5.0, 30.0] {
        for var in [0.0, 0.1, 1.0, 2.5] {
            let out = burn_sdp::propagate_leaky_relu::<D>(&moments(mean, var), soft(1.0));
            assert_eq!((entry(&out.mean, 0, 0), entry(&out.var, 0, 0)), (mean, var));
        }
    }
}

#[test]
fn second_moments_of_opposites_add_up() {
    for mean in [0.0, 1e-150, 0.1, 0.9, 1.7, 2.5, 3.0, 16.0, 40.0] {
        for var in [0.0, 1.0, 1.7, 4.0] {
            let (p, s) = vector_relu(mean, var);
            let (n, t) = vector_relu(-mean, var);
            let total = (s + p * p) + (t + n * n);
            if var == 0.0 || mean >= 16.0 {
                assert_eq!(total, mean * mean + var);
            } else if mean <= 2.0 * var.sqrt() {
                // Fourteen roundings in a row, and magnitudes below sixty-four
                // variances and means.
                let bound = 14.0 * 64.0 * EPSILON * (mean * mean + var);
                assert!((total - mean * mean - var).abs() <= bound, "{mean} {var}");
            }
        }
    }
}

#[test]
fn covariances_with_opposites_differ_by_the_covariance() {
    for mean in [0.0, 1e-300, 0.1, 0.9, 1.7, 2.0, 8.0, 11.0] {
        let c = 0.7;
        let d = cross_relu(c, mean, 1.0) - cross_relu(-c, -mean, 1.0);
        // Twice the factors' sum and the error function are at most one each.
        assert!((d - c).abs() <= 8.0 * EPSILON * c, "mean {mean}");
        if mean >= 8.0 {
            assert_eq!(d, c);
        }
    }
}

#[test]
fn two_affine_maps_are_one_up_to_rounding() {
    let soften = |rows: &[[f64; 2]; 2]| -> Vec<Vec<Binary64>> {
        rows.iter().map(|r| r.iter().map(|x| soft(*x)).collect()).collect()
    };
    let first = [[0.1, -0.7], [1.3, 0.45]];
    let second = [[-0.6, 1.1], [0.35, 0.2]];
    let (a, b) = ([0.3, -0.9], [0.05, 1.7]);
    let soft2 = |v: &[f64; 2]| vec![soft(v[0]), soft(v[1])];
    let product = |x: &[[f64; 2]; 2], y: &[[f64; 2]; 2]| {
        let at = |i: usize, j: usize| 0.0 + x[i][0] * y[0][j] + x[i][1] * y[1][j];
        [[at(0, 0), at(0, 1)], [at(1, 0), at(1, 1)]]
    };
    let bias = [
        0.0 + second[0][0] * a[0] + second[0][1] * a[1] + b[0],
        0.0 + second[1][0] * a[0] + second[1][1] * a[1] + b[1],
    ];
    let m = stableprop::Moments {
        mean: soft2(&[0.8, -0.3]),
        cov: soften(&[[1.1, 0.4], [0.4, 0.9]]),
    };
    let between = stableprop::propagate_linear(&m, &soften(&first), &soft2(&a));
    let left = stableprop::propagate_linear(&between, &soften(&second), &soft2(&b));
    let whole = soften(&product(&second, &first));
    let right = stableprop::propagate_linear(&m, &whole, &soft2(&bias));
    for o in 0..2 {
        // Eight roundings in a row, and magnitudes below eight in all.
        let d = hard(left.mean[o]) - hard(right.mean[o]);
        assert!(d.abs() <= 8.0 * 8.0 * EPSILON, "mean {o}");
        for q in 0..2 {
            let d = hard(left.cov[o][q]) - hard(right.cov[o][q]);
            assert!(d.abs() <= 12.0 * 16.0 * EPSILON, "covariance {o} {q}");
        }
    }
}

#[test]
fn full_affine_maps_are_one_up_to_rounding() {
    let (w, v) = (&[&[0.1, 1.3][..], &[-0.7, 0.45]], &[&[-0.6, 0.35][..], &[1.1, 0.2]]);
    let at = |i: usize, j: usize| 0.0 + w[i][0] * v[0][j] + w[i][1] * v[1][j];
    let wv = [[at(0, 0), at(0, 1)], [at(1, 0), at(1, 1)]];
    let m = || {
        burn_sdp::MomentsFull::<D>::new(matrix(&[&[0.8, -0.3]]), cube(&[&[1.1, 0.4], &[0.4, 0.9]]))
    };
    let none: Option<DenseVector<Binary64>> = None;
    let one = burn_sdp::propagate_linear_full::<D>(&m(), matrix(w), none);
    let two = burn_sdp::propagate_linear_full::<D>(&one, matrix(v), None);
    let once = burn_sdp::propagate_linear_full::<D>(&m(), matrix(&[&wv[0], &wv[1]]), None);
    let c = || cube(&[&[1.1, 0.4], &[0.4, 0.9]]);
    let half = burn_sdp::propagate_linear_cross_covariance::<D>(c(), matrix(w));
    let left = burn_sdp::propagate_linear_cross_covariance::<D>(half, matrix(v));
    let right = burn_sdp::propagate_linear_cross_covariance::<D>(c(), matrix(&[&wv[0], &wv[1]]));
    for i in 0..2 {
        for j in 0..2 {
            let d = hard(two.cov.entries.get(0, i, j)) - hard(once.cov.entries.get(0, i, j));
            assert!(d.abs() <= 12.0 * 16.0 * EPSILON, "covariance {i} {j}");
            let d = hard(left.entries.get(0, i, j)) - hard(right.entries.get(0, i, j));
            assert!(d.abs() <= 6.0 * 8.0 * EPSILON, "cross-covariance {i} {j}");
        }
    }
}

#[test]
fn rectified_moments_are_not_negative() {
    for k in -400..=400 {
        let mean = k as f64 / 40.0;
        for var in [0.0, 1e-300, 0.01, 1.0, 2.5, 1e200] {
            let scaled = mean * f64::max(var, 1e-300).sqrt();
            let (mu, v) = vector_relu(scaled, var);
            assert!(mu >= 0.0, "mean {scaled} {var}");
            assert!(v >= 0.0, "variance {scaled} {var}");
        }
    }
}

#[test]
fn rectifying_does_not_raise_a_variance() {
    for k in -400..=400 {
        let mean = k as f64 / 40.0;
        for var in [0.0, 0.01, 1.0, 2.5] {
            let (_, v) = vector_relu(mean * f64::sqrt(var), var);
            let between = mean > 2.0 && mean < 8.0;
            let slack = if between { 1e-12 } else { 900.0 * EPSILON };
            assert!(v <= var * (1.0 + slack), "variance {mean} {var}");
        }
    }
}

#[test]
fn active_features_keep_their_covariance() {
    for (v, w, c) in [(1.0, 4.0, 0.7), (2.5, 0.3, -0.6), (1e10, 1e-10, 0.9)] {
        let mean = matrix(&[&[9.0 * f64::sqrt(v), 12.0 * f64::sqrt(w)]]);
        let m = burn_sdp::MomentsFull::<D>::new(mean, cube(&[&[v, c], &[c, w]]));
        let out = burn_sdp::propagate_relu_full::<D>(&m);
        for (i, j) in [(0, 1), (1, 0)] {
            let d = hard(out.cov.entries.get(0, i, j)) - c;
            assert!(d.abs() <= 5.0 * EPSILON * c.abs(), "{v} {w}");
        }
        assert_eq!(hard(out.cov.entries.get(0, 0, 0)), v);
    }
}

#[test]
fn full_rectifiers_agree_with_the_diagonal_one() {
    for (a, b) in [(-0.3, 1.2), (2.5, -3.0), (1e40, -1e30)] {
        let cov = cube(&[&[1.3, 0.4], &[0.4, 0.8]]);
        let m = burn_sdp::MomentsFull::<D>::new(matrix(&[&[a, b]]), cov);
        let full = burn_sdp::propagate_relu_full::<D>(&m);
        let plain = burn_sdp::propagate_relu::<D>(&burn_sdp::Moments::new(
            matrix(&[&[a, b]]),
            matrix(&[&[1.3, 0.8]]),
        ));
        for i in 0..2 {
            assert_eq!(entry(&full.mean, 0, i), entry(&plain.mean, 0, i));
            assert_eq!(entry(&full.variance(), 0, i), entry(&plain.var, 0, i));
        }
    }
}

#[test]
fn fixed_inputs_are_scaled_by_the_slope() {
    for mean in [-3.0, -0.5, 0.0, 0.25, 7.0] {
        let out = burn_sdp::propagate_leaky_relu::<D>(&moments(mean, 0.0), soft(0.3));
        let expected = if mean >= 0.0 { mean } else { 0.3 * mean };
        assert_eq!((entry(&out.mean, 0, 0), entry(&out.var, 0, 0)), (expected, 0.0));
    }
}

#[test]
fn closed_form_of_the_variance() {
    for mean in [-1.5, -0.4, 0.0, 0.8, 1.9] {
        for var in [0.5, 1.0, 3.0] {
            let (m, v) = vector_relu(mean, var);
            let a = mean / f64::sqrt(var);
            let phi = (-0.5 * a * a).exp() / (2.0 * std::f64::consts::PI).sqrt();
            // The mean gives the probability back.
            if mean != 0.0 {
                let p = (m - var.sqrt() * phi) / mean;
                let closed = (mean * mean + var) * p + mean * var.sqrt() * phi - m * m;
                assert!((v - closed).abs() <= 1e-12 * (1.0 + var), "{mean} {var}");
            }
        }
    }
}
