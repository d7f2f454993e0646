//! Propagation through layers of vectors, in double precision.
use stableprop::backend::Format;
use stableprop::scalar::Scalar;
use stableprop::vector::{
    check_input, check_linear, check_relu, try_propagate_sequential, validate_moments,
};
use stableprop::violation::Violation;

const PI: f64 = std::f64::consts::PI;

/// A number in double precision.
#[derive(Clone, Copy, Debug)]
struct Real(f64);

impl Scalar for Real {
    fn plus(self, other: Self) -> Self {
        Real(self.0 + other.0)
    }
    fn minus(self, other: Self) -> Self {
        Real(self.0 - other.0)
    }
    fn times(self, other: Self) -> Self {
        Real(self.0 * other.0)
    }
    fn over(self, other: Self) -> Self {
        Real(self.0 / other.0)
    }
    fn negated(self) -> Self {
        Real(-self.0)
    }
    fn magnitude(self) -> Self {
        Real(self.0.abs())
    }
    fn root(self) -> Self {
        Real(self.0.sqrt())
    }
    fn exponential(self) -> Self {
        Real(self.0.exp())
    }
    fn error_function(self) -> Self {
        unreachable!("vectors use the series of the distribution function")
    }
    fn tangent(self) -> Self {
        Real(self.0.tan())
    }
    fn less(self, other: Self) -> bool {
        self.0 < other.0
    }
    fn at_most(self, other: Self) -> bool {
        self.0 <= other.0
    }
    fn equals(self, other: Self) -> bool {
        self.0 == other.0
    }
    fn finite(self) -> bool {
        self.0.is_finite()
    }
    fn whole(value: i32) -> Self {
        Real(value as f64)
    }
    fn pi() -> Self {
        Real(PI)
    }
    fn narrowed(self, _: Format) -> Self {
        self
    }
    fn largest(_: Format) -> Self {
        Real(f64::MAX)
    }
}

#[derive(Debug, Clone)]
struct Moments {
    mean: Vec<f64>,
    cov: Vec<Vec<f64>>,
}

#[derive(Debug, Clone)]
enum Layer {
    Linear {
        weight: Vec<Vec<f64>>,
        bias: Vec<f64>,
    },
    ReLU,
}

fn wrap(values: &[f64]) -> Vec<Real> {
    values.iter().map(|x| Real(*x)).collect()
}

fn wrap_rows(rows: &[Vec<f64>]) -> Vec<Vec<Real>> {
    rows.iter().map(|row| wrap(row)).collect()
}

fn unwrap(values: &[Real]) -> Vec<f64> {
    values.iter().map(|x| x.0).collect()
}

impl Moments {
    fn wrapped(&self) -> stableprop::Moments<Real> {
        stableprop::Moments {
            mean: wrap(&self.mean),
            cov: wrap_rows(&self.cov),
        }
    }
}

fn unwrap_moments(m: stableprop::Moments<Real>) -> Moments {
    Moments {
        mean: unwrap(&m.mean),
        cov: m.cov.iter().map(|row| unwrap(row)).collect(),
    }
}

fn wrap_layers(layers: &[Layer]) -> Vec<stableprop::Layer<Real>> {
    layers
        .iter()
        .map(|layer| match layer {
            Layer::Linear { weight, bias } => stableprop::Layer::Linear {
                weight: wrap_rows(weight),
                bias: wrap(bias),
            },
            Layer::ReLU => stableprop::Layer::ReLU,
        })
        .collect()
}

/// Panics with the text of a violation, if there is one.
fn accept(fault: Option<Violation>) {
    if let Some(violation) = fault {
        panic!("{}", violation.message());
    }
}

fn propagate_linear(moments: &Moments, weight: &[Vec<f64>], bias: &[f64]) -> Moments {
    let m = moments.wrapped();
    let w = wrap_rows(weight);
    let b = wrap(bias);
    accept(check_linear(&m, &w, &b));
    unwrap_moments(stableprop::propagate_linear(&m, &w, &b))
}

fn propagate_relu(moments: &Moments) -> Moments {
    let m = moments.wrapped();
    accept(check_relu(&m));
    unwrap_moments(stableprop::propagate_relu(&m))
}

fn propagate_sequential(layers: &[Layer], input_mean: &[f64], input_std: &[f64]) -> Moments {
    let wrapped = wrap_layers(layers);
    match try_propagate_sequential(&wrapped, &wrap(input_mean), &wrap(input_std)) {
        Ok(m) => unwrap_moments(m),
        Err(violation) => panic!("{}", violation.message()),
    }
}

#[test]
#[should_panic(expected = "representable squared variance")]
fn sequential_rejects_variance_overflow_even_without_layers() {
    let _ = propagate_sequential(&[], &[0.0], &[f64::MAX]);
}

#[test]
#[should_panic(expected = "representable squared variance")]
fn sequential_rejects_variance_underflow_even_when_relu_mean_is_representable() {
    let _ = propagate_sequential(&[Layer::ReLU], &[0.0], &[1.0e-200]);
}

fn approx_eq(a: f64, b: f64, tol: f64) {
    assert!(
        (a - b).abs() < tol,
        "{a} != {b} (diff = {}, tol = {tol})",
        (a - b).abs()
    );
}

#[test]
fn linear_propagation_matches_analytical() {
    // 2D input, 2D output
    let moments = Moments {
        mean: vec![1.0, 2.0],
        cov: vec![vec![0.5, 0.1], vec![0.1, 0.3]],
    };
    let w = vec![vec![2.0, 0.0], vec![0.0, 3.0]];
    let b = vec![1.0, -1.0];

    let out = propagate_linear(&moments, &w, &b);

    // mean' = W*mean + b = [2*1+0*2+1, 0*1+3*2-1] = [3, 5]
    approx_eq(out.mean[0], 3.0, 1e-12);
    approx_eq(out.mean[1], 5.0, 1e-12);

    // cov' = W * cov * W^T
    // W*cov = [[2*0.5, 2*0.1], [3*0.1, 3*0.3]] = [[1.0, 0.2], [0.3, 0.9]]
    // (W*cov)*W^T = [[1.0*2+0.2*0, 1.0*0+0.2*3], [0.3*2+0.9*0, 0.3*0+0.9*3]]
    //             = [[2.0, 0.6], [0.6, 2.7]]
    approx_eq(out.cov[0][0], 2.0, 1e-12);
    approx_eq(out.cov[0][1], 0.6, 1e-12);
    approx_eq(out.cov[1][0], 0.6, 1e-12);
    approx_eq(out.cov[1][1], 2.7, 1e-12);
}

#[test]
fn relu_reduces_variance() {
    // Input with positive mean -- ReLU should pass most through but reduce variance.
    let moments = Moments {
        mean: vec![1.0, -1.0, 0.0],
        cov: vec![
            vec![1.0, 0.0, 0.0],
            vec![0.0, 1.0, 0.0],
            vec![0.0, 0.0, 1.0],
        ],
    };

    let out = propagate_relu(&moments);

    // Post-ReLU variance <= pre-ReLU variance for each dimension.
    for i in 0..3 {
        assert!(
            out.cov[i][i] <= moments.cov[i][i] + 1e-12,
            "dim {i}: post-ReLU var {} > pre-ReLU var {}",
            out.cov[i][i],
            moments.cov[i][i]
        );
    }

    // Positive mean: most mass passes through, mean should still be positive.
    assert!(out.mean[0] > 0.5);

    // Negative mean: ReLU clips most mass, mean should be small positive.
    assert!(out.mean[1] > 0.0);
    assert!(out.mean[1] < 0.5);

    // Zero mean: symmetric case, mean = sigma / sqrt(2*pi) ~ 0.3989
    approx_eq(out.mean[2], 1.0 / (2.0 * PI).sqrt(), 1e-4);
}

#[test]
fn relu_handles_zero_tiny_and_large_signal_variances() {
    let moments = Moments {
        mean: vec![1.0e10, -2.0, 0.0],
        cov: vec![
            vec![1.0, 0.0, 0.0],
            vec![0.0, 0.0, 0.0],
            vec![0.0, 0.0, 1.0e-20],
        ],
    };

    let out = propagate_relu(&moments);
    approx_eq(out.mean[0], 1.0e10, 1e-6);
    approx_eq(out.cov[0][0], 1.0, 1e-12);
    assert_eq!(out.mean[1], 0.0);
    assert_eq!(out.cov[1][1], 0.0);
    approx_eq(out.mean[2], 1.0e-10 / (2.0 * PI).sqrt(), 1e-18);
    approx_eq(out.cov[2][2], (0.5 - 1.0 / (2.0 * PI)) * 1.0e-20, 1e-28);
}

#[test]
#[should_panic(expected = "bias length")]
fn linear_rejects_mismatched_bias() {
    let moments = Moments {
        mean: vec![1.0, 2.0],
        cov: vec![vec![1.0, 0.0], vec![0.0, 1.0]],
    };
    let _ = propagate_linear(&moments, &[vec![3.0, 4.0]], &[]);
}

#[test]
#[should_panic(expected = "input std length")]
fn sequential_rejects_extra_std() {
    let _ = propagate_sequential(&[], &[1.0], &[1.0, 2.0]);
}

#[test]
#[should_panic(expected = "input std must")]
fn sequential_rejects_negative_std() {
    let _ = propagate_sequential(&[], &[1.0], &[-1.0]);
}

struct Rng {
    s: u64,
}
impl Rng {
    fn new(seed: u64) -> Self {
        Self { s: seed | 1 }
    }
    fn u(&mut self) -> f64 {
        self.s ^= self.s << 13;
        self.s ^= self.s >> 7;
        self.s ^= self.s << 17;
        ((self.s >> 11) as f64 + 1.0) / ((1u64 << 53) as f64 + 2.0)
    }
    fn normal(&mut self) -> f64 {
        let (u1, u2) = (self.u(), self.u());
        (-2.0 * u1.ln()).sqrt() * (std::f64::consts::TAU * u2).cos()
    }
}

#[test]
fn linear_propagation_matches_monte_carlo() {
    // Independent input dims; a dense W induces output covariance cross-terms
    // (W·Σ·Wᵀ), so MC validates the off-diagonal math, not just the diagonal.
    let mean = [1.0_f64, -2.0, 0.5];
    let std = [0.7_f64, 1.3, 0.4];
    let w = [vec![1.0, -0.5, 0.3], vec![0.2, 1.0, -0.8]];
    let b = [0.4_f64, -0.1];

    let moments = Moments {
        mean: mean.to_vec(),
        cov: (0..3)
            .map(|i| {
                let mut row = vec![0.0; 3];
                row[i] = std[i] * std[i];
                row
            })
            .collect(),
    };
    let analytic = propagate_linear(&moments, &w, &b);

    let n = 400_000;
    let mut rng = Rng::new(0xD157_9407);
    let mut sum = [0.0; 2];
    let mut sum2 = [[0.0; 2]; 2];
    for _ in 0..n {
        let x: Vec<f64> = (0..3).map(|i| mean[i] + std[i] * rng.normal()).collect();
        let y: Vec<f64> = (0..2)
            .map(|o| b[o] + (0..3).map(|i| w[o][i] * x[i]).sum::<f64>())
            .collect();
        for o in 0..2 {
            sum[o] += y[o];
            for p in 0..2 {
                sum2[o][p] += y[o] * y[p];
            }
        }
    }
    let nf = n as f64;
    let emp_mean: Vec<f64> = sum.iter().map(|s| s / nf).collect();
    for o in 0..2 {
        assert!(
            (analytic.mean[o] - emp_mean[o]).abs() < 0.02,
            "mean[{o}] analytic {} vs MC {}",
            analytic.mean[o],
            emp_mean[o]
        );
        for p in 0..2 {
            let emp_cov = sum2[o][p] / nf - emp_mean[o] * emp_mean[p];
            assert!(
                (analytic.cov[o][p] - emp_cov).abs() < 0.03,
                "cov[{o}][{p}] analytic {} vs MC {}",
                analytic.cov[o][p],
                emp_cov
            );
        }
    }
}

#[test]
fn relu_moments_match_monte_carlo() {
    let n = 600_000;
    for &(mu, sigma) in &[
        (1.0_f64, 1.0_f64),
        (-1.0, 1.0),
        (0.0, 1.0),
        (2.0, 0.5),
        (-0.5, 2.0),
        (3.0, 0.3),
    ] {
        let moments = Moments {
            mean: vec![mu],
            cov: vec![vec![sigma * sigma]],
        };
        let analytic = propagate_relu(&moments);

        let mut rng = Rng::new(0x5EED ^ (mu.to_bits() ^ sigma.to_bits()));
        let (mut s, mut s2) = (0.0_f64, 0.0_f64);
        for _ in 0..n {
            let x = (mu + sigma * rng.normal()).max(0.0);
            s += x;
            s2 += x * x;
        }
        let nf = n as f64;
        let emp_mean = s / nf;
        let emp_var = s2 / nf - emp_mean * emp_mean;
        assert!(
            (analytic.mean[0] - emp_mean).abs() < 0.01,
            "ReLU mean (mu={mu}, σ={sigma}): analytic {} vs MC {}",
            analytic.mean[0],
            emp_mean
        );
        assert!(
            (analytic.cov[0][0] - emp_var).abs() < 0.02,
            "ReLU var (mu={mu}, σ={sigma}): analytic {} vs MC {}",
            analytic.cov[0][0],
            emp_var
        );
    }
}

#[test]
fn chained_linear_covariance_is_exact() {
    let input = Moments {
        mean: vec![0.5, -1.0],
        cov: vec![vec![0.8, 0.3], vec![0.3, 0.5]],
    };
    let w1 = vec![vec![1.0, 2.0], vec![-0.5, 1.0], vec![0.25, -1.5]];
    let b1 = vec![0.2, -0.1, 0.4];
    let w2 = vec![vec![2.0, -1.0, 0.5], vec![0.3, 0.7, -2.0]];
    let b2 = vec![-0.3, 0.8];

    let chained = propagate_linear(&propagate_linear(&input, &w1, &b1), &w2, &b2);
    let collapsed_w = vec![vec![2.625, 2.25], vec![-0.55, 4.3]];
    let collapsed_b = vec![0.4, -0.01];
    let collapsed = propagate_linear(&input, &collapsed_w, &collapsed_b);

    for i in 0..2 {
        assert!((chained.mean[i] - collapsed.mean[i]).abs() < 1e-12);
        for j in 0..2 {
            assert!((chained.cov[i][j] - collapsed.cov[i][j]).abs() < 1e-12);
        }
    }
}

#[test]
fn chained_nonlinear_moments_track_seeded_monte_carlo() {
    let layers = vec![
        Layer::Linear {
            weight: vec![vec![0.8, -0.2], vec![0.3, 0.7]],
            bias: vec![0.4, 0.2],
        },
        Layer::ReLU,
        Layer::Linear {
            weight: vec![vec![0.6, 0.4], vec![-0.2, 0.5]],
            bias: vec![0.1, 0.3],
        },
        Layer::ReLU,
        Layer::Linear {
            weight: vec![vec![1.0, -0.4]],
            bias: vec![0.2],
        },
    ];
    let input_mean = [0.5, -0.2];
    let input_std = [0.4, 0.3];
    let analytic = propagate_sequential(&layers, &input_mean, &input_std);

    let mut rng = Rng::new(0xC1A1_5EED);
    let samples = 500_000;
    let (mut sum, mut sumsq) = (0.0, 0.0);
    for _ in 0..samples {
        let x0 = input_mean[0] + input_std[0] * rng.normal();
        let x1 = input_mean[1] + input_std[1] * rng.normal();
        let h0 = (0.8 * x0 - 0.2 * x1 + 0.4).max(0.0);
        let h1 = (0.3 * x0 + 0.7 * x1 + 0.2).max(0.0);
        let z0 = (0.6 * h0 + 0.4 * h1 + 0.1).max(0.0);
        let z1 = (-0.2 * h0 + 0.5 * h1 + 0.3).max(0.0);
        let y = z0 - 0.4 * z1 + 0.2;
        sum += y;
        sumsq += y * y;
    }
    let n = samples as f64;
    let mc_mean = sum / n;
    let mc_var = sumsq / n - mc_mean * mc_mean;

    assert!((analytic.mean[0] - mc_mean).abs() < 0.02);
    assert!((analytic.cov[0][0] - mc_var).abs() < 0.02);
}

/// Means from -5 to 5 and deviations from 0.01 to 3, with one to five features.
fn diagonal_case(rng: &mut Rng) -> Moments {
    let d = 1 + (rng.u() * 5.0) as usize;
    let mut cov = vec![vec![0.0; d]; d];
    let mean = (0..d).map(|_| -5.0 + 10.0 * rng.u()).collect();
    for i in 0..d {
        let std = 0.01 + 2.99 * rng.u();
        cov[i][i] = std * std;
    }
    Moments { mean, cov }
}

/// A covariance `A A^T` with a nonzero first off-diagonal entry.
fn full_case(rng: &mut Rng) -> Moments {
    let d = 2 + (rng.u() * 4.0) as usize;
    let mut a = vec![vec![0.0; d]; d];
    for row in a.iter_mut() {
        for x in row.iter_mut() {
            *x = -1.5 + 3.0 * rng.u();
        }
    }
    a[0] = vec![0.0; d];
    a[0][0] = 1.0;
    a[1][0] = if rng.u() < 0.5 { -0.7 } else { 0.7 };
    let mean = (0..d).map(|_| -5.0 + 10.0 * rng.u()).collect();
    let cov = (0..d)
        .map(|i| {
            (0..d)
                .map(|j| (0..d).map(|k| a[i][k] * a[j][k]).sum::<f64>())
                .collect()
        })
        .collect();
    Moments { mean, cov }
}

/// A weight with `d_out` rows and a bias.
fn affine_case(rng: &mut Rng, d_out: usize, d_in: usize) -> (Vec<Vec<f64>>, Vec<f64>) {
    let weight = (0..d_out)
        .map(|_| (0..d_in).map(|_| -2.0 + 4.0 * rng.u()).collect())
        .collect();
    let bias = (0..d_out).map(|_| -2.0 + 4.0 * rng.u()).collect();
    (weight, bias)
}

#[test]
fn relu_mean_nonnegative() {
    let mut rng = Rng::new(11);
    for _ in 0..256 {
        for x in propagate_relu(&diagonal_case(&mut rng)).mean {
            assert!(x >= -1e-9, "negative relu mean {x}");
        }
    }
}

#[test]
fn relu_variance_nonnegative() {
    let mut rng = Rng::new(12);
    for _ in 0..256 {
        let out = propagate_relu(&diagonal_case(&mut rng));
        for i in 0..out.mean.len() {
            assert!(out.cov[i][i] >= 0.0, "negative relu var {}", out.cov[i][i]);
        }
    }
}

#[test]
fn relu_never_raises_variance() {
    let mut rng = Rng::new(13);
    for _ in 0..256 {
        let m = diagonal_case(&mut rng);
        let out = propagate_relu(&m);
        for i in 0..out.mean.len() {
            assert!(out.cov[i][i] <= m.cov[i][i] + 1e-9);
        }
    }
}

#[test]
fn linear_mean_is_exact() {
    let mut rng = Rng::new(14);
    for _ in 0..256 {
        let m = diagonal_case(&mut rng);
        let (w, b) = affine_case(&mut rng, 3, m.mean.len());
        let out = propagate_linear(&m, &w, &b);
        for o in 0..b.len() {
            let expect = b[o] + (0..m.mean.len()).map(|i| w[o][i] * m.mean[i]).sum::<f64>();
            assert!((out.mean[o] - expect).abs() < 1e-9);
        }
    }
}

#[test]
fn linear_covariance_matches_independent_quadratic_form() {
    let mut rng = Rng::new(15);
    for _ in 0..256 {
        let m = full_case(&mut rng);
        assert!(m.cov[0][1].abs() > 0.0);
        let (w, b) = affine_case(&mut rng, 3, m.mean.len());
        let out = propagate_linear(&m, &w, &b);
        for o in 0..w.len() {
            for p in 0..w.len() {
                let mut expected = 0.0;
                let mut term_scale: f64 = 0.0;
                for i in 0..m.mean.len() {
                    for j in 0..m.mean.len() {
                        let term = w[o][i] * m.cov[i][j] * w[p][j];
                        expected += term;
                        term_scale += term.abs();
                    }
                }
                assert!(
                    (out.cov[o][p] - expected).abs() <= 1e-12 * term_scale.max(1e-12),
                    "covariance [{o}][{p}] {} vs {expected}",
                    out.cov[o][p],
                );
            }
        }
    }
}

#[test]
fn relu_reflection_preserves_raw_moments() {
    for mean in [-4.9, -2.5, -1.0, -0.3, 0.0, 0.2, 1.7, 4.4] {
        for variance in [0.0, 0.01, 0.5, 1.0, 4.0, 8.9] {
            let m = Moments { mean: vec![mean], cov: vec![vec![variance]] };
            let reflected = Moments { mean: vec![-mean], cov: vec![vec![variance]] };
            let positive = propagate_relu(&m);
            let negative = propagate_relu(&reflected);

            let mean_error = (positive.mean[0] - negative.mean[0] - mean).abs();
            let mean_scale = mean.abs().max(variance.sqrt()).max(1e-12);
            assert!(mean_error <= 3e-6 * mean_scale, "mean reflection error {mean_error}");

            let actual_second = positive.mean[0].powi(2)
                + positive.cov[0][0]
                + negative.mean[0].powi(2)
                + negative.cov[0][0];
            let expected_second = mean.powi(2) + variance;
            assert!(
                (actual_second - expected_second).abs() <= 3e-6 * expected_second.max(1e-12),
                "second-moment reflection {actual_second} vs {expected_second}",
            );
        }
    }
}

#[test]
fn relu_is_positively_homogeneous() {
    for mean in [-2.0, -0.7, 0.0, 0.4, 1.9] {
        for std in [0.5, 1.3, 2.9] {
            for scale in [0.25, 0.8, 3.9] {
                let variance = std * std;
                let base = Moments { mean: vec![mean], cov: vec![vec![variance]] };
                let scaled = Moments {
                    mean: vec![scale * mean],
                    cov: vec![vec![scale * scale * variance]],
                };
                let base_out = propagate_relu(&base);
                let scaled_out = propagate_relu(&scaled);
                let expected_mean = scale * base_out.mean[0];
                let expected_variance = scale * scale * base_out.cov[0][0];
                assert!((scaled_out.mean[0] - expected_mean).abs() <= 2e-12 * expected_mean.abs());
                assert!(
                    (scaled_out.cov[0][0] - expected_variance).abs()
                        <= 2e-12 * expected_variance.abs()
                );
            }
        }
    }
}

#[test]
fn relu_of_a_difference_of_noisy_inputs() {
    let layers = [
        Layer::Linear {
            weight: vec![vec![1.0, -1.0]],
            bias: vec![0.0],
        },
        Layer::ReLU,
    ];
    let output = propagate_sequential(&layers, &[0.0, 0.0], &[0.3, 0.4]);
    assert_eq!(format!("{:.4}", output.mean[0]), "0.1995");
    assert_eq!(format!("{:.4}", output.cov[0][0]), "0.0852");
}

#[test]
fn no_layers_return_the_input() {
    let out = propagate_sequential(&[], &[1.5, -2.0], &[0.5, 3.0]);
    assert_eq!(out.mean, vec![1.5, -2.0]);
    assert_eq!(out.cov, vec![vec![0.25, 0.0], vec![0.0, 9.0]]);
}

#[test]
fn layers_chain() {
    let first = [Layer::Linear {
        weight: vec![vec![2.0, 1.0], vec![-1.0, 0.5]],
        bias: vec![0.5, -0.25],
    }];
    let second = [
        Layer::ReLU,
        Layer::Linear {
            weight: vec![vec![1.0, -2.0]],
            bias: vec![3.0],
        },
    ];
    let both: Vec<Layer> = first.iter().chain(second.iter()).cloned().collect();
    let whole = propagate_sequential(&both, &[1.0, 2.0], &[0.5, 0.25]);
    let half = propagate_sequential(&first, &[1.0, 2.0], &[0.5, 0.25]);
    let rest = propagate_linear(&propagate_relu(&half), &[vec![1.0, -2.0]], &[3.0]);
    assert_eq!(whole.mean, rest.mean);
    assert_eq!(whole.cov, rest.cov);
}

#[test]
fn affine_values_are_exact() {
    let m = Moments {
        mean: vec![1.0, -2.0],
        cov: vec![vec![0.5, 0.25], vec![0.25, 2.0]],
    };
    let out = propagate_linear(&m, &[vec![2.0, 1.0], vec![-1.0, 0.5], vec![0.0, 4.0]], &[0.5, 0.0, -1.0]);
    assert_eq!(out.mean, vec![0.5, -2.0, -9.0]);
    assert_eq!(
        out.cov,
        vec![
            vec![5.0, 0.0, 10.0],
            vec![0.0, 0.75, 3.0],
            vec![10.0, 3.0, 32.0],
        ]
    );
}

#[test]
fn a_bias_leaves_the_covariance_alone() {
    let mut rng = Rng::new(16);
    let m = full_case(&mut rng);
    let (w, b) = affine_case(&mut rng, 4, m.mean.len());
    let shifted = propagate_linear(&m, &w, &b);
    let plain = propagate_linear(&m, &w, &vec![0.0; 4]);
    assert_eq!(shifted.cov, plain.cov);
    assert_ne!(shifted.mean, plain.mean);
}

#[test]
fn affine_covariance_is_symmetric_and_semidefinite() {
    let mut rng = Rng::new(17);
    for _ in 0..64 {
        let m = full_case(&mut rng);
        let (w, b) = affine_case(&mut rng, 4, m.mean.len());
        let c = propagate_linear(&m, &w, &b).cov;
        for i in 0..4 {
            for j in 0..4 {
                assert!((c[i][j] - c[j][i]).abs() < 1e-11);
            }
        }
        let v: Vec<f64> = (0..4).map(|_| -1.0 + 2.0 * rng.u()).collect();
        let mut quadratic = 0.0;
        for i in 0..4 {
            for j in 0..4 {
                quadratic += v[i] * c[i][j] * v[j];
            }
        }
        assert!(quadratic > -1e-10);
    }
}

#[test]
fn fixed_inputs_stay_fixed() {
    let m = Moments { mean: vec![1.0, -3.0], cov: vec![vec![0.0; 2]; 2] };
    let out = propagate_linear(&m, &[vec![2.0, 5.0]], &[1.0]);
    assert_eq!(out.mean, vec![-12.0]);
    assert_eq!(out.cov, vec![vec![0.0]]);
    let rectified = propagate_relu(&m);
    assert_eq!(rectified.mean, vec![1.0, 0.0]);
    assert_eq!(rectified.cov, vec![vec![0.0; 2]; 2]);
}

#[test]
fn relu_drops_and_ignores_covariance_between_features() {
    let m = Moments {
        mean: vec![0.5, -0.5],
        cov: vec![vec![1.0, 0.75], vec![0.75, 2.0]],
    };
    let plain = Moments {
        mean: vec![0.5, -0.5],
        cov: vec![vec![1.0, 0.0], vec![0.0, 2.0]],
    };
    let out = propagate_relu(&m);
    assert_eq!(out.cov[0][1], 0.0);
    assert_eq!(out.cov[1][0], 0.0);
    assert_eq!(out.mean, propagate_relu(&plain).mean);
    assert_eq!(out.cov, propagate_relu(&plain).cov);
}

#[test]
fn limits_apply_at_eight_deviations() {
    let m = Moments {
        mean: vec![8.0, -8.0, 7.9, -7.9],
        cov: (0..4)
            .map(|i| (0..4).map(|j| if i == j { 1.0 } else { 0.0 }).collect())
            .collect(),
    };
    let out = propagate_relu(&m);
    assert_eq!(out.mean[0], 8.0);
    assert_eq!(out.cov[0][0], 1.0);
    assert_eq!(out.mean[1], 0.0);
    assert_eq!(out.cov[1][1], 0.0);
    assert!((out.mean[2] - 7.9).abs() < 1e-12 && (out.cov[2][2] - 1.0).abs() < 1e-12);
    assert!(out.mean[3] > 0.0 && out.cov[3][3] > 0.0);
}

#[test]
fn every_violation_of_the_inputs_is_named() {
    let good = Moments {
        mean: vec![1.0, 2.0],
        cov: vec![vec![1.0, 0.0], vec![0.0, 1.0]],
    };
    let fault = |mean: &[f64], cov: &[Vec<f64>]| {
        validate_moments(&Moments { mean: mean.to_vec(), cov: cov.to_vec() }.wrapped())
    };
    assert_eq!(fault(&good.mean, &good.cov), None);
    assert_eq!(fault(&[], &[]), Some(Violation::MeanEmpty));
    assert_eq!(fault(&[f64::NAN], &[vec![1.0]]), Some(Violation::MeanNotFinite));
    assert_eq!(fault(&[1.0], &[]), Some(Violation::CovarianceRows));
    assert_eq!(fault(&[1.0], &[vec![1.0, 2.0]]), Some(Violation::CovarianceNotSquare));
    assert_eq!(fault(&[1.0], &[vec![f64::INFINITY]]), Some(Violation::CovarianceNotFinite));

    let linear = |weight: &[Vec<f64>], bias: &[f64]| {
        check_linear(&good.wrapped(), &wrap_rows(weight), &wrap(bias))
    };
    assert_eq!(linear(&[vec![1.0, 2.0]], &[0.0]), None);
    assert_eq!(linear(&[], &[]), Some(Violation::WeightEmpty));
    assert_eq!(linear(&[vec![1.0, 2.0]], &[]), Some(Violation::BiasLength));
    assert_eq!(linear(&[vec![1.0]], &[0.0]), Some(Violation::WeightColumns));
    assert_eq!(linear(&[vec![1.0, f64::NAN]], &[0.0]), Some(Violation::WeightNotFinite));
    assert_eq!(linear(&[vec![1.0, 2.0]], &[f64::INFINITY]), Some(Violation::BiasNotFinite));

    let negative = Moments { mean: vec![0.0], cov: vec![vec![-1.0]] };
    assert_eq!(check_relu(&negative.wrapped()), Some(Violation::Variance));

    let input = |mean: &[f64], std: &[f64]| check_input(&wrap(mean), &wrap(std));
    assert_eq!(input(&[0.0], &[1.0]), None);
    assert_eq!(input(&[], &[]), Some(Violation::InputMeanEmpty));
    assert_eq!(input(&[0.0], &[]), Some(Violation::InputDeviationLength));
    assert_eq!(input(&[f64::NAN], &[1.0]), Some(Violation::InputMeanNotFinite));
    assert_eq!(input(&[0.0], &[-1.0]), Some(Violation::InputDeviation));
    assert_eq!(input(&[0.0], &[1e-200]), Some(Violation::InputDeviation));
    assert_eq!(input(&[0.0], &[f64::MAX]), Some(Violation::InputDeviation));
}

#[test]
fn the_first_layer_that_does_not_apply_is_reported() {
    let layers = wrap_layers(&[
        Layer::ReLU,
        Layer::Linear { weight: vec![vec![1.0, 1.0]], bias: vec![0.0] },
        Layer::Linear { weight: vec![], bias: vec![] },
    ]);
    let out = try_propagate_sequential(&layers, &wrap(&[1.0]), &wrap(&[0.5]));
    assert!(matches!(out, Err(Violation::WeightColumns)));
    let none = stableprop::propagate_sequential(&layers[..1], &wrap(&[1.0]), &wrap(&[0.5]));
    assert!(none.mean[0].0 > 1.0);
}
