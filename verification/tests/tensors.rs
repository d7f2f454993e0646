//! Propagation on the tensors of a tensor library, with its automatic
//! differentiation.
use std::marker::PhantomData;

use burn_autodiff::Autodiff;
use burn_ndarray::NdArray;
use burn_tensor::backend::Backend as TensorBackend;
use burn_tensor::{bf16, f16, Bool, DType, Device, Tensor, TensorData};
use stableprop::backend::{Backend, ConvOptions, Format, Model};
use stableprop::burn_sdp;
use stableprop::burn_sdp::cauchy::{check_cauchy, check_interval};
use stableprop::burn_sdp::cross::{check_cross_linear, check_cross_relu};
use stableprop::burn_sdp::diagonal::{
    check_affine, check_bayes, check_conv2d, check_correlated, check_left, check_moments,
    check_residual,
};
use stableprop::burn_sdp::full::{check_diagonal, check_full, check_width};
use stableprop::burn_sdp::rectify::check_slope;
use stableprop::scalar::Scalar;
use stableprop::violation::Violation;

const PI: f64 = std::f64::consts::PI;

type Nd = NdArray<f32>;
type B = Nd;
type Ad = Autodiff<Nd>;

/// A number that carries the format it is computed in. Numbers of the host are
/// in double precision, which gives way to the format of tensor entries.
#[derive(Clone, Copy, Debug)]
enum Real {
    F64(f64),
    F32(f32),
    Flex32(f32),
    F16(f16),
    BF16(bf16),
}

impl Real {
    /// The number in double precision.
    fn wide(self) -> f64 {
        match self {
            Real::F64(x) => x,
            Real::F32(x) | Real::Flex32(x) => x as f64,
            Real::F16(x) => x.to_f64(),
            Real::BF16(x) => x.to_f64(),
        }
    }

    /// The number in single precision.
    fn single(self) -> f32 {
        self.wide() as f32
    }

    /// A result in single precision, put in the format of `self`.
    fn back(self, x: f32) -> Self {
        match self {
            Real::F64(_) => Real::F64(x as f64),
            Real::F32(_) => Real::F32(x),
            Real::Flex32(_) => Real::Flex32(x),
            Real::F16(_) => Real::F16(f16::from_f32(x)),
            Real::BF16(_) => Real::BF16(bf16::from_f32(x)),
        }
    }

    fn combine(self, other: Self, wide: fn(f64, f64) -> f64, single: fn(f32, f32) -> f32) -> Self {
        match (self, other) {
            (Real::F64(x), Real::F64(y)) => Real::F64(wide(x, y)),
            (Real::F64(_), _) => other.back(single(self.single(), other.single())),
            _ => self.back(single(self.single(), other.single())),
        }
    }

    fn apply(self, wide: fn(f64) -> f64, single: fn(f32) -> f32) -> Self {
        match self {
            Real::F64(x) => Real::F64(wide(x)),
            _ => self.back(single(self.single())),
        }
    }
}

impl Scalar for Real {
    fn plus(self, other: Self) -> Self {
        self.combine(other, |x, y| x + y, |x, y| x + y)
    }
    fn minus(self, other: Self) -> Self {
        self.combine(other, |x, y| x - y, |x, y| x - y)
    }
    fn times(self, other: Self) -> Self {
        self.combine(other, |x, y| x * y, |x, y| x * y)
    }
    fn over(self, other: Self) -> Self {
        self.combine(other, |x, y| x / y, |x, y| x / y)
    }
    fn negated(self) -> Self {
        self.apply(|x| -x, |x| -x)
    }
    fn magnitude(self) -> Self {
        self.apply(f64::abs, f32::abs)
    }
    fn root(self) -> Self {
        self.apply(f64::sqrt, f32::sqrt)
    }
    fn exponential(self) -> Self {
        self.apply(f64::exp, f32::exp)
    }
    fn error_function(self) -> Self {
        self.apply(wide_erf, single_erf)
    }
    fn tangent(self) -> Self {
        self.apply(f64::tan, f32::tan)
    }
    fn less(self, other: Self) -> bool {
        self.wide() < other.wide()
    }
    fn at_most(self, other: Self) -> bool {
        self.wide() <= other.wide()
    }
    fn equals(self, other: Self) -> bool {
        self.wide() == other.wide()
    }
    fn finite(self) -> bool {
        self.wide().is_finite()
    }
    fn whole(value: i32) -> Self {
        Real::F64(value as f64)
    }
    fn pi() -> Self {
        Real::F64(std::f64::consts::PI)
    }
    fn narrowed(self, f: Format) -> Self {
        match f {
            Format::F64 => Real::F64(self.wide()),
            Format::F32 => Real::F32(self.single()),
            Format::Flex32 => Real::Flex32(self.single()),
            Format::F16 => Real::F16(f16::from_f32(self.single())),
            Format::BF16 => Real::BF16(bf16::from_f32(self.single())),
        }
    }
    fn largest(f: Format) -> Self {
        let dtype = match f {
            Format::F64 => DType::F64,
            Format::F32 => DType::F32,
            Format::Flex32 => DType::Flex32,
            Format::F16 => DType::F16,
            Format::BF16 => DType::BF16,
        };
        Real::F64(dtype.finfo().unwrap().max)
    }
}

/// The error function in double precision.
fn wide_erf(x: f64) -> f64 {
    let device = Default::default();
    let x = Tensor::<NdArray<f64>, 1>::from_data([x], (&device, DType::F64));
    x.erf().into_data().to_vec::<f64>().unwrap()[0]
}

/// The error function in single precision.
fn single_erf(x: f32) -> f32 {
    let device = Default::default();
    let x = Tensor::<NdArray<f32>, 1>::from_data([x], (&device, DType::F32));
    x.erf().into_data().to_vec::<f32>().unwrap()[0]
}

/// The tensors of backend `B`.
struct Burn<B>(PhantomData<B>);

impl<B: TensorBackend> Model for Burn<B> {
    type Elem = Real;
    type Vector = Tensor<B, 1>;
    type Matrix = Tensor<B, 2>;
    type Cube = Tensor<B, 3>;
    type Image = Tensor<B, 4>;
    type Mask = Tensor<B, 2, Bool>;
    type CubeMask = Tensor<B, 3, Bool>;
}

fn format(dtype: DType) -> Format {
    match dtype {
        DType::F64 => Format::F64,
        DType::F32 => Format::F32,
        DType::Flex32 => Format::Flex32,
        DType::F16 => Format::F16,
        DType::BF16 => Format::BF16,
        _ => panic!("floating-point tensor required"),
    }
}

impl<B: TensorBackend> Backend for Burn<B> {
    fn length(v: &Tensor<B, 1>) -> usize {
        v.dims()[0]
    }
    fn format_of_vector(v: &Tensor<B, 1>) -> Format {
        format(v.dtype())
    }
    fn dims(m: &Tensor<B, 2>) -> (usize, usize) {
        let [rows, cols] = m.dims();
        (rows, cols)
    }
    fn format_of(m: &Tensor<B, 2>) -> Format {
        format(m.dtype())
    }
    fn dims3(c: &Tensor<B, 3>) -> (usize, usize, usize) {
        let [layers, rows, cols] = c.dims();
        (layers, rows, cols)
    }
    fn format_of3(c: &Tensor<B, 3>) -> Format {
        format(c.dtype())
    }
    fn dims4(x: &Tensor<B, 4>) -> (usize, usize, usize, usize) {
        let [batches, channels, rows, cols] = x.dims();
        (batches, channels, rows, cols)
    }
    fn format_of4(x: &Tensor<B, 4>) -> Format {
        format(x.dtype())
    }
    fn narrowed(f: Format, value: Real) -> Real {
        Scalar::narrowed(value, f)
    }
    fn largest_finite(f: Format) -> Real {
        Real::largest(f)
    }
    fn matrix_like(entries: Vec<Real>, rows: usize, cols: usize, like: &Tensor<B, 2>) -> Tensor<B, 2> {
        let values: Vec<f64> = entries.iter().map(|x| x.wide()).collect();
        Tensor::from_data(
            TensorData::new(values, [rows, cols]),
            (&like.device(), like.dtype()),
        )
    }
    fn matmul(a: &Tensor<B, 2>, b: &Tensor<B, 2>) -> Tensor<B, 2> {
        a.clone().matmul(b.clone())
    }
    fn transposed(m: &Tensor<B, 2>) -> Tensor<B, 2> {
        m.clone().swap_dims(0, 1)
    }
    fn plus_row(m: &Tensor<B, 2>, v: &Tensor<B, 1>) -> Tensor<B, 2> {
        m.clone() + v.clone().reshape([1, v.dims()[0]])
    }
    fn plus(a: &Tensor<B, 2>, b: &Tensor<B, 2>) -> Tensor<B, 2> {
        a.clone() + b.clone()
    }
    fn minus(a: &Tensor<B, 2>, b: &Tensor<B, 2>) -> Tensor<B, 2> {
        a.clone() - b.clone()
    }
    fn times(a: &Tensor<B, 2>, b: &Tensor<B, 2>) -> Tensor<B, 2> {
        a.clone() * b.clone()
    }
    fn over(a: &Tensor<B, 2>, b: &Tensor<B, 2>) -> Tensor<B, 2> {
        a.clone() / b.clone()
    }
    fn negated(m: &Tensor<B, 2>) -> Tensor<B, 2> {
        m.clone().neg()
    }
    fn reciprocal(m: &Tensor<B, 2>) -> Tensor<B, 2> {
        m.clone().recip()
    }
    fn root(m: &Tensor<B, 2>) -> Tensor<B, 2> {
        m.clone().sqrt()
    }
    fn exponential(m: &Tensor<B, 2>) -> Tensor<B, 2> {
        m.clone().exp()
    }
    fn error_function(m: &Tensor<B, 2>) -> Tensor<B, 2> {
        m.clone().erf()
    }
    fn magnitude(m: &Tensor<B, 2>) -> Tensor<B, 2> {
        m.clone().abs()
    }
    fn sign(m: &Tensor<B, 2>) -> Tensor<B, 2> {
        m.clone().sign()
    }
    fn scaled(m: &Tensor<B, 2>, s: Real) -> Tensor<B, 2> {
        m.clone().mul_scalar(s.wide())
    }
    fn shifted(m: &Tensor<B, 2>, s: Real) -> Tensor<B, 2> {
        m.clone().add_scalar(s.wide())
    }
    fn raised_to(m: &Tensor<B, 2>, s: Real) -> Tensor<B, 2> {
        m.clone().clamp_min(s.wide())
    }
    fn lowered_to(m: &Tensor<B, 2>, s: Real) -> Tensor<B, 2> {
        m.clone().clamp_max(s.wide())
    }
    fn exceeds(a: &Tensor<B, 2>, b: &Tensor<B, 2>) -> Tensor<B, 2, Bool> {
        a.clone().greater(b.clone())
    }
    fn falls_below(a: &Tensor<B, 2>, b: &Tensor<B, 2>) -> Tensor<B, 2, Bool> {
        a.clone().lower(b.clone())
    }
    fn is_below(m: &Tensor<B, 2>, s: Real) -> Tensor<B, 2, Bool> {
        m.clone().lower_elem(s.wide())
    }
    fn is_at_most(m: &Tensor<B, 2>, s: Real) -> Tensor<B, 2, Bool> {
        m.clone().lower_equal_elem(s.wide())
    }
    fn is_at_least(m: &Tensor<B, 2>, s: Real) -> Tensor<B, 2, Bool> {
        m.clone().greater_equal_elem(s.wide())
    }
    fn either(a: &Tensor<B, 2, Bool>, b: &Tensor<B, 2, Bool>) -> Tensor<B, 2, Bool> {
        a.clone().bool_or(b.clone())
    }
    fn select(a: &Tensor<B, 2>, k: &Tensor<B, 2, Bool>, b: &Tensor<B, 2>) -> Tensor<B, 2> {
        a.clone().mask_where(k.clone(), b.clone())
    }
    fn fill(m: &Tensor<B, 2>, k: &Tensor<B, 2, Bool>, s: Real) -> Tensor<B, 2> {
        m.clone().mask_fill(k.clone(), s.wide())
    }
    fn repeated(m: &Tensor<B, 2>, layers: usize) -> Tensor<B, 3> {
        let [rows, cols] = m.dims();
        m.clone().unsqueeze::<3>().expand([layers, rows, cols])
    }
    fn across(m: &Tensor<B, 2>, cols: usize) -> Tensor<B, 3> {
        let [layers, rows] = m.dims();
        m.clone().unsqueeze_dim::<3>(2).expand([layers, rows, cols])
    }
    fn down(m: &Tensor<B, 2>, rows: usize) -> Tensor<B, 3> {
        let [layers, cols] = m.dims();
        m.clone().unsqueeze_dim::<3>(1).expand([layers, rows, cols])
    }
    fn matmul3(a: &Tensor<B, 3>, b: &Tensor<B, 3>) -> Tensor<B, 3> {
        a.clone().matmul(b.clone())
    }
    fn plus3(a: &Tensor<B, 3>, b: &Tensor<B, 3>) -> Tensor<B, 3> {
        a.clone() + b.clone()
    }
    fn times3(a: &Tensor<B, 3>, b: &Tensor<B, 3>) -> Tensor<B, 3> {
        a.clone() * b.clone()
    }
    fn over3(a: &Tensor<B, 3>, b: &Tensor<B, 3>) -> Tensor<B, 3> {
        a.clone() / b.clone()
    }
    fn scaled3(c: &Tensor<B, 3>, s: Real) -> Tensor<B, 3> {
        c.clone().mul_scalar(s.wide())
    }
    fn confined3(c: &Tensor<B, 3>, low: Real, high: Real) -> Tensor<B, 3> {
        c.clone().clamp(low.wide(), high.wide())
    }
    fn falls_below3(a: &Tensor<B, 3>, b: &Tensor<B, 3>) -> Tensor<B, 3, Bool> {
        a.clone().lower(b.clone())
    }
    fn select3(a: &Tensor<B, 3>, k: &Tensor<B, 3, Bool>, b: &Tensor<B, 3>) -> Tensor<B, 3> {
        a.clone().mask_where(k.clone(), b.clone())
    }
    fn row_sums(c: &Tensor<B, 3>) -> Tensor<B, 2> {
        let [layers, rows, _] = c.dims();
        c.clone().sum_dim(2).reshape([layers, rows])
    }
    fn times4(a: &Tensor<B, 4>, b: &Tensor<B, 4>) -> Tensor<B, 4> {
        a.clone() * b.clone()
    }
    fn conv2d(
        x: &Tensor<B, 4>,
        w: &Tensor<B, 4>,
        bias: Option<&Tensor<B, 1>>,
        options: ConvOptions,
    ) -> Tensor<B, 4> {
        let native = burn_tensor::ops::ConvOptions::new(
            [options.stride.0, options.stride.1],
            [options.padding.0, options.padding.1],
            [options.dilation.0, options.dilation.1],
            options.groups,
        );
        burn_tensor::module::conv2d(x.clone(), w.clone(), bias.cloned(), native)
    }
}

type Moments<B> = burn_sdp::Moments<Burn<B>>;
type MomentsFull<B> = burn_sdp::MomentsFull<Burn<B>>;
type Cauchy<B> = burn_sdp::Cauchy<Burn<B>>;

/// Panics with the text of a violation, if there is one.
fn accept(fault: Option<Violation>) {
    if let Some(violation) = fault {
        panic!("{}", violation.message());
    }
}

fn moments<B: TensorBackend>(mean: Tensor<B, 2>, var: Tensor<B, 2>) -> Moments<B> {
    accept(check_moments::<Burn<B>>(&mean, &var));
    Moments::<B>::new(mean, var)
}

fn moments_full<B: TensorBackend>(mean: Tensor<B, 2>, cov: Tensor<B, 3>) -> MomentsFull<B> {
    accept(check_full::<Burn<B>>(&mean, &cov));
    MomentsFull::<B>::new(mean, cov)
}

fn from_diagonal<B: TensorBackend>(mean: Tensor<B, 2>, var: Tensor<B, 2>) -> MomentsFull<B> {
    accept(check_diagonal::<Burn<B>>(&mean, &var));
    MomentsFull::<B>::from_diagonal(mean, var)
}

fn cauchy<B: TensorBackend>(location: Tensor<B, 2>, scale: Tensor<B, 2>) -> Cauchy<B> {
    accept(check_cauchy::<Burn<B>>(&location, &scale));
    Cauchy::<B>::new(location, scale)
}

fn interval_halfwidth<B: TensorBackend>(c: &Cauchy<B>, p: f64) -> Tensor<B, 2> {
    accept(check_interval::<Burn<B>>(format(c.scale.dtype()), Real::F64(p)));
    c.interval_halfwidth(Real::F64(p))
}

fn propagate_linear<B: TensorBackend>(
    m: &Moments<B>,
    weight: Tensor<B, 2>,
    bias: Option<Tensor<B, 1>>,
) -> Moments<B> {
    accept(check_affine::<Burn<B>>(&m.mean, &weight, &bias));
    burn_sdp::propagate_linear::<Burn<B>>(m, weight, bias)
}

fn propagate_linear_bayes<B: TensorBackend>(
    m: &Moments<B>,
    w_mean: Tensor<B, 2>,
    w_var: Tensor<B, 2>,
    bias: Option<(Tensor<B, 1>, Tensor<B, 1>)>,
) -> Moments<B> {
    accept(check_bayes::<Burn<B>>(m, &w_mean, &w_var, &bias));
    burn_sdp::propagate_linear_bayes::<Burn<B>>(m, w_mean, w_var, bias)
}

fn propagate_matmul_left<B: TensorBackend>(a: Tensor<B, 2>, m: &Moments<B>) -> Moments<B> {
    accept(check_left::<Burn<B>>(&a, m));
    burn_sdp::propagate_matmul_left::<Burn<B>>(a, m)
}

fn propagate_relu<B: TensorBackend>(m: &Moments<B>) -> Moments<B> {
    burn_sdp::propagate_relu::<Burn<B>>(m)
}

fn propagate_leaky_relu<B: TensorBackend>(m: &Moments<B>, alpha: f64) -> Moments<B> {
    accept(check_slope::<Burn<B>>(format(m.mean.dtype()), Real::F64(alpha)));
    burn_sdp::propagate_leaky_relu::<Burn<B>>(m, Real::F64(alpha))
}

fn propagate_residual_add<B: TensorBackend>(skip: &Moments<B>, branch: &Moments<B>) -> Moments<B> {
    accept(check_residual::<Burn<B>>(skip, branch));
    burn_sdp::propagate_residual_add::<Burn<B>>(skip, branch)
}

fn propagate_residual_add_correlated<B: TensorBackend>(
    skip: &Moments<B>,
    branch: &Moments<B>,
    cov: Tensor<B, 2>,
) -> Moments<B> {
    accept(check_correlated::<Burn<B>>(skip, branch, &cov));
    burn_sdp::propagate_residual_add_correlated::<Burn<B>>(skip, branch, cov)
}

fn propagate_conv2d<B: TensorBackend>(
    mean: Tensor<B, 4>,
    var: Tensor<B, 4>,
    weight: Tensor<B, 4>,
    bias: Option<Tensor<B, 1>>,
    options: ConvOptions,
) -> (Tensor<B, 4>, Tensor<B, 4>) {
    accept(check_conv2d::<Burn<B>>(&mean, &var, &weight, &bias, options));
    burn_sdp::propagate_conv2d::<Burn<B>>(mean, var, weight, bias, options)
}

fn propagate_linear_full<B: TensorBackend>(
    m: &MomentsFull<B>,
    weight: Tensor<B, 2>,
    bias: Option<Tensor<B, 1>>,
) -> MomentsFull<B> {
    accept(check_affine::<Burn<B>>(&m.mean, &weight, &bias));
    burn_sdp::propagate_linear_full::<Burn<B>>(m, weight, bias)
}

fn propagate_relu_full<B: TensorBackend>(m: &MomentsFull<B>) -> MomentsFull<B> {
    accept(check_width(m.mean.dims()[1]));
    burn_sdp::propagate_relu_full::<Burn<B>>(m)
}

fn propagate_linear_cross_covariance<B: TensorBackend>(
    cross_cov: Tensor<B, 3>,
    weight: Tensor<B, 2>,
) -> Tensor<B, 3> {
    accept(check_cross_linear::<Burn<B>>(&cross_cov, &weight));
    burn_sdp::propagate_linear_cross_covariance::<Burn<B>>(cross_cov, weight)
}

fn propagate_relu_cross_covariance<B: TensorBackend>(
    cross_cov: Tensor<B, 3>,
    right: &Moments<B>,
) -> Tensor<B, 3> {
    accept(check_cross_relu::<Burn<B>>(&cross_cov, right));
    burn_sdp::propagate_relu_cross_covariance::<Burn<B>>(cross_cov, right)
}

fn propagate_linear_cauchy<B: TensorBackend>(
    c: &Cauchy<B>,
    weight: Tensor<B, 2>,
    bias: Option<Tensor<B, 1>>,
) -> Cauchy<B> {
    accept(check_affine::<Burn<B>>(&c.location, &weight, &bias));
    burn_sdp::propagate_linear_cauchy::<Burn<B>>(c, weight, bias)
}

fn propagate_relu_cauchy<B: TensorBackend>(c: &Cauchy<B>) -> Cauchy<B> {
    burn_sdp::propagate_relu_cauchy::<Burn<B>>(c)
}

/// Rectified mean and variance of one feature, by the vectors of the crate.
fn reference_output(mean: f64, var: f64) -> (f64, f64) {
    let input = stableprop::Moments {
        mean: vec![Real::F64(mean)],
        cov: vec![vec![Real::F64(var)]],
    };
    accept(stableprop::vector::check_relu(&input));
    let out = stableprop::propagate_relu(&input);
    (out.mean[0].wide(), out.cov[0][0].wide())
}

fn mc_moments(samples: &[Vec<f64>], len: usize) -> (Vec<f64>, Vec<f64>) {
    let k = samples.len() as f64;
    let mut mean = vec![0.0; len];
    for s in samples {
        for i in 0..len {
            mean[i] += s[i];
        }
    }
    for m in mean.iter_mut() {
        *m /= k;
    }
    let mut var = vec![0.0; len];
    for s in samples {
        for i in 0..len {
            var[i] += (s[i] - mean[i]).powi(2);
        }
    }
    for v in var.iter_mut() {
        *v /= k - 1.0;
    }
    (mean, var)
}

/// Fixed affine moments exercise the `mean @ W + bias` and `var @ W^2`
/// identities with a rectangular weight matrix. The expected values are
/// hand-calculated, rather than sampled from the implementation's backend.
#[test]
fn linear_affine_moments_match_fixed_oracle() {
    let dev = Device::<B>::default();
    let mean = Tensor::<B, 2>::from_data([[1.0, -2.0], [0.5, 3.0]], &dev);
    let var = Tensor::<B, 2>::from_data([[0.25, 4.0], [1.0, 0.5]], &dev);
    let weight = Tensor::<B, 2>::from_data([[2.0, -1.0, 0.5], [-0.25, 3.0, 2.0]], &dev);
    let bias = Tensor::<B, 1>::from_data([0.75, -1.25, 2.0], &dev);

    let actual = propagate_linear(&moments(mean, var), weight, Some(bias));
    let expected_mean =
        Tensor::<B, 2>::from_data([[3.25, -8.25, -1.5], [1.0, 7.25, 8.25]], &dev);
    let expected_var =
        Tensor::<B, 2>::from_data([[1.25, 36.25, 16.0625], [4.03125, 5.5, 2.25]], &dev);
    close(&actual.mean, &expected_mean, 1e-6);
    close(&actual.var, &expected_var, 1e-6);
}

/// Frey-Hinton's closed-form Gaussian ReLU moments give these central,
/// tail, and deterministic expected values without sampling noise.
#[test]
fn relu_gaussian_moments_match_fixed_oracle() {
    let dev = Device::<B>::default();
    let mean = Tensor::<B, 2>::from_data([[1.0, -1.0, 0.0, 9.0], [-9.0, 2.0, -2.0, 0.0]], &dev);
    let var = Tensor::<B, 2>::from_data([[1.0, 1.0, 1.0, 1.0], [1.0, 0.0, 0.0, 0.0]], &dev);

    let actual = propagate_relu(&moments(mean, var));
    let expected_mean = Tensor::<B, 2>::from_data(
        [
            [1.083_315_5, 0.083_315_46, 0.398_942_3, 9.0],
            [0.0, 2.0, 0.0, 0.0],
        ],
        &dev,
    );
    let expected_var = Tensor::<B, 2>::from_data(
        [
            [0.751_087_8, 0.068_398_34, 0.340_845_05, 1.0],
            [0.0, 0.0, 0.0, 0.0],
        ],
        &dev,
    );
    close(&actual.mean, &expected_mean, 2e-5);
    close(&actual.var, &expected_var, 2e-5);
}

/// Correlated ReLU outputs are recombined by a following linear layer. A
/// fixed covariance fixture keeps this ordering check deterministic.
#[test]
fn full_cov_beats_diagonal_on_correlated_relu_fixture() {
    let dev = Device::<B>::default();
    let mean = Tensor::<B, 2>::zeros([1, 2], &dev);
    let cov = Tensor::<B, 3>::from_data(
        TensorData::new(vec![1.0f32, 0.5, 0.5, 1.0], [1, 2, 2]),
        &dev,
    );
    let weight = Tensor::<B, 2>::ones([2, 1], &dev);

    let full = propagate_linear_full(
        &propagate_relu_full(&moments_full(mean.clone(), cov)),
        weight.clone(),
        None,
    );
    let diagonal = propagate_linear(
        &propagate_relu(&moments(mean, Tensor::<B, 2>::ones([1, 2], &dev))),
        weight,
        None,
    );
    let full_var = full.variance().to_data().to_vec::<f32>().unwrap()[0];
    let diagonal_var = diagonal.var.to_data().to_vec::<f32>().unwrap()[0];

    // Exact zero-mean ReLU covariance kernel for rho = 0.5.
    let rho = 0.5f32;
    let relu_var = 0.5 - 1.0 / (2.0 * core::f32::consts::PI);
    let relu_cov = ((1.0 - rho * rho).sqrt() + (core::f32::consts::PI - rho.acos()) * rho
        - 1.0)
        / (2.0 * core::f32::consts::PI);
    let expected = 2.0 * (relu_var + relu_cov);
    assert!(
        (full_var - expected).abs() < 0.01,
        "full variance: {full_var}"
    );
    assert!(
        full_var > diagonal_var + 0.2,
        "full ({full_var}) should retain the covariance diagonal ({diagonal_var}) drops"
    );
}

/// Cauchy is closed under linear maps, so `propagate_linear_cauchy` is exact.
/// Validate location (median) and scale (half-IQR) against Cauchy-input MC --
/// moments can't be used because a Cauchy has none.
#[test]
fn cauchy_linear_exact_vs_monte_carlo() {
    let dev = Device::<B>::default();
    let (n, d_in, d_out, k) = (2usize, 3usize, 2usize, 40_000usize);
    let loc = Tensor::<B, 2>::from_data([[1.0, -2.0, 0.5], [-0.5, 1.5, 2.0]], &dev);
    let scale = Tensor::<B, 2>::from_data([[0.5, 0.25, 1.0], [0.75, 0.4, 0.6]], &dev);
    let w = Tensor::<B, 2>::from_data([[1.0, -0.5], [-0.25, 2.0], [0.75, 0.4]], &dev);
    let b = Tensor::<B, 1>::from_data([0.2, -0.3], &dev);

    let out = propagate_linear_cauchy(
        &cauchy(loc.clone(), scale.clone()),
        w.clone(),
        Some(b.clone()),
    );
    let p_loc = out.location.to_data().to_vec::<f32>().unwrap();
    let p_scale = out.scale.to_data().to_vec::<f32>().unwrap();

    let loc_v = loc.to_data().to_vec::<f32>().unwrap();
    let scale_v = scale.to_data().to_vec::<f32>().unwrap();
    let w_v = w.to_data().to_vec::<f32>().unwrap();
    let b_v = b.to_data().to_vec::<f32>().unwrap();

    let mut rng = 0x00C0_FFEE_u64;
    let mut next = || {
        rng ^= rng << 13;
        rng ^= rng >> 7;
        rng ^= rng << 17;
        ((rng >> 11) as f64 + 1.0) / ((1u64 << 53) as f64 + 2.0)
    };
    let mut samples: Vec<Vec<f64>> = vec![Vec::with_capacity(k); n * d_out];
    for _ in 0..k {
        for i in 0..n {
            let x: Vec<f64> = (0..d_in)
                .map(|c| {
                    loc_v[i * d_in + c] as f64
                        + scale_v[i * d_in + c] as f64 * (PI * (next() - 0.5)).tan()
                })
                .collect();
            for j in 0..d_out {
                let y = b_v[j] as f64
                    + (0..d_in)
                        .map(|c| x[c] * w_v[c * d_out + j] as f64)
                        .sum::<f64>();
                samples[i * d_out + j].push(y);
            }
        }
    }
    for idx in 0..n * d_out {
        let s = &mut samples[idx];
        s.sort_by(|a, b| a.partial_cmp(b).unwrap());
        let med = s[k / 2];
        let mc_scale = (s[3 * k / 4] - s[k / 4]) / 2.0;
        assert!(
            (p_loc[idx] as f64 - med).abs() < 0.08,
            "loc {idx}: {} vs median {med}",
            p_loc[idx]
        );
        let rel = (p_scale[idx] as f64 - mc_scale).abs() / mc_scale.max(1e-6);
        assert!(
            rel < 0.10,
            "scale {idx}: {} vs half-IQR {mc_scale}",
            p_scale[idx]
        );
    }
}

/// Closed-form Gaussian leaky-ReLU moments for a nonzero slope, with
/// central, tail, and deterministic inputs. Values come from the
/// Frey-Hinton Gaussian ReLU moments and `leaky(x) = 0.3x + 0.7 relu(x)`.
#[test]
fn leaky_relu_moments_match_fixed_oracle() {
    let dev = Device::<B>::default();
    let mean = Tensor::<B, 2>::from_data([[1.0, -1.0, 0.0, 9.0], [-9.0, 2.0, -2.0, 0.0]], &dev);
    let var = Tensor::<B, 2>::from_data([[1.0, 1.0, 1.0, 1.0], [1.0, 0.25, 0.25, 0.0]], &dev);
    let actual = propagate_leaky_relu(&moments(mean, var), 0.3);
    let expected_mean = Tensor::<B, 2>::from_data(
        [
            [1.058_320_9, -0.241_679_18, 0.279_259_6, 9.0],
            [-2.7, 2.000_002_4, -0.599_997_5, 0.0],
        ],
        &dev,
    );
    let expected_var = Tensor::<B, 2>::from_data(
        [
            [0.811_397_8, 0.190_150_4, 0.467_014_07, 1.0],
            [0.09, 0.249_989_32, 0.022_503_736, 0.0],
        ],
        &dev,
    );
    close(&actual.mean, &expected_mean, 2e-5);
    close(&actual.var, &expected_var, 2e-5);
}

/// Residual `y = x + branch(x)` with a SMALL branch: the independence
/// approximation of `propagate_residual_add` should be close to an
/// independently sampled forward pass when the branch is small.
#[test]
fn residual_add_matches_monte_carlo_small_branch() {
    let dev = Device::<B>::default();
    let (n, d, k) = (2usize, 2usize, 80_000usize);
    let std = 0.5f64;

    // Small fixed branch weights make the skip variance dominate.
    let w1_values = [[0.05f32, -0.04], [0.03, 0.06]];
    let b1_values = [0.02f32, -0.01];
    let w2_values = [[0.04f32, -0.02], [0.01, 0.03]];
    let b2_values = [0.01f32, -0.02];
    let mean_values = [[0.2f32, -0.1], [0.5, 0.3]];
    let w1 = Tensor::<B, 2>::from_data(w1_values, &dev);
    let b1 = Tensor::<B, 1>::from_data(b1_values, &dev);
    let w2 = Tensor::<B, 2>::from_data(w2_values, &dev);
    let b2 = Tensor::<B, 1>::from_data(b2_values, &dev);
    let mean = Tensor::<B, 2>::from_data(mean_values, &dev);
    let var = Tensor::<B, 2>::full([n, d], std * std, &dev);

    let skip = moments(mean.clone(), var.clone());
    let branch = propagate_linear(
        &propagate_relu(&propagate_linear(&skip, w1.clone(), Some(b1.clone()))),
        w2.clone(),
        Some(b2.clone()),
    );
    let res = propagate_residual_add(&skip, &branch);
    let r_mean = res.mean.to_data().to_vec::<f32>().unwrap();
    let r_var = res.var.to_data().to_vec::<f32>().unwrap();

    let len = n * d;
    let mut state = 0xC0A1_5EED_u64;
    let mut uniform = || {
        state ^= state << 13;
        state ^= state >> 7;
        state ^= state << 17;
        ((state >> 11) as f64 + 0.5) / (1u64 << 53) as f64
    };
    let mut samples = Vec::with_capacity(k);
    for _ in 0..k {
        let mut x = [[0.0f64; 2]; 2];
        for row in 0..n {
            for col in 0..d {
                let z = (-2.0 * uniform().ln()).sqrt() * (2.0 * PI * uniform()).cos();
                x[row][col] = mean_values[row][col] as f64 + std * z;
            }
        }
        let mut y = Vec::with_capacity(n * d);
        for row in &x {
            let hidden = [
                (row[0] * w1_values[0][0] as f64
                    + row[1] * w1_values[1][0] as f64
                    + b1_values[0] as f64)
                    .max(0.0),
                (row[0] * w1_values[0][1] as f64
                    + row[1] * w1_values[1][1] as f64
                    + b1_values[1] as f64)
                    .max(0.0),
            ];
            for col in 0..d {
                y.push(
                    row[col]
                        + hidden[0] * w2_values[0][col] as f64
                        + hidden[1] * w2_values[1][col] as f64
                        + b2_values[col] as f64,
                );
            }
        }
        samples.push(y);
    }
    let (mc_mean, mc_var) = mc_moments(&samples, len);
    for i in 0..len {
        assert!(
            (r_mean[i] as f64 - mc_mean[i]).abs() < 0.03,
            "mean {i}: {} vs {}",
            r_mean[i],
            mc_mean[i]
        );
        let rel = (r_var[i] as f64 - mc_var[i]).abs() / mc_var[i].max(1e-9);
        assert!(
            rel < 0.05,
            "var {i}: {} vs {} (rel {rel})",
            r_var[i],
            mc_var[i]
        );
    }
}

/// Convolutional mean and variance use independent scalar reference loops
/// over a fixed two-channel, two-output fixture with bias.
#[test]
fn conv2d_moments_match_fixed_oracle() {
    let dev = Device::<B>::default();
    let (n, cin, h, w, cout, kh, kw) = (2usize, 2usize, 3usize, 4usize, 2usize, 2usize, 2usize);
    let opts = ConvOptions {
        stride: (1, 1),
        padding: (0, 0),
        dilation: (1, 1),
        groups: 1,
    };
    let mean_data: Vec<f32> = (0..n * cin * h * w).map(|i| i as f32 * 0.1 - 1.0).collect();
    let var_data: Vec<f32> = (0..n * cin * h * w)
        .map(|i| 0.05 + (i % 5) as f32 * 0.1)
        .collect();
    let weight_data = vec![
        0.5, -0.25, 1.0, 0.75, -0.4, 0.2, 0.3, -0.6, -0.7, 0.1, 0.4, -0.2, 0.6, 0.9, -0.3, 0.5,
    ];
    let bias_data = vec![0.25, -0.5];
    let mean =
        Tensor::<B, 4>::from_data(TensorData::new(mean_data.clone(), [n, cin, h, w]), &dev);
    let var =
        Tensor::<B, 4>::from_data(TensorData::new(var_data.clone(), [n, cin, h, w]), &dev);
    let weight = Tensor::<B, 4>::from_data(
        TensorData::new(weight_data.clone(), [cout, cin, kh, kw]),
        &dev,
    );
    let bias = Tensor::<B, 1>::from_data(TensorData::new(bias_data.clone(), [cout]), &dev);

    let (actual_mean, actual_var) = propagate_conv2d(mean, var, weight, Some(bias), opts);
    let (oh, ow) = (h - kh + 1, w - kw + 1);
    let mut expected_mean = vec![0.0; n * cout * oh * ow];
    let mut expected_var = vec![0.0; n * cout * oh * ow];
    for batch in 0..n {
        for (out_channel, &bias) in bias_data.iter().enumerate() {
            for row in 0..oh {
                for col in 0..ow {
                    let output = ((batch * cout + out_channel) * oh + row) * ow + col;
                    expected_mean[output] = bias;
                    for in_channel in 0..cin {
                        for kernel_row in 0..kh {
                            for kernel_col in 0..kw {
                                let input = ((batch * cin + in_channel) * h + row + kernel_row)
                                    * w
                                    + col
                                    + kernel_col;
                                let kernel =
                                    ((out_channel * cin + in_channel) * kh + kernel_row) * kw
                                        + kernel_col;
                                expected_mean[output] += mean_data[input] * weight_data[kernel];
                                expected_var[output] +=
                                    var_data[input] * weight_data[kernel].powi(2);
                            }
                        }
                    }
                }
            }
        }
    }
    let expected_mean =
        Tensor::<B, 4>::from_data(TensorData::new(expected_mean, [n, cout, oh, ow]), &dev);
    let expected_var =
        Tensor::<B, 4>::from_data(TensorData::new(expected_var, [n, cout, oh, ow]), &dev);
    let actual_mean = actual_mean.to_data().to_vec::<f32>().unwrap();
    let actual_var = actual_var.to_data().to_vec::<f32>().unwrap();
    let expected_mean = expected_mean.to_data().to_vec::<f32>().unwrap();
    let expected_var = expected_var.to_data().to_vec::<f32>().unwrap();
    for i in 0..actual_mean.len() {
        assert!(
            (actual_mean[i] - expected_mean[i]).abs() < 1e-5,
            "mean {i}: {} vs {}",
            actual_mean[i],
            expected_mean[i]
        );
        assert!(
            (actual_var[i] - expected_var[i]).abs() < 1e-5,
            "var {i}: {} vs {}",
            actual_var[i],
            expected_var[i]
        );
    }
}

// --- Fast invariant / reduction / edge-case tests (no Monte Carlo) ---

fn close(a: &Tensor<B, 2>, b: &Tensor<B, 2>, tol: f64) {
    let (av, bv) = (
        a.to_data().to_vec::<f32>().unwrap(),
        b.to_data().to_vec::<f32>().unwrap(),
    );
    for i in 0..av.len() {
        assert!(
            (av[i] as f64 - bv[i] as f64).abs() < tol,
            "elem {i}: {} vs {}",
            av[i],
            bv[i]
        );
    }
}

fn fixture() -> (Tensor<B, 2>, Moments<B>) {
    let dev = Device::<B>::default();
    let mean = Tensor::<B, 2>::from_data(
        [
            [-1.0, 0.5, 2.0, -0.25, 1.0],
            [0.3, -2.0, 1.5, 0.75, -0.5],
            [2.0, -1.0, 0.0, 0.2, -0.8],
            [0.1, 1.0, -1.5, 2.5, 0.4],
        ],
        &dev,
    );
    let var = Tensor::<B, 2>::full([4, 5], 0.4, &dev);
    (mean.clone(), moments(mean, var))
}

/// Leaky ReLU at alpha = 0 is plain ReLU.
#[test]
fn leaky_reduces_to_relu() {
    let (_, m) = fixture();
    let r = propagate_relu(&m);
    let l = propagate_leaky_relu(&m, 0.0);
    close(&r.mean, &l.mean, 1e-5);
    close(&r.var, &l.var, 1e-5);
}

/// Weight-uncertainty propagation with zero weight variance is plain linear.
#[test]
fn bayes_reduces_to_linear_at_zero_weight_var() {
    let dev = Device::<B>::default();
    let (_, m) = fixture();
    let w = Tensor::<B, 2>::from_data(
        [
            [0.5, -0.25, 1.0],
            [-0.4, 0.2, 0.3],
            [0.7, -0.6, 0.1],
            [0.25, 0.8, -0.5],
            [-0.3, 0.4, 0.9],
        ],
        &dev,
    );
    let lin = propagate_linear(&m, w.clone(), None);
    let wvar = w.clone().zeros_like();
    let bayes = propagate_linear_bayes(&m, w, wvar, None);
    close(&lin.mean, &bayes.mean, 1e-5);
    close(&lin.var, &bayes.var, 1e-5);
}

/// The diagonal of full-covariance propagation equals diagonal propagation
/// after a single linear layer.
#[test]
fn full_cov_diagonal_matches_diagonal_linear() {
    let dev = Device::<B>::default();
    let (mean, m) = fixture();
    let w = Tensor::<B, 2>::from_data(
        [
            [0.5, -0.25, 1.0],
            [-0.4, 0.2, 0.3],
            [0.7, -0.6, 0.1],
            [0.25, 0.8, -0.5],
            [-0.3, 0.4, 0.9],
        ],
        &dev,
    );
    let diag = propagate_linear(&m, w.clone(), None);
    let full = propagate_linear_full(&from_diagonal(mean, m.var.clone()), w, None);
    close(&diag.var, &full.variance(), 1e-4);
}

/// `from_diagonal(..).variance()` round-trips the variance.
#[test]
fn from_diagonal_roundtrip() {
    let (mean, m) = fixture();
    let mf = from_diagonal(mean, m.var.clone());
    close(&m.var, &mf.variance(), 1e-5);
}

/// Deterministic input (zero variance): ReLU output mean is `max(0, mean)`
/// and output variance stays ~0.
#[test]
fn relu_deterministic_input() {
    let dev = Device::<B>::default();
    let mean =
        Tensor::<B, 2>::from_data(TensorData::new(vec![1.0f32, -1.0, 2.0, -0.5], [1, 4]), &dev);
    let var = Tensor::<B, 2>::full([1, 4], 0.0, &dev);
    let out = propagate_relu(&moments(mean, var));
    let m = out.mean.to_data().to_vec::<f32>().unwrap();
    let v = out.var.to_data().to_vec::<f32>().unwrap();
    let expect = [1.0, 0.0, 2.0, 0.0];
    for i in 0..4 {
        assert!((m[i] - expect[i]).abs() < 1e-3, "mean {i}: {}", m[i]);
        assert!(v[i] < 1e-3, "var {i}: {}", v[i]);
    }
}

#[test]
fn activation_variance_is_stable_at_large_means_and_tiny_noise() {
    let dev = Device::<B>::default();
    let mean = Tensor::<B, 2>::from_data(
        TensorData::new(vec![10_000.0f32, -1.0, 0.0, 0.0], [1, 4]),
        &dev,
    );
    let var = Tensor::<B, 2>::from_data(
        TensorData::new(vec![1.0f32, 0.0, 1.0e-16, 0.0], [1, 4]),
        &dev,
    );
    let relu = propagate_relu(&moments(mean.clone(), var.clone()));
    let relu_mean = relu.mean.to_data().to_vec::<f32>().unwrap();
    let relu_var = relu.var.to_data().to_vec::<f32>().unwrap();
    assert!((relu_mean[0] - 10_000.0).abs() < 1e-3);
    assert!(
        (relu_var[0] - 1.0).abs() < 1e-5,
        "large-mean ReLU variance: {}",
        relu_var[0]
    );
    assert_eq!(relu_mean[1], 0.0);
    assert_eq!(relu_var[1], 0.0);
    assert!(
        (relu_var[2] - (0.5 - 1.0 / (2.0 * core::f32::consts::PI)) * 1.0e-16).abs() < 1e-20,
        "tiny-noise ReLU variance: {}",
        relu_var[2]
    );
    assert_eq!(relu_var[3], 0.0);

    let leaky = propagate_leaky_relu(&moments(mean, var), 0.3);
    let leaky_var = leaky.var.to_data().to_vec::<f32>().unwrap();
    assert!(
        (leaky_var[0] - 1.0).abs() < 1e-5,
        "large-mean leaky-ReLU variance: {}",
        leaky_var[0]
    );
    assert_eq!(leaky_var[1], 0.0);
    assert_eq!(leaky_var[3], 0.0);
}

#[test]
fn full_relu_variance_is_stable_at_large_means() {
    let dev = Device::<B>::default();
    let mean = Tensor::<B, 2>::from_data(TensorData::new(vec![10_000.0f32], [1, 1]), &dev);
    let cov = Tensor::<B, 3>::from_data(TensorData::new(vec![1.0f32], [1, 1, 1]), &dev);
    let out = propagate_relu_full(&moments_full(mean, cov));
    let var = out.variance().to_data().to_vec::<f32>().unwrap();
    assert!(
        (var[0] - 1.0).abs() < 1e-5,
        "large-mean full-ReLU variance: {}",
        var[0]
    );
}

#[test]
fn full_relu_handles_zero_and_tiny_covariances() {
    let dev = Device::<B>::default();
    let zero_mean =
        Tensor::<B, 2>::from_data(TensorData::new(vec![0.0f32, -2.0], [1, 2]), &dev);
    let zero_cov = Tensor::<B, 3>::zeros([1, 2, 2], &dev);
    let zero = propagate_relu_full(&moments_full(zero_mean, zero_cov));
    assert_eq!(zero.mean.to_data().to_vec::<f32>().unwrap(), vec![0.0, 0.0]);
    assert_eq!(zero.cov.to_data().to_vec::<f32>().unwrap(), vec![0.0; 4]);

    let tiny_mean =
        Tensor::<B, 2>::from_data(TensorData::new(vec![0.0f32, 1.0e-8], [1, 2]), &dev);
    let tiny_cov = Tensor::<B, 3>::from_data(
        TensorData::new(vec![1.0e-24f32, 0.5e-24, 0.5e-24, 1.0e-24], [1, 2, 2]),
        &dev,
    );
    let tiny = propagate_relu_full(&moments_full(tiny_mean, tiny_cov));
    assert!(
        tiny.cov
            .to_data()
            .to_vec::<f32>()
            .unwrap()
            .iter()
            .all(|x| x.is_finite()),
        "tiny covariance produced non-finite output"
    );
}

/// All propagated variances stay non-negative.
#[test]
fn variance_stays_nonnegative() {
    let dev = Device::<B>::default();
    let (mean, m) = fixture();
    let w = Tensor::<B, 2>::from_data(
        [
            [0.5, -0.25, 1.0, 0.2, -0.1],
            [-0.4, 0.2, 0.3, -0.7, 0.6],
            [0.7, -0.6, 0.1, 0.5, -0.2],
            [0.25, 0.8, -0.5, 0.4, 0.3],
            [-0.3, 0.4, 0.9, -0.2, 0.7],
        ],
        &dev,
    );
    let chain = propagate_relu(&propagate_linear(
        &propagate_leaky_relu(&propagate_linear(&m, w.clone(), None), 0.1),
        w,
        None,
    ));
    let v = chain.var.to_data().to_vec::<f32>().unwrap();
    assert!(v.iter().all(|x| *x >= 0.0), "negative variance present");
    let _ = mean;
}

/// Cauchy ReLU gates the scale to zero where the location is negative.
#[test]
fn cauchy_relu_gates_scale() {
    let dev = Device::<B>::default();
    let loc = Tensor::<B, 2>::from_data(TensorData::new(vec![2.0f32, -3.0, 0.5], [1, 3]), &dev);
    let scale = Tensor::<B, 2>::full([1, 3], 1.0, &dev);
    let out = propagate_relu_cauchy(&cauchy(loc, scale));
    let s = out.scale.to_data().to_vec::<f32>().unwrap();
    assert!(s[0] > 0.5, "active scale kept");
    assert!(s[1] < 1e-6, "inactive scale gated to 0");
}

/// Linear WITH bias: the bias must be added to the mean (and not the
/// variance). Catches mutations that drop or misplace the bias.
#[test]
fn linear_bias_added_to_mean_only() {
    let dev = Device::<B>::default();
    let mean = Tensor::<B, 2>::zeros([2, 3], &dev);
    let var = Tensor::<B, 2>::full([2, 3], 0.5, &dev);
    let w = Tensor::<B, 2>::from_data(
        TensorData::new(vec![1.0f32, 0.0, 0.0, 1.0, 0.0, 0.0], [3, 2]),
        &dev,
    );
    let bias = Tensor::<B, 1>::from_data(TensorData::new(vec![5.0f32, -2.0], [2]), &dev);
    let out = propagate_linear(&moments(mean, var), w, Some(bias));
    let m = out.mean.to_data().to_vec::<f32>().unwrap();
    let v = out.var.to_data().to_vec::<f32>().unwrap();
    // mean = 0*W + bias = [5, -2] per row.
    assert!(
        (m[0] - 5.0).abs() < 1e-4 && (m[1] + 2.0).abs() < 1e-4,
        "bias not in mean"
    );
    // variance unaffected by bias: col 0 gets var(=0.5), col 1 gets 0.
    assert!((v[0] - 0.5).abs() < 1e-4, "bias leaked into variance");
}

/// GCN-adjacency propagation: `var_out = (a*a) @ var` on a rectangular,
/// signed fixed adjacency matrix.
#[test]
fn matmul_left_moments_match_fixed_oracle() {
    let dev = Device::<B>::default();
    let a = Tensor::<B, 2>::from_data([[1.0, -2.0, 0.5], [0.25, 3.0, -1.0]], &dev);
    let mean = Tensor::<B, 2>::from_data([[1.0, -2.0], [0.5, 4.0], [-3.0, 2.0]], &dev);
    let var = Tensor::<B, 2>::from_data([[0.25, 1.0], [4.0, 0.5], [1.5, 2.0]], &dev);
    let actual = propagate_matmul_left(a, &moments(mean, var));
    let expected_mean = Tensor::<B, 2>::from_data([[-1.5, -9.0], [4.75, 9.5]], &dev);
    let expected_var = Tensor::<B, 2>::from_data([[16.625, 3.5], [37.515_625, 6.5625]], &dev);
    close(&actual.mean, &expected_mean, 1e-6);
    close(&actual.var, &expected_var, 1e-6);
}

/// Cauchy interval half-width is `scale * tan(pi p / 2)`.
#[test]
fn cauchy_interval_halfwidth_value() {
    let dev = Device::<B>::default();
    let scale = Tensor::<B, 2>::full([1, 2], 2.0, &dev);
    let c = cauchy(Tensor::zeros([1, 2], &dev), scale);
    let hw = interval_halfwidth(&c, 0.9).to_data().to_vec::<f32>().unwrap();
    let expect = 2.0 * (PI * 0.9 / 2.0).tan();
    assert!(
        (hw[0] as f64 - expect).abs() < 0.01,
        "{} vs {expect}",
        hw[0]
    );
}

/// Weight-uncertainty propagation with nonzero input, weight, and bias
/// variances has a hand-calculated mean-field oracle.
#[test]
fn bayes_weight_uncertainty_matches_fixed_oracle() {
    let dev = Device::<B>::default();
    let mean = Tensor::<B, 2>::from_data([[1.0, -2.0], [0.5, 3.0]], &dev);
    let var = Tensor::<B, 2>::from_data([[0.25, 4.0], [1.0, 0.5]], &dev);
    let w_mean = Tensor::<B, 2>::from_data([[2.0, -1.0, 0.5], [-0.25, 3.0, 2.0]], &dev);
    let w_var = Tensor::<B, 2>::from_data([[0.04, 0.01, 0.09], [0.16, 0.25, 0.04]], &dev);
    let b_mean = Tensor::<B, 1>::from_data([0.75, -1.25, 2.0], &dev);
    let b_var = Tensor::<B, 1>::from_data([0.01, 0.04, 0.09], &dev);
    let actual = propagate_linear_bayes(
        &moments(mean, var),
        w_mean,
        w_var,
        Some((b_mean, b_var)),
    );
    let expected_mean =
        Tensor::<B, 2>::from_data([[3.25, -8.25, -1.5], [1.0, 7.25, 8.25]], &dev);
    let expected_var =
        Tensor::<B, 2>::from_data([[2.59, 38.3025, 16.585], [5.61125, 7.9275, 2.8325]], &dev);
    close(&actual.mean, &expected_mean, 1e-6);
    close(&actual.var, &expected_var, 1e-5);
}

/// On a diagonal input the full-covariance ReLU diagonal equals the plain
/// diagonal ReLU (the off-diagonal gating contributes nothing).
#[test]
fn full_cov_relu_diagonal_matches_diagonal_relu() {
    let (mean, m) = fixture();
    let var = m.var.clone();
    let diag = propagate_relu(&moments(mean.clone(), var.clone()));
    let full = propagate_relu_full(&from_diagonal(mean, var));
    close(&diag.var, &full.variance(), 1e-4);
    close(&diag.mean, &full.mean, 1e-4);
}

/// Residual-add is exactly the element-wise sum of the two moments.
#[test]
fn residual_add_is_exact_sum() {
    let dev = Device::<B>::default();
    let m1 = Tensor::<B, 2>::from_data([[1.0, -2.0, 0.5], [-0.25, 3.0, 1.5]], &dev);
    let v1 = Tensor::<B, 2>::full([2, 3], 0.5, &dev);
    let m2 = Tensor::<B, 2>::from_data([[-0.5, 1.0, 2.0], [0.75, -1.5, 0.25]], &dev);
    let v2 = Tensor::<B, 2>::full([2, 3], 0.3, &dev);
    let r = propagate_residual_add(
        &moments(m1.clone(), v1.clone()),
        &moments(m2.clone(), v2.clone()),
    );
    close(&r.mean, &(m1 + m2), 1e-5);
    close(&r.var, &(v1 + v2), 1e-5);
}

#[test]
fn correlated_residual_add_includes_cross_covariance() {
    let dev = Device::<B>::default();
    let mean = Tensor::<B, 2>::from_data(TensorData::new(vec![1.0f32, -2.0], [1, 2]), &dev);
    let var = Tensor::<B, 2>::from_data(TensorData::new(vec![0.5f32, 2.0], [1, 2]), &dev);
    let skip = moments(mean.clone(), var.clone());
    let branch = moments(mean, var.clone());

    // branch == skip, so Cov(skip, branch) == Var(skip) and
    // Var(skip + branch) == 4 Var(skip).
    let out = propagate_residual_add_correlated(&skip, &branch, var);

    let out_mean = out.mean.to_data().to_vec::<f32>().unwrap();
    let out_var = out.var.to_data().to_vec::<f32>().unwrap();
    assert_eq!(out_mean, vec![2.0, -4.0]);
    assert_eq!(out_var, vec![2.0, 8.0]);
}

#[test]
#[should_panic(expected = "probability mass must be finite and in [0, 1)")]
fn cauchy_interval_rejects_invalid_probability_mass() {
    let dev = Device::<B>::default();
    let c = Cauchy::<B>::new(Tensor::zeros([1, 1], &dev), Tensor::ones([1, 1], &dev));
    let _ = interval_halfwidth(&c, 1.0);
}

/// Full post-ReLU covariance (diagonal and off-diagonal) must match Monte
/// Carlo. This exercises the Wright-series off-diagonal terms; correlated
/// pre-activations are produced by a linear layer from a diagonal input.
#[test]
fn relu_full_covariance_matches_monte_carlo() {
    let dev = Device::<B>::default();
    let (n, din, dh, k) = (2usize, 4usize, 5usize, 150_000usize);
    let std = 0.6f64;
    let weights = vec![
        0.8f32, -0.3, 0.6, 0.1, -0.7, 0.2, 0.9, -0.4, 0.5, 0.3, -0.5, 0.4, 0.7, -0.8, 0.2, 0.3,
        -0.6, 0.2, 0.4, 0.9,
    ];
    let means = vec![0.0f32, 0.0, 0.0, 0.0, 0.3, -0.2, 0.4, -0.1];
    let w = Tensor::<B, 2>::from_data(TensorData::new(weights.clone(), [din, dh]), &dev);
    let mean = Tensor::<B, 2>::from_data(TensorData::new(means.clone(), [n, din]), &dev);
    let var = Tensor::<B, 2>::full([n, din], std * std, &dev);

    let pre = propagate_linear_full(
        &from_diagonal(mean.clone(), var),
        w.clone(),
        None,
    );
    let post = propagate_relu_full(&pre);
    let p_cov = post.cov.to_data().to_vec::<f32>().unwrap(); // [n, dh, dh]

    let mut sh = vec![0.0f64; n * dh];
    let mut shh = vec![0.0f64; n * dh * dh];
    // Local seeded noise is independent of Burn's shared RNG and test order.
    let mut state = 0x5eed_c0a1_u64;
    let mut uniform = || {
        state ^= state << 13;
        state ^= state >> 7;
        state ^= state << 17;
        ((state >> 11) as f64 + 0.5) / ((1u64 << 53) as f64)
    };
    for _ in 0..k {
        let x: Vec<f64> = means
            .iter()
            .map(|&mu| {
                let z = (-2.0 * uniform().ln()).sqrt() * (2.0 * PI * uniform()).cos();
                mu as f64 + std * z
            })
            .collect();
        let mut h = vec![0.0f64; n * dh];
        for i in 0..n {
            for a in 0..dh {
                h[i * dh + a] = (0..din)
                    .map(|j| x[i * din + j] * weights[j * dh + a] as f64)
                    .sum::<f64>()
                    .max(0.0);
            }
        }
        for i in 0..n {
            for a in 0..dh {
                let ha = h[i * dh + a];
                sh[i * dh + a] += ha;
                for b in 0..dh {
                    shh[i * dh * dh + a * dh + b] += ha * h[i * dh + b];
                }
            }
        }
    }
    let kf = k as f64;
    for i in 0..n {
        for a in 0..dh {
            for b in 0..dh {
                let mc = shh[i * dh * dh + a * dh + b] / kf
                    - (sh[i * dh + a] / kf) * (sh[i * dh + b] / kf);
                let p = p_cov[i * dh * dh + a * dh + b] as f64;
                assert!((p - mc).abs() < 0.03, "cov[{i}][{a}][{b}]: {p} vs MC {mc}");
            }
        }
    }
}

#[test]
fn finite_gradients_for_representable_subnormal_variances() {
    let device = Default::default();
    for variance in [f32::MIN_POSITIVE, 1e-40f32] {
        let sigma = variance.sqrt();
        for mode in ["relu", "leaky", "full", "cross"] {
            let mean =
                Tensor::<Ad, 2>::from_data([[0.0, sigma, 9.0 * sigma, -9.0 * sigma]], &device)
                    .require_grad();
            let var = Tensor::<Ad, 2>::from_data([[variance; 4]], &device).require_grad();
            let moments = moments(mean.clone(), var.clone());
            let loss = match mode {
                "relu" => {
                    let out = propagate_relu(&moments);
                    out.mean.sum() + out.var.sum()
                }
                "leaky" => {
                    let out = propagate_leaky_relu(&moments, 0.3);
                    out.mean.sum() + out.var.sum()
                }
                "full" => {
                    let out =
                        propagate_relu_full(&from_diagonal(mean.clone(), var.clone()));
                    out.mean.sum() + out.cov.sum()
                }
                "cross" => {
                    let cross = Tensor::<Ad, 3>::from_data([[[0.5 * variance; 4]]], &device);
                    propagate_relu_cross_covariance(cross, &moments).sum()
                }
                _ => unreachable!(),
            };
            let gradients = loss.backward();
            for gradient in [
                mean.grad(&gradients).unwrap(),
                var.grad(&gradients).unwrap(),
            ] {
                let values = gradient.into_data().to_vec::<f32>().unwrap();
                assert!(
                    values.iter().all(|x| x.is_finite()),
                    "{mode}, var={variance:e}: {values:?}"
                );
            }
        }
    }
}

#[test]
fn distant_means_with_subnormal_variance_have_finite_tail_gradients() {
    let device = Default::default();
    for mode in ["relu", "leaky", "full", "cross"] {
        let mean =
            Tensor::<Ad, 2>::from_data([[1.0, -1.0, f32::MAX, -f32::MAX]], &device).require_grad();
        let variance = 1e-40f32;
        let var = Tensor::<Ad, 2>::from_data([[variance; 4]], &device).require_grad();
        let moments = moments(mean.clone(), var.clone());
        let (output_mean, output_var) = match mode {
            "relu" => {
                let out = propagate_relu(&moments);
                (out.mean, out.var)
            }
            "leaky" => {
                let out = propagate_leaky_relu(&moments, 0.25);
                (out.mean, out.var)
            }
            "full" => {
                let out =
                    propagate_relu_full(&from_diagonal(mean.clone(), var.clone()));
                let variance = out.variance();
                (out.mean, variance)
            }
            "cross" => {
                let cross = Tensor::<Ad, 3>::from_data([[[0.5 * variance; 4]]], &device);
                let out = propagate_relu_cross_covariance(cross, &moments).reshape([1, 4]);
                (out.clone(), out)
            }
            _ => unreachable!(),
        };
        let slope = if mode == "leaky" { 0.25 } else { 0.0 };
        let (expected_mean, expected_var) = if mode == "cross" {
            let cross = vec![0.5 * variance, 0.0, 0.5 * variance, 0.0];
            (cross.clone(), cross)
        } else {
            (
                vec![1.0, -slope, f32::MAX, -slope * f32::MAX],
                vec![
                    variance,
                    slope * slope * variance,
                    variance,
                    slope * slope * variance,
                ],
            )
        };
        assert_eq!(
            output_mean.clone().into_data().to_vec::<f32>().unwrap(),
            expected_mean,
            "{mode} mean"
        );
        assert_eq!(
            output_var.clone().into_data().to_vec::<f32>().unwrap(),
            expected_var,
            "{mode} variance"
        );
        // Scale before reduction so even the f32::MAX output gives a finite loss.
        let loss = output_mean.mul_scalar(0.25).sum() + output_var.sum();
        assert!(
            loss.clone().into_scalar().is_finite(),
            "{mode}: loss overflow"
        );
        let gradients = loss.backward();
        let expected_mean_grad = if mode == "cross" {
            vec![0.0; 4]
        } else {
            vec![0.25, 0.25 * slope, 0.25, 0.25 * slope]
        };
        let expected_var_grad = if mode == "cross" {
            vec![0.0; 4]
        } else {
            vec![1.0, slope * slope, 1.0, slope * slope]
        };
        assert_eq!(
            mean.grad(&gradients)
                .unwrap()
                .into_data()
                .to_vec::<f32>()
                .unwrap(),
            expected_mean_grad,
            "{mode} d/dmean"
        );
        assert_eq!(
            var.grad(&gradients)
                .unwrap()
                .into_data()
                .to_vec::<f32>()
                .unwrap(),
            expected_var_grad,
            "{mode} d/dvariance"
        );
    }
}

#[test]
fn mixed_scale_relu_covariance_gradients_match_centered_series() {
    let device = Default::default();
    let v0 = f32::from_bits(1);
    let v1 = 1e38f32;
    let cross = 1e-5f32;
    assert!((cross as f64).powi(2) < v0 as f64 * v1 as f64);
    let cov = Tensor::<Ad, 3>::from_data([[[v0, cross], [cross, v1]]], &device).require_grad();
    let out = propagate_relu_full(&moments_full(
        Tensor::<Ad, 2>::zeros([1, 2], &device),
        cov.clone(),
    ));
    let gradients = out.cov.sum().backward();
    let actual = cov
        .grad(&gradients)
        .unwrap()
        .into_data()
        .to_vec::<f32>()
        .unwrap();

    // At zero means, the implemented series is C/4 + C²/(4*pi*sqrt(v0*v1)).
    // Differentiate the sum of both off-diagonals and the marginal variances.
    let scale = (v0 as f64 * v1 as f64).sqrt();
    let correction = (cross as f64).powi(2) / (4.0 * std::f64::consts::PI * scale);
    let marginal = 0.5 - 0.5 / std::f64::consts::PI;
    let cross_grad = 0.25 + cross as f64 / (2.0 * std::f64::consts::PI * scale);
    let expected = [
        marginal - correction / v0 as f64,
        cross_grad,
        cross_grad,
        marginal - correction / v1 as f64,
    ];
    for (actual, expected) in actual.into_iter().zip(expected) {
        assert!(expected.is_finite() && expected.abs() < f32::MAX as f64);
        let relative_error = (actual as f64 - expected).abs() / expected.abs();
        assert!(
            relative_error < 2e-4,
            "{actual:e} vs {expected:e}, relative error {relative_error:e}"
        );
    }
}

#[test]
fn equal_scale_relu_cross_covariance_depends_on_both_variances() {
    let device = Default::default();
    let cov = Tensor::<Ad, 3>::from_data([[[1.0, 0.5], [0.5, 1.0]]], &device).require_grad();
    let out = propagate_relu_full(&moments_full(
        Tensor::<Ad, 2>::zeros([1, 2], &device),
        cov.clone(),
    ));
    // Use one off-diagonal so symmetry of the loss cannot hide an asymmetric
    // derivative when the two normalization scales compare equal.
    let gradients = out.cov.slice([0..1, 0..1, 1..2]).sum().backward();
    let actual = cov
        .grad(&gradients)
        .unwrap()
        .into_data()
        .to_vec::<f32>()
        .unwrap();
    let variance_grad = -0.25 / (8.0 * std::f32::consts::PI);
    let expected = [
        variance_grad,
        0.25 + 0.25 / std::f32::consts::PI,
        0.0,
        variance_grad,
    ];
    for (actual, expected) in actual.into_iter().zip(expected) {
        assert!((actual - expected).abs() < 2e-7, "{actual} vs {expected}");
    }
}

#[test]
fn activation_gradients_remain_finite_at_zero_and_small_noise() {
    let device = Default::default();
    for full in [false, true] {
        let mean = Tensor::<Ad, 2>::from_data(
            TensorData::new(vec![0.0f32, 1e-12, 10_000.0, -1.0], [1, 4]),
            &device,
        )
        .require_grad();
        let var = Tensor::<Ad, 2>::from_data(
            TensorData::new(vec![0.0f32, 1e-24, 1.0, 0.0], [1, 4]),
            &device,
        )
        .require_grad();
        let loss = if full {
            let out = propagate_relu_full(&from_diagonal(mean.clone(), var.clone()));
            out.variance().sum() + out.mean.sum()
        } else {
            let moments = moments(mean.clone(), var.clone());
            let relu = propagate_relu(&moments);
            let leaky = propagate_leaky_relu(&moments, 0.3);
            relu.mean.sum() + relu.var.sum() + leaky.mean.sum() + leaky.var.sum()
        };
        let grads = loss.backward();
        for gradient in [mean.grad(&grads).unwrap(), var.grad(&grads).unwrap()] {
            let values = gradient.to_data().to_vec::<f32>().unwrap();
            assert!(
                values.iter().all(|x| x.is_finite()),
                "full={full}: {values:?}"
            );
        }
    }
}

#[test]
fn tiny_correlated_relu_preserves_scale_and_finite_gradients() {
    let device = Default::default();
    let mean = Tensor::<Ad, 2>::zeros([1, 2], &device).require_grad();
    let cov = Tensor::<Ad, 3>::from_data(
        TensorData::new(vec![1e-24f32, 0.5e-24, 0.5e-24, 1e-24], [1, 2, 2]),
        &device,
    )
    .require_grad();
    let out = propagate_relu_full(&moments_full(mean.clone(), cov.clone()));
    let values = out.cov.to_data().to_vec::<f32>().unwrap();
    // Independent zero-mean bivariate ReLU formula, scaled by input variance.
    let rho = 0.5f32;
    let pi = core::f32::consts::PI;
    let exact = ((1.0 - rho * rho).sqrt() + (pi - rho.acos()) * rho - 1.0) / (2.0 * pi);
    assert!((values[1] / 1e-24 - exact).abs() < 0.001);
    assert_eq!(values[1], values[2]);
    let grads = (out.mean.sum() + out.cov.sum()).backward();
    for values in [
        mean.grad(&grads)
            .unwrap()
            .to_data()
            .to_vec::<f32>()
            .unwrap(),
        cov.grad(&grads).unwrap().to_data().to_vec::<f32>().unwrap(),
    ] {
        assert!(values.iter().all(|x| x.is_finite()), "{values:?}");
    }
}

#[test]
fn inactive_relu_tail_has_zero_covariance_with_other_features() {
    let device = Default::default();
    let mean = Tensor::<Ad, 2>::from_data([[-9.0f32, 0.0]], &device).require_grad();
    let cov = Tensor::<Ad, 3>::from_data([[[1.0f32, 0.5], [0.5, 1.0]]], &device).require_grad();
    let out = propagate_relu_full(&moments_full(mean.clone(), cov.clone()));
    let values = out.cov.to_data().to_vec::<f32>().unwrap();
    // A deterministic zero output cannot covary with another feature.
    assert_eq!(&values[..3], &[0.0; 3]);
    let grads = (out.mean.sum() + out.cov.sum()).backward();
    assert!(mean
        .grad(&grads)
        .unwrap()
        .to_data()
        .to_vec::<f32>()
        .unwrap()
        .iter()
        .all(|x| x.is_finite()));
    assert!(cov
        .grad(&grads)
        .unwrap()
        .to_data()
        .to_vec::<f32>()
        .unwrap()
        .iter()
        .all(|x| x.is_finite()));
}

#[test]
fn affine_transport_preserves_left_right_orientation() {
    let device = Default::default();
    let cross = Tensor::<Nd, 3>::from_data([[[1.0, 2.0], [3.0, 4.0]]], &device);
    let weight = Tensor::<Nd, 2>::from_data([[2.0, -1.0], [0.5, 1.0]], &device);
    let actual = propagate_linear_cross_covariance(cross, weight)
        .into_data()
        .to_vec::<f32>()
        .unwrap();
    assert_eq!(actual, vec![3.0, 1.0, 8.0, 1.0]);
}

#[test]
fn relu_cross_covariance_has_half_gate_and_linear_tail_limits() {
    let device = Default::default();
    let right = moments(
        Tensor::<Nd, 2>::from_data([[0.0, 9.0, -9.0, 2.0]], &device),
        Tensor::<Nd, 2>::from_data([[1.0, 1.0, 1.0, 0.0]], &device),
    );
    let cross = Tensor::<Nd, 3>::from_data([[[0.2, 0.3, -0.4, 0.0]]], &device);
    let actual = propagate_relu_cross_covariance(cross, &right)
        .into_data()
        .to_vec::<f32>()
        .unwrap();
    for (&value, expected) in actual.iter().zip([0.1, 0.3, 0.0, 0.0]) {
        assert!((value - expected).abs() < 1e-6, "{actual:?}");
    }
}

#[test]
fn cross_covariance_gradients_are_finite_at_zero_tiny_and_tail_variances() {
    let device = Default::default();
    let mean = Tensor::<Ad, 2>::from_data([[0.0, 1e-12, 9.0, -9.0]], &device).require_grad();
    let var = Tensor::<Ad, 2>::from_data([[0.0, 1e-24, 1.0, 1.0]], &device).require_grad();
    let cross = Tensor::<Ad, 3>::from_data([[[0.0, 0.5e-24, 0.1, 0.1]]], &device).require_grad();
    let out =
        propagate_relu_cross_covariance(cross.clone(), &moments(mean.clone(), var.clone()));
    let gradients = out.sum().backward();
    for values in [
        mean.grad(&gradients)
            .unwrap()
            .into_data()
            .to_vec::<f32>()
            .unwrap(),
        var.grad(&gradients)
            .unwrap()
            .into_data()
            .to_vec::<f32>()
            .unwrap(),
        cross
            .grad(&gradients)
            .unwrap()
            .into_data()
            .to_vec::<f32>()
            .unwrap(),
    ] {
        assert!(values.iter().all(|x| x.is_finite()), "{values:?}");
    }
}

#[test]
fn cross_covariance_gradient_matches_gaussian_cdf_derivative() {
    let device = Default::default();
    let mean = Tensor::<Ad, 2>::from_data([[0.3]], &device).require_grad();
    let var = Tensor::<Ad, 2>::from_data([[0.49]], &device).require_grad();
    let cross = Tensor::<Ad, 3>::from_data([[[0.2]]], &device).require_grad();
    let gradients =
        propagate_relu_cross_covariance(cross, &moments(mean.clone(), var.clone()))
            .sum()
            .backward();
    let sigma = 0.7f64;
    let a = 0.3 / sigma;
    let pdf = (-0.5 * a * a).exp() / (2.0 * std::f64::consts::PI).sqrt();
    let expected_mean = 0.2 * pdf / sigma;
    let expected_var = -0.2 * 0.3 * pdf / (2.0 * sigma.powi(3));
    let actual_mean = mean
        .grad(&gradients)
        .unwrap()
        .into_data()
        .to_vec::<f32>()
        .unwrap()[0] as f64;
    let actual_var = var
        .grad(&gradients)
        .unwrap()
        .into_data()
        .to_vec::<f32>()
        .unwrap()[0] as f64;
    assert!((actual_mean - expected_mean).abs() < 1e-6);
    assert!((actual_var - expected_var).abs() < 1e-6);
}

#[test]
fn relu_transport_matches_joint_gaussian_monte_carlo() {
    let device = Default::default();
    let right = moments(
        Tensor::<Nd, 2>::from_data([[0.2, -0.3]], &device),
        Tensor::<Nd, 2>::from_data([[0.65, 0.90]], &device),
    );
    let cross = Tensor::<Nd, 3>::from_data([[[0.58, 0.57], [-0.75, 0.75]]], &device);
    let analytic = propagate_relu_cross_covariance(cross, &right)
        .into_data()
        .to_vec::<f32>()
        .unwrap();

    let mut state = 0xC205_5C0Fu64;
    let mut uniform = || {
        state ^= state << 13;
        state ^= state >> 7;
        state ^= state << 17;
        ((state >> 11) as f64 + 1.0) / ((1u64 << 53) as f64 + 2.0)
    };
    let mut normal = || (-2.0 * uniform().ln()).sqrt() * (std::f64::consts::TAU * uniform()).cos();
    let samples = 150_000;
    let mut sum_u = [0.0; 2];
    let mut sum_v = [0.0; 2];
    let mut product = [[0.0; 2]; 2];
    for _ in 0..samples {
        let (z0, z1) = (normal(), normal());
        let u = [0.4 + z0 + 0.3 * z1, -0.2 - 0.5 * z0 + z1];
        let v = [
            (0.2 + 0.7 * z0 - 0.4 * z1).max(0.0),
            (-0.3 + 0.3 * z0 + 0.9 * z1).max(0.0),
        ];
        for i in 0..2 {
            sum_u[i] += u[i];
            sum_v[i] += v[i];
            for j in 0..2 {
                product[i][j] += u[i] * v[j];
            }
        }
    }
    let n = samples as f64;
    for i in 0..2 {
        for j in 0..2 {
            let empirical = product[i][j] / n - sum_u[i] * sum_v[j] / (n * n);
            assert!((analytic[2 * i + j] as f64 - empirical).abs() < 0.01);
        }
    }
}

#[test]
#[should_panic(expected = "right features must match weight inputs")]
fn affine_transport_rejects_transposed_weight_layout() {
    let device = Default::default();
    let cross = Tensor::<Nd, 3>::zeros([2, 3, 4], &device);
    let weight = Tensor::<Nd, 2>::zeros([5, 4], &device);
    let _ = propagate_linear_cross_covariance(cross, weight);
}

fn relu_moments_and_omitted_energy(mu: f64, sigma: f64, p: f64) -> (f64, f64, f64) {
    let alpha = mu / sigma;
    let phi = (-0.5 * alpha * alpha).exp() / (2.0 * std::f64::consts::PI).sqrt();
    let mean = mu * p + sigma * phi;
    let raw_second = (mu * mu + sigma * sigma) * p + mu * sigma * phi;
    let variance = raw_second - mean * mean;
    let c1 = sigma * p;
    let c2 = sigma * phi;
    let c3 = -sigma * alpha * phi;
    let omitted_energy = variance - c1 * c1 - c2 * c2 / 2.0 - c3 * c3 / 6.0;
    (mean, variance, omitted_energy)
}

fn relu_derivative_tail_energy(sigma: f64, alpha: f64, p: f64) -> f64 {
    let phi_squared = (-alpha * alpha).exp() / (2.0 * std::f64::consts::PI);
    sigma * sigma * (p - p * p - phi_squared - alpha * alpha * phi_squared / 2.0)
}

fn relu_covariance_correlation_gradient(mean: [f64; 2], std: [f64; 2], rho: f64) -> f64 {

    let device = Default::default();
    let sigma_product = std[0] * std[1];
    let mean = Tensor::<Ad, 2>::from_data(
        TensorData::new(mean.to_vec(), [1, 2]),
        (&device, DType::F64),
    );
    let covariance = Tensor::<Ad, 3>::from_data(
        TensorData::new(
            vec![
                std[0] * std[0],
                rho * sigma_product,
                rho * sigma_product,
                std[1] * std[1],
            ],
            [1, 2, 2],
        ),
        (&device, DType::F64),
    )
    .require_grad();
    let output = propagate_relu_full(&moments_full(mean, covariance.clone()));
    let gradients = output.cov.slice([0..1, 0..1, 1..2]).sum().backward();
    let gradient = covariance
        .grad(&gradients)
        .unwrap()
        .into_data()
        .to_vec::<f64>()
        .unwrap();
    // A symmetric correlation changes both input off-diagonal entries. Sum
    // both partials before restoring the covariance unit dSigma_ij/d rho.
    sigma_product * (gradient[1] + gradient[2])
}

#[derive(Clone, Copy)]
struct ScalarReluOracle {
    mean: f64,
    variance: f64,
    mean_mu: f64,
    mean_var: f64,
    variance_mu: f64,
    variance_var: f64,
    coefficients: [f64; 3],
    coefficient_mu: [f64; 3],
    coefficient_var: [f64; 3],
}

fn scalar_relu_oracle(mu: f64, variance: f64, p: f64) -> ScalarReluOracle {
    let sigma = variance.sqrt();
    let alpha = mu / sigma;
    let phi = (-0.5 * alpha * alpha).exp() / (2.0 * std::f64::consts::PI).sqrt();
    let mean = mu * p + sigma * phi;
    let raw_second = (mu * mu + variance) * p + mu * sigma * phi;
    let output_variance = raw_second - mean * mean;

    ScalarReluOracle {
        mean,
        variance: output_variance,
        mean_mu: p,
        mean_var: phi / (2.0 * sigma),
        variance_mu: 2.0 * mean * (1.0 - p),
        variance_var: p - mean * phi / sigma,
        coefficients: [sigma * p, sigma * phi, -sigma * alpha * phi],
        coefficient_mu: [phi, -alpha * phi, (alpha * alpha - 1.0) * phi],
        coefficient_var: [
            (p - alpha * phi) / (2.0 * sigma),
            (1.0 + alpha * alpha) * phi / (2.0 * sigma),
            -alpha.powi(3) * phi / (2.0 * sigma),
        ],
    }
}

#[derive(Clone, Copy)]
struct K3PairOracle {
    covariance: f64,
    covariance_mu: [f64; 2],
    covariance_var: [f64; 2],
    covariance_q: f64,
}

fn k3_pair_oracle(
    mu: [f64; 2],
    variance: [f64; 2],
    q: f64,
    p: [f64; 2],
) -> (ScalarReluOracle, ScalarReluOracle, K3PairOracle) {
    let left = scalar_relu_oracle(mu[0], variance[0], p[0]);
    let right = scalar_relu_oracle(mu[1], variance[1], p[1]);
    let sigma_product = (variance[0] * variance[1]).sqrt();
    let rho = q / sigma_product;
    let factorial = [1.0, 2.0, 6.0];
    let mut covariance = 0.0;
    let mut covariance_mu = [0.0; 2];
    let mut covariance_var = [0.0; 2];
    let mut covariance_rho = 0.0;

    for (k, denominator) in factorial.iter().enumerate() {
        let order = (k + 1) as i32;
        let factor = rho.powi(order) / denominator;
        let product = left.coefficients[k] * right.coefficients[k];
        covariance += factor * product;
        covariance_mu[0] += factor * left.coefficient_mu[k] * right.coefficients[k];
        covariance_mu[1] += factor * left.coefficients[k] * right.coefficient_mu[k];
        covariance_var[0] += factor * left.coefficient_var[k] * right.coefficients[k];
        covariance_var[1] += factor * left.coefficients[k] * right.coefficient_var[k];
        covariance_rho += order as f64 * rho.powi(order - 1) * product / denominator;
    }
    covariance_var[0] += covariance_rho * -rho / (2.0 * variance[0]);
    covariance_var[1] += covariance_rho * -rho / (2.0 * variance[1]);

    (
        left,
        right,
        K3PairOracle {
            covariance,
            covariance_mu,
            covariance_var,
            covariance_q: covariance_rho / sigma_product,
        },
    )
}

#[derive(Clone, Copy)]
struct NonzeroReluFixture {
    mean: [f64; 2],
    std: [f64; 2],
    cdf: [f64; 2],
    rho: f64,
    covariance: f64,
    joint_activation_probability: f64,
}

// mpmath at 90 decimal digits generated these values and agreed with an
// independent 50-digit run. For |rho| < 1, write X = mu_l + sigma_l Z;
// condition on Z and integrate X_+ E[Y_+ | Z] phi(Z), where Y | Z has mean
// mu_r + rho sigma_r Z and standard deviation sigma_r sqrt(1-rho^2). At
// rho = +/-1, integrate the resulting deterministic one-dimensional pair.
// The joint activation probabilities use the same conditioning, integrating
// phi(Z) Phi((alpha_r + rho Z) / sqrt(1-rho^2)) over Z > -alpha_l.
// The fixtures include positive and negative products alpha_l alpha_r, so the
// third Hermite coefficient has both product signs.
// Regenerate the Rust literals with: uv run --script scripts/reference_relu.py --format rust
const NONZERO_RELU_FIXTURES: [NonzeroReluFixture; 8] = [
    NonzeroReluFixture {
        mean: [-0.75, 1.1],
        std: [0.8, 1.7],
        cdf: [0.174_250_711_880_542_4, 0.7412030632713038],
        rho: -0.8,
        covariance: -0.09702746076403964,
        joint_activation_probability: 0.03918893688859086,
    },
    NonzeroReluFixture {
        mean: [1.4, -0.35],
        std: [0.6, 1.3],
        cdf: [0.9901846713713547, 0.39387605185723835],
        rho: 0.75,
        covariance: 0.22969598162322754,
        joint_activation_probability: 0.39387143501695365,
    },
    NonzeroReluFixture {
        mean: [-1.25, -0.55],
        std: [1.1, 0.7],
        cdf: [0.12790220398830822, 0.21601744600250372],
        rho: 0.6,
        covariance: 0.022873544351819026,
        joint_activation_probability: 0.07544406642249715,
    },
    NonzeroReluFixture {
        mean: [0.35, 1.25],
        std: [1.7, 0.5],
        cdf: [0.5815585947678864, 0.9937903346742238],
        rho: -0.65,
        covariance: -0.3183978902145745,
        joint_activation_probability: 0.5753761265388645,
    },
    NonzeroReluFixture {
        mean: [-0.4, 0.9],
        std: [1.2, 0.8],
        cdf: [0.3694413401817636, 0.869_705_482_863_191],
        rho: 0.98,
        covariance: 0.3316340030070209,
        joint_activation_probability: 0.3694413401817621,
    },
    NonzeroReluFixture {
        mean: [0.4, -0.9],
        std: [1.2, 0.8],
        cdf: [0.6305586598182364, 0.13029451713680886],
        rho: -0.98,
        covariance: -0.03683090939107107,
        joint_activation_probability: 5.263693173000107e-7,
    },
    NonzeroReluFixture {
        mean: [0.25, -0.45],
        std: [0.9, 1.4],
        cdf: [0.609408524566425, 0.3739428170267853],
        rho: 1.0,
        covariance: 0.3814289914100701,
        joint_activation_probability: 0.37394281702678533,
    },
    NonzeroReluFixture {
        mean: [0.25, -0.45],
        std: [0.9, 1.4],
        cdf: [0.609408524566425, 0.3739428170267853],
        rho: -1.0,
        covariance: -0.18027030895089536,
        joint_activation_probability: 0.0,
    },
];

fn assert_nonzero_relu_fixture(fixture: NonzeroReluFixture, scales: [f64; 2]) {
    let mean_left = fixture.mean[0] * scales[0];
    let mean_right = fixture.mean[1] * scales[1];
    let sigma_left = fixture.std[0] * scales[0];
    let sigma_right = fixture.std[1] * scales[1];
    let covariance_unit = sigma_left * sigma_right;
    let device = Default::default();
    let input = moments_full(
        Tensor::<NdArray<f64>, 2>::from_data(
            TensorData::new(vec![mean_left, mean_right], [1, 2]),
            (&device, DType::F64),
        ),
        Tensor::<NdArray<f64>, 3>::from_data(
            TensorData::new(
                vec![
                    sigma_left * sigma_left,
                    fixture.rho * covariance_unit,
                    fixture.rho * covariance_unit,
                    sigma_right * sigma_right,
                ],
                [1, 2, 2],
            ),
            (&device, DType::F64),
        ),
    );
    let output = propagate_relu_full(&input);
    let mean = output.mean.into_data().to_vec::<f64>().unwrap();
    let cov = output.cov.into_data().to_vec::<f64>().unwrap();
    let (expected_mean_left, expected_variance_left, delta_left) =
        relu_moments_and_omitted_energy(mean_left, sigma_left, fixture.cdf[0]);
    let (expected_mean_right, expected_variance_right, delta_right) =
        relu_moments_and_omitted_energy(mean_right, sigma_right, fixture.cdf[1]);
    assert!(delta_left >= 0.0 && delta_right >= 0.0);

    let mean_floor_left = 4096.0 * f64::EPSILON * (mean_left.abs() + sigma_left);
    let mean_floor_right = 4096.0 * f64::EPSILON * (mean_right.abs() + sigma_right);
    let variance_floor_left =
        4096.0 * f64::EPSILON * (mean_left * mean_left + sigma_left * sigma_left);
    let variance_floor_right =
        4096.0 * f64::EPSILON * (mean_right * mean_right + sigma_right * sigma_right);
    let covariance_floor = 4096.0 * f64::EPSILON * covariance_unit;
    let remainder_bound = fixture.rho.abs().powi(4) * (delta_left * delta_right).sqrt();
    let exact_covariance = fixture.covariance * scales[0] * scales[1];

    assert!((mean[0] - expected_mean_left).abs() <= mean_floor_left);
    assert!((mean[1] - expected_mean_right).abs() <= mean_floor_right);
    assert!((cov[0] - expected_variance_left).abs() <= variance_floor_left);
    assert!((cov[3] - expected_variance_right).abs() <= variance_floor_right);
    assert!(
        (cov[1] - exact_covariance).abs() <= remainder_bound + covariance_floor,
        "rho={}, scales={scales:?}, exact={exact_covariance}, implemented={}, bound={remainder_bound}, floor={covariance_floor}",
        fixture.rho,
        cov[1],
    );
    assert!((cov[1] - cov[2]).abs() <= covariance_floor);
}

#[test]
fn centered_relu_covariance_stays_within_series_remainder() {
    let device = Default::default();
    let pi = std::f64::consts::PI;
    // The exact centered bivariate Gaussian ReLU kernel has a closed form.
    // Its omitted even powers have nonnegative coefficients; their sum at
    // |rho| = 1 bounds the third-order remainder on [-1, 1].
    let max_remainder = (pi - 3.0) / (4.0 * pi);
    for rho in [-1.0f64, -0.99, -0.9, -0.5, 0.0, 0.5, 0.9, 0.99, 1.0] {
        let input = moments_full(
            Tensor::<NdArray<f32>, 2>::zeros([1, 2], &device),
            Tensor::from_data([[[1.0, rho as f32], [rho as f32, 1.0]]], &device),
        );
        let cov = propagate_relu_full(&input)
            .cov
            .into_data()
            .to_vec::<f32>()
            .unwrap();
        let exact = ((1.0 - rho * rho).sqrt() + (pi - rho.acos()) * rho - 1.0) / (2.0 * pi);
        let error = exact - cov[1] as f64;
        assert!(
            (-2e-6..=max_remainder + 2e-6).contains(&error),
            "rho={rho}: covariance={} reference={exact}",
            cov[1]
        );
        assert!((cov[0] as f64 - (0.5 - 1.0 / (2.0 * pi))).abs() < 2e-6);
        assert_eq!(cov[1], cov[2]);
        assert_eq!(cov[0], cov[3]);
        if rho == 1.0 {
            // Identical inputs have identical rectified outputs. Keeping exact
            // diagonals with truncated cross-covariance leaves a spurious
            // positive margin variance: a known approximation limit.
            let margin_var = cov[0] as f64 + cov[3] as f64 - 2.0 * cov[1] as f64;
            assert!((margin_var - 2.0 * max_remainder).abs() < 4e-6);
        }
    }
}

/// The exact pair kernel is independent from the series. At zero mean the third
/// coefficient vanishes, so three orders keep the first two that do not; Parseval
/// gives the remaining marginal energy.
#[test]
fn zero_mean_relu_k3_error_obeys_hermite_remainder() {
    for rho in [-1.0f64, -0.93, -0.5, -0.07, 0.0, 0.21, 0.64, 0.99, 1.0] {
        for (left_exponent, right_exponent) in [(0, 0), (-6, 6), (5, -3), (-6, -6), (6, 6)] {
            let sigma_left = 10.0f64.powi(left_exponent);
            let sigma_right = 10.0f64.powi(right_exponent);
            let sigma_product = sigma_left * sigma_right;
            let device = Default::default();
            let input = moments_full(
                Tensor::<NdArray<f64>, 2>::zeros([1, 2], (&device, DType::F64)),
                Tensor::<NdArray<f64>, 3>::from_data(
                    TensorData::new(
                        vec![
                            sigma_left * sigma_left,
                            rho * sigma_product,
                            rho * sigma_product,
                            sigma_right * sigma_right,
                        ],
                        [1, 2, 2],
                    ),
                    (&device, DType::F64),
                ),
            );
            let implemented = propagate_relu_full(&input)
                .cov
                .into_data()
                .to_vec::<f64>()
                .unwrap()[1];

            let pi = std::f64::consts::PI;
            let exact_centered = sigma_product
                * ((1.0 - rho * rho).sqrt() + (pi - rho.acos()) * rho - 1.0)
                / (2.0 * pi);
            let remaining_marginal_energy = 0.25 - 3.0 / (4.0 * pi);
            let remainder_bound = rho.abs().powi(4) * sigma_product * remaining_marginal_energy;
            // The pair oracle subtracts close terms near rho = 0, and the tensor
            // path obtains rho by two divisions. Scale the floor with the natural
            // covariance unit rather than imposing an absolute tolerance.
            let roundoff_floor = 512.0 * f64::EPSILON * sigma_product;

            assert!(
                (exact_centered - implemented).abs() <= remainder_bound + roundoff_floor,
                "rho={rho}, sigmas=({sigma_left}, {sigma_right}), exact={exact_centered}, \
                 implemented={implemented}, bound={remainder_bound}, floor={roundoff_floor}",
            );
                }
    }
}

#[test]
fn nonzero_mean_covariance_gradient_matches_the_truncated_series() {
    let p = 0.158_655_253_931_457_05; // Phi(-1), independently tabulated.
    let phi_squared = (-1.0f64).exp() / (2.0 * std::f64::consts::PI);
    for rho in [-0.9, 0.0, 0.9] {
        let actual = relu_covariance_correlation_gradient([-1.0, -1.0], [1.0, 1.0], rho);
        // Both off-diagonal input entries change with rho. Differentiate the
        // cubic polynomial, independently of the tensor graph. At rho=-0.9,
        // this derivative is negative; the exact Gaussian covariance is
        // increasing by Price's identity. Autodiff correctness does not remove
        // the approximation error in the derivative.
        let expected = p * p + phi_squared * (rho + 0.5 * rho * rho);
        assert!(
            (actual - expected).abs() <= 4096.0 * f64::EPSILON,
            "rho={rho}, derivative={actual}, series derivative={expected}",
        );
        if rho == -0.9 {
            let exact = 1.452_984_385_414_640_2e-7;
            let derivative_tail_energy = relu_derivative_tail_energy(1.0, -1.0, p);
            let remainder_bound = rho.abs().powi(3) * derivative_tail_energy;
            assert!(
                (actual - exact).abs() <= remainder_bound + 4096.0 * f64::EPSILON,
                "rho={rho}, exact={exact}, derivative={actual}, bound={remainder_bound}",
            );
        }
    }
}

fn assert_composed_k3_moment_gradients(fixture: NonzeroReluFixture, scales: [f64; 2]) {
    // Interior, strictly positive-definite fixtures keep every perturbation
    // coordinate inside the Gaussian model. This validates derivatives of the
    // implemented K3 approximation, not derivatives of exact pair moments.

    let mean_values = [fixture.mean[0] * scales[0], fixture.mean[1] * scales[1]];
    let std = [fixture.std[0] * scales[0], fixture.std[1] * scales[1]];
    let variance = [std[0] * std[0], std[1] * std[1]];
    let q = fixture.rho * std[0] * std[1];
    assert!(q * q < variance[0] * variance[1]);
    let weight_values = [0.7, -1.1];
    let variance_weight = 0.3;
    let (left, right, pair) = k3_pair_oracle(mean_values, variance, q, fixture.cdf);

    let expected_mean_gradient = [
        weight_values[0] * left.mean_mu
            + variance_weight
                * (weight_values[0] * weight_values[0] * left.variance_mu
                    + 2.0 * weight_values[0] * weight_values[1] * pair.covariance_mu[0]),
        weight_values[1] * right.mean_mu
            + variance_weight
                * (weight_values[1] * weight_values[1] * right.variance_mu
                    + 2.0 * weight_values[0] * weight_values[1] * pair.covariance_mu[1]),
    ];
    let expected_variance_gradient = [
        weight_values[0] * left.mean_var
            + variance_weight
                * (weight_values[0] * weight_values[0] * left.variance_var
                    + 2.0 * weight_values[0] * weight_values[1] * pair.covariance_var[0]),
        weight_values[1] * right.mean_var
            + variance_weight
                * (weight_values[1] * weight_values[1] * right.variance_var
                    + 2.0 * weight_values[0] * weight_values[1] * pair.covariance_var[1]),
    ];
    let expected_q_gradient =
        variance_weight * 2.0 * weight_values[0] * weight_values[1] * pair.covariance_q;
    let expected_weight_gradient = [
        left.mean
            + variance_weight
                * (2.0 * weight_values[0] * left.variance
                    + 2.0 * weight_values[1] * pair.covariance),
        right.mean
            + variance_weight
                * (2.0 * weight_values[1] * right.variance
                    + 2.0 * weight_values[0] * pair.covariance),
    ];

    let device = Default::default();
    let mean = Tensor::<Ad, 2>::from_data(
        TensorData::new(mean_values.to_vec(), [1, 2]),
        (&device, DType::F64),
    )
    .require_grad();
    let covariance = Tensor::<Ad, 3>::from_data(
        TensorData::new(vec![variance[0], q, q, variance[1]], [1, 2, 2]),
        (&device, DType::F64),
    )
    .require_grad();
    let weight = Tensor::<Ad, 2>::from_data(
        TensorData::new(weight_values.to_vec(), [2, 1]),
        (&device, DType::F64),
    )
    .require_grad();
    let output = propagate_linear_full(
        &propagate_relu_full(&moments_full(mean.clone(), covariance.clone())),
        weight.clone(),
        None,
    );
    let gradients = (output.mean.sum() + output.cov.sum().mul_scalar(variance_weight)).backward();
    let actual_mean = mean
        .grad(&gradients)
        .unwrap()
        .into_data()
        .to_vec::<f64>()
        .unwrap();
    let actual_covariance = covariance
        .grad(&gradients)
        .unwrap()
        .into_data()
        .to_vec::<f64>()
        .unwrap();
    let actual_weight = weight
        .grad(&gradients)
        .unwrap()
        .into_data()
        .to_vec::<f64>()
        .unwrap();

    let tolerance = 8192.0 * f64::EPSILON;
    for i in 0..2 {
        assert!(
            (actual_mean[i] - expected_mean_gradient[i]).abs()
                <= tolerance * expected_mean_gradient[i].abs().max(1.0),
            "mean gradient {i}: {} vs {}",
            actual_mean[i],
            expected_mean_gradient[i],
        );
        let covariance_index = if i == 0 { 0 } else { 3 };
        assert!(
            (actual_covariance[covariance_index] - expected_variance_gradient[i]).abs()
                <= tolerance * expected_variance_gradient[i].abs().max(1.0),
            "variance gradient {i}: {} vs {}",
            actual_covariance[covariance_index],
            expected_variance_gradient[i],
        );
        assert!(
            (actual_weight[i] - expected_weight_gradient[i]).abs()
                <= tolerance * expected_weight_gradient[i].abs().max(1.0),
            "weight gradient {i}: {} vs {}",
            actual_weight[i],
            expected_weight_gradient[i],
        );
    }
    // The symmetric q coordinate changes both stored off-diagonal entries.
    let actual_q_gradient = actual_covariance[1] + actual_covariance[2];
    assert!(
        (actual_q_gradient - expected_q_gradient).abs()
            <= tolerance * expected_q_gradient.abs().max(1.0),
        "covariance gradient: {actual_q_gradient} vs {expected_q_gradient}",
    );
}

#[test]
fn composed_k3_moment_gradients_match_an_independent_oracle() {
    // Endpoint correlations are excluded: their mathematical derivative is
    // one-sided while the tensor clamp defines the implementation boundary.
    for fixture in NONZERO_RELU_FIXTURES.iter().take(6) {
        for scales in [[1.0, 1.0], [1e-6, 1e6], [1e6, 1e-6]] {
            assert_composed_k3_moment_gradients(*fixture, scales);
        }
    }
}

#[test]
fn nonzero_mean_covariance_gradient_obeys_hermite_remainder() {
    // Exact endpoint derivatives belong to the mathematical extension; the
    // tensor clamp selects its own boundary convention.
    for fixture in NONZERO_RELU_FIXTURES.iter().filter(|f| f.rho.abs() < 1.0) {
        for scales in [[1.0, 1.0], [1e-6, 1e6], [1e6, 1e-6]] {
            let mean = [fixture.mean[0] * scales[0], fixture.mean[1] * scales[1]];
            let std = [fixture.std[0] * scales[0], fixture.std[1] * scales[1]];
            let sigma_product = std[0] * std[1];
            let alpha_left = mean[0] / std[0];
            let alpha_right = mean[1] / std[1];
            let tail_left = relu_derivative_tail_energy(std[0], alpha_left, fixture.cdf[0]);
            let tail_right = relu_derivative_tail_energy(std[1], alpha_right, fixture.cdf[1]);
            assert!(tail_left >= 0.0 && tail_right >= 0.0);

            let actual = relu_covariance_correlation_gradient(mean, std, fixture.rho);
            let exact = sigma_product * fixture.joint_activation_probability;
            let remainder_bound = fixture.rho.abs().powi(3) * (tail_left * tail_right).sqrt();
            let roundoff_floor = 4096.0 * f64::EPSILON * sigma_product;
            assert!(
                (actual - exact).abs() <= remainder_bound + roundoff_floor,
                "rho={}, scales={scales:?}, exact={exact}, derivative={actual}, bound={remainder_bound}, floor={roundoff_floor}",
                fixture.rho,
            );
        }
    }
}

#[test]
fn nonzero_mean_relu_covariance_obeys_hermite_remainder() {
    for fixture in NONZERO_RELU_FIXTURES {
        assert_nonzero_relu_fixture(fixture, [1.0, 1.0]);
    }
}

#[test]
fn nonzero_mean_relu_covariance_preserves_hermite_bound_across_scales() {
    for fixture in NONZERO_RELU_FIXTURES {
        for (left_exponent, right_exponent) in [(-6, 6), (3, -5), (-6, -6), (6, 6), (1, 2)] {
            assert_nonzero_relu_fixture(
                fixture,
                [10.0f64.powi(left_exponent), 10.0f64.powi(right_exponent)],
            );
        }
    }
}

#[test]
fn centered_relu_covariance_gradient_obeys_hermite_remainder() {
    for rho in [-0.998f64, -0.7, -0.2, 0.0, 0.35, 0.8, 0.998] {
        for (left_exponent, right_exponent) in [(0, 0), (-6, 6), (4, -2), (-6, -6), (6, 6)] {
            let sigma_left = 10.0f64.powi(left_exponent);
            let sigma_right = 10.0f64.powi(right_exponent);
            let sigma_product = sigma_left * sigma_right;
            let actual = relu_covariance_correlation_gradient(
                [0.0, 0.0],
                [sigma_left, sigma_right],
                rho,
            );
            let pi = std::f64::consts::PI;
            let exact = sigma_product * (0.25 + rho.asin() / (2.0 * pi));
            let remainder_bound = rho.abs().powi(3) * sigma_product * (0.25 - 1.0 / (2.0 * pi));
            let roundoff_floor = 4096.0 * f64::EPSILON * sigma_product;

            assert!(
                (actual - exact).abs() <= remainder_bound + roundoff_floor,
                "rho={rho}, sigmas=({sigma_left}, {sigma_right}), exact={exact}, \
                 derivative={actual}, bound={remainder_bound}, floor={roundoff_floor}",
            );
        }
    }
}

#[derive(Clone, Copy)]
struct Tail {
    alpha: f64,
    p: f64,
    phi: f64,
    mean: f64,
    var: f64,
}

/// Independent MP90 references evaluated at the exact f32 inputs identified
/// by their IEEE-754 bit patterns.  Regenerate with the pinned reference tool:
/// `uv run --script scripts/reference_relu.py --marginal-bits 0xMEAN_HEX 0xVARIANCE_HEX`.
/// The ordinary, small, large, and subnormal cases complement the normalized
/// tail table below; they deliberately do not re-test those nominal alphas.
#[derive(Clone, Copy)]
struct F32MarginalReference {
    mean_bits: u32,
    variance_bits: u32,
    mean: f64,
    variance: f64,
    d_mean_d_mean: f64,
    d_mean_d_variance: f64,
    d_variance_d_mean: f64,
    d_variance_d_variance: f64,
}
const F32_MARGINAL_REFERENCES: [F32MarginalReference; 9] = [
    // Adjacent representable interior values at the -8, -2, and +8 switches.
    F32MarginalReference {
        mean_bits: 0xc0ff_ffff,
        variance_bits: 0x3f80_0000,
        mean: 7.550_292_075_855_552e-17,
        variance: 1.807_513_647_651_338_6e-17,
        d_mean_d_mean: 6.220_984_665_423_594e-16,
        d_mean_d_variance: 2.526_145_178_228_883e-15,
        d_variance_d_mean: 1.510_058_415_171_109_5e-16,
        d_variance_d_variance: 6.220_984_665_423_59e-16,
    },
    F32MarginalReference {
        mean_bits: 0xc000_0001,
        variance_bits: 0x3f80_0000,
        mean: 0.008_490_697_192_777_04,
        variance: 0.005_696_630_727_019_286,
        d_mean_d_mean: 0.022_750_119_075_732_756,
        d_mean_d_variance: 0.026_995_470_384_146_81,
        d_variance_d_mean: 0.016_595_065_641_210_742,
        d_variance_d_variance: 0.022_291_698_346_516_014,
    },
    F32MarginalReference {
        mean_bits: 0xc000_0000,
        variance_bits: 0x3f80_0000,
        mean: 0.008_490_702_616_829_638,
        variance: 0.005_696_634_683_592_494,
        d_mean_d_mean: 0.022_750_131_948_179_21,
        d_mean_d_variance: 0.026_995_483_256_594_026,
        d_variance_d_mean: 0.016_595_076_023_928_025,
        d_variance_d_variance: 0.022_291_710_707_520_52,
    },
    F32MarginalReference {
        mean_bits: 0xbfff_ffff,
        variance_bits: 0x3f80_0000,
        mean: 0.008_490_705_328_857_088,
        variance: 0.005_696_636_661_880_027,
        d_mean_d_mean: 0.022_750_138_384_404_735,
        d_mean_d_variance: 0.026_995_489_692_819_36,
        d_variance_d_mean: 0.016_595_081_215_288_773,
        d_variance_d_variance: 0.022_291_716_888_024_88,
    },
    F32MarginalReference {
        mean_bits: 0x40ff_ffff,
        variance_bits: 0x3f80_0000,
        mean: 7.999_999_523_162_842,
        variance: 0.999_999_999_999_998_8,
        d_mean_d_mean: 0.999_999_999_999_999_3,
        d_mean_d_variance: 2.526_145_178_228_883e-15,
        d_variance_d_mean: 9.953_574_871_398_42e-15,
        d_variance_d_variance: 0.999_999_999_999_959,
    },
    // Ordinary non-power-of-two variance, then matched small and large scales.
    F32MarginalReference {
        mean_bits: 0xbf9e_064b,
        variance_bits: 0x3ebd_70a4,
        mean: 0.004_768_981_051_853_294,
        variance: 0.001_932_819_200_477_744,
        d_mean_d_mean: 0.021_197_808_459_668_247,
        d_mean_d_variance: 0.041_809_589_768_053_97,
        d_variance_d_mean: 0.009_335_778_209_936_64,
        d_variance_d_variance: 0.020_799_030_176_889_03,
    },
    F32MarginalReference {
        mean_bits: 0xa690_1d7d,
        variance_bits: 0x0da2_4260,
        mean: 8.331_547_039_581_924e-17,
        variance: 6.839_831_563_514_943e-32,
        d_mean_d_mean: 0.158_655_253_437_363_65,
        d_mean_d_variance: 1.209_853_618_206_980_3e14,
        d_variance_d_mean: 1.401_940_666_498_347_4e-16,
        d_variance_d_variance: 0.138_495_348_775_163_96,
    },
    F32MarginalReference {
        mean_bits: 0xd863_5fa9,
        variance_bits: 0x7149_f2ca,
        mean: 8.331_547_447_213_919e13,
        variance: 6.839_831_961_229_732e28,
        d_mean_d_mean: 0.158_655_258_899_752_2,
        d_mean_d_variance: 1.209_853_638_334_576_4e-16,
        d_variance_d_mean: 1.401_940_725_988_125e14,
        d_variance_d_variance: 0.138_495_352_915_814_38,
    },
    // Minimum positive f32 variance: output variance may round below one ULP.
    F32MarginalReference {
        mean_bits: 0,
        variance_bits: 1,
        mean: 1.493_397_393_008_226e-23,
        variance: 4.776_256_548_180_32e-46,
        d_mean_d_mean: 0.5,
        d_mean_d_variance: 5.328_619_958_660_216e21,
        d_variance_d_mean: 1.493_397_393_008_226e-23,
        d_variance_d_variance: 0.340_845_056_908_104_7,
    },
];

// Include both sides of the formula boundary at alpha = -2.
const TAILS: [Tail; 11] = [
    Tail {
        alpha: -1.999,
        p: 0.02280417693265889,
        phi: 0.054099029450649934,
        mean: 0.008513479762264811,
        var: 0.005713251550229037,
    },
    Tail {
        alpha: -2.0,
        p: 0.02275013194817921,
        phi: 0.05399096651318805,
        mean: 0.008490702616829637,
        var: 0.005696634683592494,
    },
    Tail {
        alpha: -2.001,
        p: 0.02269619494564155,
        phi: 0.05388306554860322,
        mean: 0.008467979462374474,
        var: 0.005680061365255032,
    },
    Tail {
        alpha: -2.999,
        p: 0.0013543365337271066,
        phi: 0.004445161697868555,
        mean: 0.0003835064332209618,
        var: 0.0002040536633131203,
    },
    Tail {
        alpha: -3.0,
        p: 1.3498980316300945e-3,
        phi: 4.431848411938007e-3,
        mean: 3.821543170477236e-4,
        var: 2.0328903856488553e-4,
    },
    Tail {
        alpha: -3.001,
        p: 0.001345472825084966,
        phi: 0.004418570580805835,
        mean: 0.0003808066327258519,
        var: 0.00020252710658315648,
    },
    Tail {
        alpha: -4.0,
        p: 3.167124183311992e-5,
        phi: 1.3383022576488535e-4,
        mean: 7.145258432405667e-6,
        var: 3.0901570487791884e-6,
    },
    Tail {
        alpha: -5.0,
        p: 2.866515718791939e-7,
        phi: 1.4867195147342977e-6,
        mean: 5.346165533832815e-8,
        var: 1.9343292329404572e-8,
    },
    Tail {
        alpha: -6.0,
        p: 9.865_876_450_376_98e-10,
        phi: 6.075_882_849_823_285e-9,
        mean: 1.5635697959709664e-10,
        var: 4.844576743067078e-11,
    },
    Tail {
        alpha: -7.0,
        p: 1.279812543885835e-12,
        phi: 9.134720408364593e-12,
        mean: 1.760326011637483e-13,
        var: 4.758433573956583e-14,
    },
    Tail {
        alpha: -7.5,
        p: 3.190891672910896e-14,
        phi: 2.43432053302901e-13,
        mean: 4.115177834583766e-15,
        var: 1.045082969730704e-15,
    },
];

fn assert_relative(actual: f64, expected: f64, relative: f64, label: &str) {
    assert!(expected != 0.0);
    let error = (actual - expected).abs() / expected.abs();
    assert!(
        error <= relative,
        "{label}: {actual:e} vs {expected:e}, relative error {error:e}"
    );
}
fn assert_f32_reference(actual: f32, expected: f64, relative: f64, label: &str) {
    let absolute = (actual as f64 - expected).abs();
    let subnormal_allowance = 4.0 * f32::from_bits(1) as f64;
    let allowed = (relative * expected.abs()).max(subnormal_allowance);
    assert!(
        absolute <= allowed,
        "{label}: {actual:e} vs {expected:e}, absolute error {absolute:e}, allowed {allowed:e}"
    );
}

fn five_point(f: impl Fn(f64) -> f64, x: f64, h: f64) -> f64 {
    (-f(x + 2.0 * h) + 8.0 * f(x + h) - 8.0 * f(x - h) + f(x - 2.0 * h)) / (12.0 * h)
}

#[test]
fn f64_negative_relu_tail_moments_and_gradients_match_erfc_references() {
    for tail in TAILS {
        for var in [1e-24f64, 1.0, 1e24] {
            let sigma = var.sqrt();
            let mean = tail.alpha * sigma;
            let (actual_mean, actual_var) = reference_output(mean, var);
            assert_relative(actual_mean, sigma * tail.mean, 1e-10, "f64 mean");
            assert_relative(actual_var, var * tail.var, 1e-10, "f64 variance");

            let h_mu = sigma * 1e-4;
            let h_var = var * 1e-4;
            let dmdmu = five_point(|mu| reference_output(mu, var).0, mean, h_mu);
            let dmdvar = five_point(|v| reference_output(mean, v).0, var, h_var);
            let dvdmu = five_point(|mu| reference_output(mu, var).1, mean, h_mu);
            let dvdvar = five_point(|v| reference_output(mean, v).1, var, h_var);
            assert_relative(dmdmu, tail.p, 2e-5, "f64 dM/dmu");
            assert_relative(dmdvar, tail.phi / (2.0 * sigma), 2e-5, "f64 dM/dv");
            assert_relative(
                dvdmu,
                2.0 * sigma * tail.mean * (1.0 - tail.p),
                3e-5,
                "f64 dV/dmu",
            );
            assert_relative(dvdvar, tail.p - tail.mean * tail.phi, 3e-5, "f64 dV/dv");
        }
    }
}

fn values(t: Tensor<Nd, 2>) -> Vec<f32> {
    t.into_data().to_vec::<f32>().unwrap()
}

fn expected(tail: Tail, variance: f32) -> (f64, f64, f64) {
    let sigma = (variance as f64).sqrt();
    (
        sigma * tail.mean,
        variance as f64 * tail.var,
        variance as f64 * tail.p,
    )
}

#[test]
fn ndarray_f32_tail_values_match_references_for_diagonal_full_leaky_and_cross_gate() {
    let device = Default::default();
    for tail in TAILS {
        for variance in [1e-24f32, 1.0, 1e24] {
            let sigma = variance.sqrt();
            let mean = tail.alpha as f32 * sigma;
            let input = moments(
                Tensor::from_data([[mean]], &device),
                Tensor::from_data([[variance]], &device),
            );
            let diagonal = propagate_relu(&input);
            let leaky = propagate_leaky_relu(&input, 0.0);
            let full = propagate_relu_full(&from_diagonal(
                input.mean.clone(),
                input.var.clone(),
            ));
            let (expect_mean, expect_var, expect_gate) = expected(tail, variance);
            let full_var = values(full.variance())[0];
            let full_mean = values(full.mean)[0];
            for (name, mean_value, var_value) in [
                (
                    "diagonal",
                    values(diagonal.mean)[0],
                    values(diagonal.var)[0],
                ),
                ("leaky0", values(leaky.mean)[0], values(leaky.var)[0]),
                ("full", full_mean, full_var),
            ] {
                assert_relative(mean_value as f64, expect_mean, 2e-4, name);
                assert_relative(var_value as f64, expect_var, 2e-4, name);
            }
            let cross = Tensor::<Nd, 3>::from_data([[[variance]]], &device);
            let gated = propagate_relu_cross_covariance(cross, &input)
                .into_data()
                .to_vec::<f32>()
                .unwrap()[0];
            assert_relative(gated as f64, expect_gate, 2e-4, "cross gate");
        }
    }
}

fn gradients(mode: &str, mean: f32, variance: f32, mean_loss: bool) -> (f32, f32) {
    let device = Default::default();
    let mean = Tensor::<Ad, 2>::from_data([[mean]], &device).require_grad();
    let var = Tensor::<Ad, 2>::from_data([[variance]], &device).require_grad();
    let loss = match mode {
        "diagonal" => {
            let out = propagate_relu(&moments(mean.clone(), var.clone()));
            if mean_loss {
                out.mean.sum()
            } else {
                out.var.sum()
            }
        }
        "full" => {
            let out =
                propagate_relu_full(&from_diagonal(mean.clone(), var.clone()));
            if mean_loss {
                out.mean.sum()
            } else {
                out.variance().sum()
            }
        }
        "leaky0" => {
            let out = propagate_leaky_relu(&moments(mean.clone(), var.clone()), 0.0);
            if mean_loss {
                out.mean.sum()
            } else {
                out.var.sum()
            }
        }
        _ => unreachable!(),
    };
    let grads = loss.backward();
    (
        mean.grad(&grads)
            .unwrap()
            .into_data()
            .to_vec::<f32>()
            .unwrap()[0],
        var.grad(&grads)
            .unwrap()
            .into_data()
            .to_vec::<f32>()
            .unwrap()[0],
    )
}

fn f32_outputs(mode: &str, mean: f32, variance: f32) -> (f32, f32) {
    let device = Default::default();
    let input = moments(
        Tensor::<Nd, 2>::from_data([[mean]], &device),
        Tensor::<Nd, 2>::from_data([[variance]], &device),
    );
    match mode {
        "diagonal" => {
            let out = propagate_relu(&input);
            (values(out.mean)[0], values(out.var)[0])
        }
        "full" => {
            let out = propagate_relu_full(&from_diagonal(input.mean, input.var));
            let variance = out.variance();
            (values(out.mean)[0], values(variance)[0])
        }
        "leaky0" => {
            let out = propagate_leaky_relu(&input, 0.0);
            (values(out.mean)[0], values(out.var)[0])
        }
        _ => unreachable!(),
    }
}

fn scaled_variance_gradients(mode: &str, mean_value: f32, variance_value: f32) -> (f64, f64) {
    let device = Default::default();
    let mean = Tensor::<Ad, 2>::from_data([[mean_value]], &device).require_grad();
    let variance = Tensor::<Ad, 2>::from_data([[variance_value]], &device).require_grad();
    let loss_scale = 4_294_967_296.0f64;
    let loss = match mode {
        "diagonal" => propagate_relu(&moments(mean.clone(), variance.clone()))
            .var
            .sum(),
        "full" => {
            propagate_relu_full(&from_diagonal(mean.clone(), variance.clone()))
                .variance()
                .sum()
        }
        "leaky0" => propagate_leaky_relu(&moments(mean.clone(), variance.clone()), 0.0)
            .var
            .sum(),
        _ => unreachable!(),
    }
    .mul_scalar(loss_scale);
    let gradients = loss.backward();
    let dvariance_dmean = mean
        .grad(&gradients)
        .unwrap()
        .into_data()
        .to_vec::<f32>()
        .unwrap()[0] as f64
        / loss_scale;
    let dvariance_dvariance = variance
        .grad(&gradients)
        .unwrap()
        .into_data()
        .to_vec::<f32>()
        .unwrap()[0] as f64
        / loss_scale;
    (dvariance_dmean, dvariance_dvariance)
}

fn assert_f32_marginal_reference(reference: F32MarginalReference) {
    let mean = f32::from_bits(reference.mean_bits);
    let variance = f32::from_bits(reference.variance_bits);
    let sigma = variance.sqrt() as f64;
    let cancellation_scale = mean.abs() as f64 + sigma;
    for mode in ["diagonal", "full", "leaky0"] {
        let (actual_mean, actual_variance) = f32_outputs(mode, mean, variance);
        assert_f32_reference(actual_mean, reference.mean, 3e-5, "f32 ReLU mean");
        assert_f32_reference(
            actual_variance,
            reference.variance,
            3e-5,
            "f32 ReLU variance",
        );

        let mean_derivatives = gradients(mode, mean, variance, true);
        assert_f32_reference(
            mean_derivatives.0,
            reference.d_mean_d_mean,
            4e-4,
            "f32 dmean/dmean",
        );
        assert_f32_reference(
            mean_derivatives.1,
            reference.d_mean_d_variance,
            4e-4,
            "f32 dmean/dvariance",
        );

        if variance.is_subnormal() {
            continue;
        }

        let variance_derivatives = gradients(mode, mean, variance, false);
        // In the positive saturated tail, the exact dV/dmu is tiny but
        // the f32 CDF may round to one before its cancellation.  Bound
        // that loss on the input scale, rather than relative to the tiny
        // derivative itself.
        let dvariance_dmean_error =
            (variance_derivatives.0 as f64 - reference.d_variance_d_mean).abs();
        let relative_allowance = 4e-4 * reference.d_variance_d_mean.abs();
        let positive_saturated = mean > 0.0 && mean as f64 / sigma >= 7.99;
        let dvariance_dmean_allowance = if positive_saturated {
            relative_allowance.max(128.0 * f32::EPSILON as f64 * cancellation_scale)
        } else {
            relative_allowance.max(4.0 * f32::from_bits(1) as f64)
        };
        assert!(
            dvariance_dmean_error <= dvariance_dmean_allowance,
            "f32 dvariance/dmean: {} vs {}, absolute error {}, allowed {}",
            variance_derivatives.0,
            reference.d_variance_d_mean,
            dvariance_dmean_error,
            dvariance_dmean_allowance,
        );
        assert_f32_reference(
            variance_derivatives.1,
            reference.d_variance_d_variance,
            4e-4,
            "f32 dvariance/dvariance",
        );
    }
}

#[test]
fn ndarray_f32_tail_gradients_match_gaussian_identities() {
    for tail in TAILS {
        for variance in [1e-24f32, 1.0, 1e24] {
            let sigma = (variance as f64).sqrt();
            let mean = tail.alpha as f32 * variance.sqrt();
            let expected_mean = sigma * tail.mean;
            let expected = [
                [tail.p, tail.phi / (2.0 * sigma)],
                [
                    2.0 * expected_mean * (1.0 - tail.p),
                    tail.p - tail.mean * tail.phi,
                ],
            ];
            for mode in ["diagonal", "full", "leaky0"] {
                for (mean_loss, derivatives) in [true, false].into_iter().zip(expected) {
                    let (dmu, dvar) = gradients(mode, mean, variance, mean_loss);
                    assert_relative(dmu as f64, derivatives[0], 2e-4, "f32 d/dmu");
                    assert_relative(dvar as f64, derivatives[1], 2e-4, "f32 d/dvar");
                }
            }
        }
    }
}

#[test]
fn ndarray_f32_marginals_match_frozen_references_at_actual_input_bits() {
    for reference in F32_MARGINAL_REFERENCES {
        assert_f32_marginal_reference(reference);
    }
}

#[test]
fn ndarray_f32_cutoffs_and_deterministic_inputs_follow_documented_conventions() {
    let cutoff_cases = [
        (0xc100_0001, 0.0, 0.0),
        (0xc100_0000, 0.0, 0.0),
        (0x4100_0000, 8.0, 1.0),
        (0x4100_0001, f32::from_bits(0x4100_0001), 1.0),
    ];
    for (mean_bits, expected_mean, expected_variance) in cutoff_cases {
        for mode in ["diagonal", "full", "leaky0"] {
            let (actual_mean, actual_variance) =
                f32_outputs(mode, f32::from_bits(mean_bits), 1.0);
            assert_eq!(
                actual_mean, expected_mean,
                "{mode} mean bits {mean_bits:#010x}"
            );
            assert_eq!(
                actual_variance, expected_variance,
                "{mode} variance bits {mean_bits:#010x}"
            );
        }
    }

    for (mean, expected_mean) in [(-1.0, 0.0), (0.0, 0.0), (1.0, 1.0)] {
        for mode in ["diagonal", "full", "leaky0"] {
            let (actual_mean, actual_variance) = f32_outputs(mode, mean, 0.0);
            assert_eq!(
                actual_mean, expected_mean,
                "{mode} deterministic mean {mean}"
            );
            assert_eq!(actual_variance, 0.0, "{mode} deterministic variance {mean}");
        }
    }
}

#[test]
fn ndarray_f32_scaled_subnormal_variance_adjoints_match_frozen_reference() {
    let reference = F32_MARGINAL_REFERENCES
        .into_iter()
        .find(|reference| f32::from_bits(reference.variance_bits).is_subnormal())
        .expect("the frozen references include a subnormal variance");
    // Mathematically, dV/dalpha is below f32 range here even though the
    // final dV/dmean is representable. Scale only this variance loss and
    // divide extracted gradients on the host; mean-loss gradients remain
    // deliberately unscaled because dM/dvariance is already very large.
    for mode in ["diagonal", "full", "leaky0"] {
        let (dvariance_dmean, dvariance_dvariance) = scaled_variance_gradients(
            mode,
            f32::from_bits(reference.mean_bits),
            f32::from_bits(reference.variance_bits),
        );
        assert_relative(
            dvariance_dmean,
            reference.d_variance_d_mean,
            4e-4,
            "scaled f32 dvariance/dmean",
        );
        assert_relative(
            dvariance_dvariance,
            reference.d_variance_d_variance,
            4e-4,
            "scaled f32 dvariance/dvariance",
        );
    }
}

#[test]
fn ndarray_f64_tail_values_and_gradients_match_erfc_references() {
    type Ad64 = Autodiff<NdArray<f64>>;
    let device = Default::default();
    for tail in TAILS {
        for mean_loss in [true, false] {
            let mean = Tensor::<Ad64, 2>::from_data([[tail.alpha]], (&device, DType::F64))
                .require_grad();
            let var =
                Tensor::<Ad64, 2>::from_data([[1.0]], (&device, DType::F64)).require_grad();
            let full = from_diagonal(mean.clone(), var.clone());
            assert_eq!(full.cov.dtype(), DType::F64);
            let full_out = propagate_relu_full(&full);
            let full_var = full_out.variance();
            let out = propagate_relu(&moments(mean.clone(), var.clone()));
            let scalar = |t: Tensor<Ad64, 2>| t.into_data().to_vec::<f64>().unwrap()[0];
            assert_relative(
                scalar(full_out.mean),
                tail.mean,
                1e-11,
                "Burn full f64 mean",
            );
            assert_relative(scalar(full_var), tail.var, 1e-11, "Burn full f64 variance");
            assert_relative(scalar(out.mean.clone()), tail.mean, 1e-11, "Burn f64 mean");
            assert_relative(
                scalar(out.var.clone()),
                tail.var,
                1e-11,
                "Burn f64 variance",
            );
            let (loss, expected) = if mean_loss {
                (out.mean.sum(), [tail.p, tail.phi / 2.0])
            } else {
                (
                    out.var.sum(),
                    [
                        2.0 * tail.mean * (1.0 - tail.p),
                        tail.p - tail.mean * tail.phi,
                    ],
                )
            };
            let gradients = loss.backward();
            let dmu = mean
                .grad(&gradients)
                .unwrap()
                .into_data()
                .to_vec::<f64>()
                .unwrap()[0];
            let dvar = var
                .grad(&gradients)
                .unwrap()
                .into_data()
                .to_vec::<f64>()
                .unwrap()[0];
            assert_relative(dmu, expected[0], 1e-10, "Burn f64 d/dmu");
            assert_relative(dvar, expected[1], 1e-10, "Burn f64 d/dvar");
        }
    }
}

#[test]
#[should_panic(expected = "same dtype")]
fn moments_rejects_mixed_dynamic_float_dtypes() {
    let device = Device::<Nd>::default();
    let _ = moments(
        Tensor::<Nd, 2>::zeros([1, 1], (&device, DType::F64)),
        Tensor::<Nd, 2>::ones([1, 1], (&device, DType::F32)),
    );
}

#[test]
#[should_panic(expected = "same dtype")]
fn full_moments_rejects_mixed_dynamic_float_dtypes() {
    let device = Device::<Nd>::default();
    let _ = moments_full(
        Tensor::<Nd, 2>::zeros([1, 1], (&device, DType::F64)),
        Tensor::<Nd, 3>::ones([1, 1, 1], (&device, DType::F32)),
    );
}

#[test]
#[should_panic(expected = "same dtype")]
fn full_moments_from_diagonal_rejects_mixed_dynamic_float_dtypes() {
    let device = Device::<Nd>::default();
    let _ = from_diagonal(
        Tensor::<Nd, 2>::zeros([1, 1], (&device, DType::F64)),
        Tensor::<Nd, 2>::ones([1, 1], (&device, DType::F32)),
    );
}

#[test]
#[should_panic(expected = "same dtype")]
fn cauchy_rejects_mixed_dynamic_float_dtypes() {
    let device = Device::<Nd>::default();
    let _ = cauchy(
        Tensor::<Nd, 2>::zeros([1, 1], (&device, DType::F64)),
        Tensor::<Nd, 2>::ones([1, 1], (&device, DType::F32)),
    );
}

#[test]
fn diagonal_gaussian_f64_affine_relu_preserves_dtype_and_moments() {
    let device = Device::<Nd>::default();
    let input = moments(
        Tensor::<Nd, 2>::zeros([1, 1], (&device, DType::F64)),
        Tensor::<Nd, 2>::full([1, 1], 0.25, (&device, DType::F64)),
    );
    let output = propagate_relu(&propagate_linear(
        &input,
        Tensor::<Nd, 2>::full([1, 1], 2.0, (&device, DType::F64)),
        None,
    ));
    let expected_mean = 1.0 / (2.0 * std::f64::consts::PI).sqrt();
    let expected_var = 0.5 - 1.0 / (2.0 * std::f64::consts::PI);
    assert_eq!(output.mean.dims(), [1, 1]);
    assert_eq!(output.var.dims(), [1, 1]);
    assert_eq!(output.mean.dtype(), DType::F64);
    assert_eq!(output.var.dtype(), DType::F64);
    let mean = output.mean.into_data().to_vec::<f64>().unwrap()[0];
    let var = output.var.into_data().to_vec::<f64>().unwrap()[0];
    assert!(
        (mean - expected_mean).abs() < 1e-12,
        "{mean} != {expected_mean}"
    );
    assert!(
        (var - expected_var).abs() < 1e-12,
        "{var} != {expected_var}"
    );
}

#[test]
fn full_gaussian_f64_affine_relu_preserves_dtype_and_moments() {
    let device = Device::<Nd>::default();
    let input = from_diagonal(
        Tensor::<Nd, 2>::zeros([1, 1], (&device, DType::F64)),
        Tensor::<Nd, 2>::full([1, 1], 0.25, (&device, DType::F64)),
    );
    let output = propagate_relu_full(&propagate_linear_full(
        &input,
        Tensor::<Nd, 2>::full([1, 1], 2.0, (&device, DType::F64)),
        None,
    ));
    let expected_mean = 1.0 / (2.0 * std::f64::consts::PI).sqrt();
    let expected_var = 0.5 - 1.0 / (2.0 * std::f64::consts::PI);
    assert_eq!(output.mean.dims(), [1, 1]);
    assert_eq!(output.cov.dims(), [1, 1, 1]);
    assert_eq!(output.mean.dtype(), DType::F64);
    assert_eq!(output.cov.dtype(), DType::F64);
    let mean = output.mean.into_data().to_vec::<f64>().unwrap()[0];
    let cov = output.cov.into_data().to_vec::<f64>().unwrap()[0];
    assert!(
        (mean - expected_mean).abs() < 1e-12,
        "{mean} != {expected_mean}"
    );
    assert!(
        (cov - expected_var).abs() < 1e-12,
        "{cov} != {expected_var}"
    );
}

#[test]
fn cauchy_f64_affine_preserves_dtype_parameters_and_zero_mass_width() {
    let device = Device::<Nd>::default();
    let output = propagate_linear_cauchy(
        &cauchy(
            Tensor::<Nd, 2>::full([1, 1], 1.0, (&device, DType::F64)),
            Tensor::<Nd, 2>::full([1, 1], 0.25, (&device, DType::F64)),
        ),
        Tensor::<Nd, 2>::full([1, 1], 2.0, (&device, DType::F64)),
        Some(Tensor::<Nd, 1>::full([1], 0.5, (&device, DType::F64))),
    );
    assert_eq!(output.location.dims(), [1, 1]);
    assert_eq!(output.scale.dims(), [1, 1]);
    assert_eq!(output.location.dtype(), DType::F64);
    assert_eq!(output.scale.dtype(), DType::F64);
    let width = interval_halfwidth(&output, 0.0)
        .into_data()
        .to_vec::<f64>()
        .unwrap()[0];
    assert_eq!(width, 0.0);
    let location = output.location.into_data().to_vec::<f64>().unwrap()[0];
    let scale = output.scale.into_data().to_vec::<f64>().unwrap()[0];
    assert_eq!(location, 2.5);
    assert_eq!(scale, 0.5);
}

#[test]
#[should_panic(expected = "bias shape must match output width")]
fn linear_rejects_broadcastable_scalar_bias() {
    let device = Device::<Nd>::default();
    let input = moments(
        Tensor::<Nd, 2>::zeros([1, 2], (&device, DType::F32)),
        Tensor::<Nd, 2>::ones([1, 2], (&device, DType::F32)),
    );
    let _ = propagate_linear(
        &input,
        Tensor::<Nd, 2>::ones([2, 3], (&device, DType::F32)),
        Some(Tensor::<Nd, 1>::zeros([1], (&device, DType::F32))),
    );
}

#[test]
#[should_panic(expected = "residual shapes must match")]
fn residual_add_rejects_batch_broadcasting() {
    let device = Device::<Nd>::default();
    let skip = moments(
        Tensor::<Nd, 2>::zeros([1, 2], (&device, DType::F32)),
        Tensor::<Nd, 2>::ones([1, 2], (&device, DType::F32)),
    );
    let branch = moments(
        Tensor::<Nd, 2>::zeros([3, 2], (&device, DType::F32)),
        Tensor::<Nd, 2>::ones([3, 2], (&device, DType::F32)),
    );
    let _ = propagate_residual_add(&skip, &branch);
}

#[test]
#[should_panic(expected = "representable")]
fn leaky_relu_rejects_unrepresentable_variance_coefficients() {
    let device = Device::<Nd>::default();
    let input = moments(
        Tensor::<Nd, 2>::zeros([1, 1], (&device, DType::F32)),
        Tensor::<Nd, 2>::ones([1, 1], (&device, DType::F32)),
    );
    // The slope fits in f32, but its square does not.
    let _ = propagate_leaky_relu(&input, 1e20);
}

#[test]
#[should_panic(expected = "representable")]
fn leaky_relu_rejects_underflowing_f32_slope_before_zeroing() {
    let device = Device::<Nd>::default();
    // Although this final product is representable, Burn would narrow the
    // scalar slope to zero before multiplication without the contract check.
    let input = moments(
        Tensor::<Nd, 2>::full([1, 1], -f32::MAX, (&device, DType::F32)),
        Tensor::<Nd, 2>::zeros([1, 1], (&device, DType::F32)),
    );
    let _ = propagate_leaky_relu(&input, 1e-50);
}

#[test]
#[should_panic(expected = "representable")]
fn leaky_relu_rejects_f64_square_that_underflows_before_dtype_conversion() {
    let device = Device::<Nd>::default();
    let input = moments(
        Tensor::<Nd, 2>::zeros([1, 1], (&device, DType::F64)),
        Tensor::<Nd, 2>::ones([1, 1], (&device, DType::F64)),
    );
    let _ = propagate_leaky_relu(&input, 1e-200);
}

#[test]
fn leaky_relu_uses_f64_coefficients_beyond_f32_range() {
    let device = Device::<Nd>::default();
    let input = moments(
        Tensor::<Nd, 2>::full([1, 1], -2.0, (&device, DType::F64)),
        Tensor::<Nd, 2>::zeros([1, 1], (&device, DType::F64)),
    );
    let output = propagate_leaky_relu(&input, 1e20);
    assert_eq!(
        output.mean.into_data().to_vec::<f64>().unwrap(),
        vec![-2e20]
    );
    assert_eq!(
        output.var.into_data().to_vec::<f64>().unwrap(),
        vec![0.0]
    );
}

#[test]
#[should_panic(expected = "representable")]
fn cauchy_interval_rejects_underflowing_f32_coefficient_before_zeroing() {
    let device = Device::<Nd>::default();
    // `f32::MAX * tan(pi * 1e-50 / 2)` is representable, but the scalar
    // coefficient alone narrows to zero on an F32 tensor.
    let cauchy = cauchy(
        Tensor::<Nd, 2>::zeros([1, 1], (&device, DType::F32)),
        Tensor::<Nd, 2>::full([1, 1], f32::MAX, (&device, DType::F32)),
    );
    let _ = interval_halfwidth(&cauchy, 1e-50);
}

#[test]
#[should_panic(expected = "representable")]
fn cauchy_interval_rejects_f16_factor_that_rounds_to_zero_after_staged_cast() {
    // The f64 value is just above the F16 halfway point, but Burn's f64 ->
    // F32 -> F16 scalar conversion loses the increment before ties-to-even.
    let coefficient = 2.0_f64.powi(-25) + 2.0_f64.powi(-50);
    let p = 2.0 * coefficient.atan() / core::f64::consts::PI;
    accept(check_interval::<Burn<Nd>>(Format::F16, Real::F64(p)));
}

#[test]
fn cauchy_interval_allows_nonzero_f32_subnormal_coefficient() {
    let device = Device::<Nd>::default();
    // Two minimum subnormals are safely on the nonzero side of the
    // ties-to-even boundary after evaluating the inverse Cauchy formula.
    let expected = f32::from_bits(2);
    let p = (2.0 / core::f64::consts::PI) * (expected as f64).atan();
    assert_eq!(((core::f64::consts::PI * p / 2.0).tan() as f32), expected);
    let cauchy = cauchy(
        Tensor::<Nd, 2>::zeros([1, 1], (&device, DType::F32)),
        Tensor::<Nd, 2>::ones([1, 1], (&device, DType::F32)),
    );
    assert_eq!(
        interval_halfwidth(&cauchy, p)
            .into_data()
            .to_vec::<f32>()
            .unwrap(),
        vec![expected]
    );
}

#[test]
#[should_panic(expected = "weight mean and variance shapes must match")]
fn linear_bayes_rejects_broadcastable_weight_variance() {
    let device = Device::<Nd>::default();
    let input = moments(
        Tensor::<Nd, 2>::zeros([1, 2], (&device, DType::F32)),
        Tensor::<Nd, 2>::ones([1, 2], (&device, DType::F32)),
    );
    let _ = propagate_linear_bayes(
        &input,
        Tensor::<Nd, 2>::zeros([2, 3], (&device, DType::F32)),
        Tensor::<Nd, 2>::zeros([2, 1], (&device, DType::F32)),
        None,
    );
}

#[test]
#[should_panic(expected = "bias mean and variance shapes must match")]
fn linear_bayes_rejects_broadcastable_bias_variance() {
    let device = Device::<Nd>::default();
    let input = moments(
        Tensor::<Nd, 2>::zeros([1, 2], (&device, DType::F32)),
        Tensor::<Nd, 2>::ones([1, 2], (&device, DType::F32)),
    );
    let _ = propagate_linear_bayes(
        &input,
        Tensor::<Nd, 2>::zeros([2, 2], (&device, DType::F32)),
        Tensor::<Nd, 2>::zeros([2, 2], (&device, DType::F32)),
        Some((
            Tensor::<Nd, 1>::zeros([2], (&device, DType::F32)),
            Tensor::<Nd, 1>::zeros([1], (&device, DType::F32)),
        )),
    );
}

#[test]
#[should_panic(expected = "bias shapes must match output width")]
fn linear_bayes_rejects_bias_with_wrong_output_width() {
    let device = Device::<Nd>::default();
    let input = moments(
        Tensor::<Nd, 2>::zeros([1, 2], (&device, DType::F32)),
        Tensor::<Nd, 2>::ones([1, 2], (&device, DType::F32)),
    );
    let _ = propagate_linear_bayes(
        &input,
        Tensor::<Nd, 2>::zeros([2, 2], (&device, DType::F32)),
        Tensor::<Nd, 2>::zeros([2, 2], (&device, DType::F32)),
        Some((
            Tensor::<Nd, 1>::zeros([1], (&device, DType::F32)),
            Tensor::<Nd, 1>::zeros([1], (&device, DType::F32)),
        )),
    );
}

#[test]
#[should_panic(expected = "convolution mean and variance shapes must match")]
fn conv2d_rejects_batch_broadcasting() {
    let device = Device::<Nd>::default();
    let options = ConvOptions {
        stride: (1, 1),
        padding: (0, 0),
        dilation: (1, 1),
        groups: 1,
    };
    let _ = propagate_conv2d(
        Tensor::<Nd, 4>::zeros([2, 1, 3, 3], (&device, DType::F32)),
        Tensor::<Nd, 4>::ones([1, 1, 3, 3], (&device, DType::F32)),
        Tensor::<Nd, 4>::ones([1, 1, 1, 1], (&device, DType::F32)),
        None,
        options,
    );
}

const BATCH: usize = 2;

#[derive(Clone, Debug)]
struct AffineCase {
    d_in: usize,
    d_out: usize,
    mean: Vec<f32>,
    cov: Vec<f32>,
    weight: Vec<f32>,
    bias: Vec<f32>,
}

#[derive(Clone, Debug)]
struct CrossCase {
    d_left: usize,
    d_in: usize,
    d_hidden: usize,
    d_out: usize,
    cross: Vec<f32>,
    first: Vec<f32>,
    second: Vec<f32>,
}

#[derive(Clone, Debug)]
struct ReluCase {
    d_left: usize,
    cross: Vec<f32>,
    mean: Vec<f32>,
    var: Vec<f32>,
}

/// Independent draws for the properties below.
struct Draws(u64);

impl Draws {
    fn next(&mut self) -> f64 {
        self.0 = self.0.wrapping_mul(6364136223846793005).wrapping_add(1442695040888963407);
        (self.0 >> 11) as f64 / (1u64 << 53) as f64
    }
    fn size(&mut self, low: usize, high: usize) -> usize {
        low + (self.next() * (high - low) as f64) as usize
    }
    fn within(&mut self, low: f32, high: f32) -> f32 {
        (low as f64 + self.next() * (high - low) as f64) as f32
    }
    fn list(&mut self, count: usize, low: f32, high: f32) -> Vec<f32> {
        (0..count).map(|_| self.within(low, high)).collect()
    }
}

/// PSD covariances are formed as `L L^T`. The first two features share a forced
/// signed latent component, so the expected covariance always has a cross term.
fn full_affine_case(draws: &mut Draws) -> AffineCase {
    let d_in = draws.size(3, 5);
    let mut d_out = draws.size(1, 5);
    while d_out == d_in {
        d_out = draws.size(1, 5);
    }
    let mean = draws.list(BATCH * d_in, -2.0, 2.0);
    let mut cov = vec![0.0; BATCH * d_in * d_in];
    for (batch, sign) in [-1.0, 1.0].into_iter().enumerate() {
        let mut factor = draws.list(d_in * 2, -1.5, 1.5);
        factor[0] = draws.within(0.3, 1.5);
        factor[1] = 0.0;
        factor[2] = sign * draws.within(0.3, 1.5);
        factor[3] = 0.0;
        for i in 0..d_in {
            for j in 0..d_in {
                cov[(batch * d_in + i) * d_in + j] =
                    (0..2).map(|k| factor[i * 2 + k] * factor[j * 2 + k]).sum();
            }
        }
    }
    let weight = draws.list(d_in * d_out, -2.0, 2.0);
    let bias = draws.list(d_out, -2.0, 2.0);
    AffineCase { d_in, d_out, mean, cov, weight, bias }
}

/// Two variables driven by the same two latent standard normals, with a signed
/// first entry that is not zero.
fn latent_pair(draws: &mut Draws, d_left: usize, d_right: usize, sign: f32) -> (Vec<f32>, Vec<f32>) {
    let mut left = draws.list(d_left * 2, -1.5, 1.5);
    let mut right = draws.list(d_right * 2, -1.5, 1.5);
    left[0] = draws.within(0.3, 1.5);
    left[1] = 0.0;
    right[0] = sign * draws.within(0.3, 1.5);
    right[1] = 0.0;
    (left, right)
}

fn cross_case(draws: &mut Draws) -> CrossCase {
    let (d_left, d_in) = (draws.size(2, 5), draws.size(2, 5));
    let (d_hidden, d_out) = (draws.size(1, 5), draws.size(1, 5));
    let mut cross = vec![0.0; BATCH * d_left * d_in];
    for (batch, sign) in [-1.0, 1.0].into_iter().enumerate() {
        let (left, right) = latent_pair(draws, d_left, d_in, sign);
        for i in 0..d_left {
            for j in 0..d_in {
                cross[(batch * d_left + i) * d_in + j] =
                    left[i * 2] * right[j * 2] + left[i * 2 + 1] * right[j * 2 + 1];
            }
        }
    }
    let first = draws.list(d_in * d_hidden, -2.0, 2.0);
    let second = draws.list(d_hidden * d_out, -2.0, 2.0);
    CrossCase { d_left, d_in, d_hidden, d_out, cross, first, second }
}

/// `cross = L R^T` and `var = diag(R R^T)` describe one valid joint Gaussian per
/// batch.
fn relu_case(draws: &mut Draws) -> ReluCase {
    let d_left = draws.size(2, 5);
    let mean = draws.list(BATCH * 4, -3.0, 3.0);
    let mut cross = vec![0.0; BATCH * d_left * 4];
    let mut var = vec![0.0; BATCH * 4];
    for (batch, sign) in [-1.0, 1.0].into_iter().enumerate() {
        let (left, right) = latent_pair(draws, d_left, 4, sign);
        for i in 0..d_left {
            for j in 0..4 {
                cross[(batch * d_left + i) * 4 + j] =
                    left[i * 2] * right[j * 2] + left[i * 2 + 1] * right[j * 2 + 1];
            }
        }
        for j in 0..4 {
            var[batch * 4 + j] = right[j * 2].powi(2) + right[j * 2 + 1].powi(2);
        }
    }
    ReluCase { d_left, cross, mean, var }
}

/// This covers several f32 tensor operations and the host-side dot-product
/// accumulation at the small (at most four-feature) dimensions below.
fn f32_roundoff_bound(summed_magnitude: f64) -> f64 {
    64.0 * f32::EPSILON as f64 * summed_magnitude
}

/// The scale-invariance check evaluates a CDF after independently rounded
/// mean, variance, and cross-covariance rescalings. Its output cannot exceed
/// the supplied cross covariance in magnitude, so that covariance supplies a
/// meaningful absolute scale even when a CDF tail rounds to zero.
fn relu_scale_equivariance_bound(expected: f64, scaled_cross_covariance: f64) -> f64 {
    128.0 * f32::EPSILON as f64 * (expected.abs() + scaled_cross_covariance.abs())
}

/// The full path is an exact affine covariance transport, including
/// signed off-diagonal terms, for rectangular input/output widths.
#[test]
fn full_affine_matches_scalar_quadratic_oracle() {
    let mut draws = Draws(340517);
    for _ in 0..64 {
        let case = full_affine_case(&mut draws);
        assert!(case.d_in != case.d_out);
        for batch in 0..BATCH {
            assert!(case.cov[batch * case.d_in * case.d_in + 1].abs() > 0.0);
        }
        let device = Default::default();
        let moments = moments_full(
            Tensor::<Nd, 2>::from_data(TensorData::new(case.mean.clone(), [BATCH, case.d_in]), &device),
            Tensor::<Nd, 3>::from_data(TensorData::new(case.cov.clone(), [BATCH, case.d_in, case.d_in]), &device),
        );
        let out = propagate_linear_full(
            &moments,
            Tensor::<Nd, 2>::from_data(TensorData::new(case.weight.clone(), [case.d_in, case.d_out]), &device),
            Some(Tensor::<Nd, 1>::from_data(TensorData::new(case.bias.clone(), [case.d_out]), &device)),
        );
        let actual_mean = out.mean.into_data().to_vec::<f32>().unwrap();
        let actual_cov = out.cov.into_data().to_vec::<f32>().unwrap();
        for batch in 0..BATCH {
            for out_i in 0..case.d_out {
                let mut expected_mean = case.bias[out_i] as f64;
                let mut mean_scale = expected_mean.abs();
                for i in 0..case.d_in {
                    let term = case.mean[batch * case.d_in + i] as f64
                        * case.weight[i * case.d_out + out_i] as f64;
                    expected_mean += term;
                    mean_scale += term.abs();
                }
                assert!(
                    (actual_mean[batch * case.d_out + out_i] as f64 - expected_mean).abs()
                        <= f32_roundoff_bound(mean_scale),
                    "batch {batch}, mean [{out_i}]: {} vs {expected_mean}",
                    actual_mean[batch * case.d_out + out_i],
                );
                for out_j in 0..case.d_out {
                    let mut expected_cov = 0.0;
                    let mut scale = 0.0;
                    for i in 0..case.d_in {
                        for j in 0..case.d_in {
                            let term = case.weight[i * case.d_out + out_i] as f64
                                * case.cov[(batch * case.d_in + i) * case.d_in + j] as f64
                                * case.weight[j * case.d_out + out_j] as f64;
                            expected_cov += term;
                            scale += term.abs();
                        }
                    }
                    let index = (batch * case.d_out + out_i) * case.d_out + out_j;
                    assert!(
                        (actual_cov[index] as f64 - expected_cov).abs()
                            <= f32_roundoff_bound(scale),
                        "batch {batch}, [{out_i}, {out_j}]: {} vs {expected_cov}",
                        actual_cov[index],
                    );
                }
            }
        }
    }
}

/// Transporting a valid signed cross covariance through two affine maps
/// composes as one map; the scalar three-index product is the oracle.
#[test]
fn affine_cross_covariance_composes() {
    let mut draws = Draws(253408);
    for _ in 0..64 {
        let case = cross_case(&mut draws);
        for batch in 0..BATCH {
            assert!(case.cross[batch * case.d_left * case.d_in].abs() > 0.0);
        }
        let device = Default::default();
        let cross = Tensor::<Nd, 3>::from_data(TensorData::new(case.cross.clone(), [BATCH, case.d_left, case.d_in]), &device);
        let w1 = Tensor::<Nd, 2>::from_data(TensorData::new(case.first.clone(), [case.d_in, case.d_hidden]), &device);
        let w2 = Tensor::<Nd, 2>::from_data(TensorData::new(case.second.clone(), [case.d_hidden, case.d_out]), &device);
        let first_hop = propagate_linear_cross_covariance(cross, w1);
        let first_values = first_hop.clone().into_data().to_vec::<f32>().unwrap();
        for batch in 0..BATCH {
            for left in 0..case.d_left {
                for hidden in 0..case.d_hidden {
                    let mut expected = 0.0;
                    let mut scale = 0.0;
                    for input in 0..case.d_in {
                        let term = case.cross[(batch * case.d_left + left) * case.d_in + input]
                            as f64
                            * case.first[input * case.d_hidden + hidden] as f64;
                        expected += term;
                        scale += term.abs();
                    }
                    let index = (batch * case.d_left + left) * case.d_hidden + hidden;
                    assert!(
                        (first_values[index] as f64 - expected).abs() <= f32_roundoff_bound(scale),
                        "first hop, batch {batch}, [{left}, {hidden}]: {} vs {expected}",
                        first_values[index],
                    );
                }
            }
        }
        let sequential = propagate_linear_cross_covariance(first_hop, w2)
            .into_data()
            .to_vec::<f32>()
            .unwrap();
        for batch in 0..BATCH {
            for left in 0..case.d_left {
                for out in 0..case.d_out {
                    let mut expected = 0.0;
                    let mut scale = 0.0;
                    for input in 0..case.d_in {
                        for hidden in 0..case.d_hidden {
                            let term = case.cross[(batch * case.d_left + left) * case.d_in + input] as f64
                                * case.first[input * case.d_hidden + hidden] as f64
                                * case.second[hidden * case.d_out + out] as f64;
                            expected += term;
                            scale += term.abs();
                        }
                    }
                    let index = (batch * case.d_left + left) * case.d_out + out;
                    assert!(
                        (sequential[index] as f64 - expected).abs() <= f32_roundoff_bound(scale),
                        "batch {batch}, [{left}, {out}]: {} vs {expected}",
                        sequential[index],
                    );
                }
            }
        }
    }
}

/// The truncated Hermite covariance series is a PSD kernel; replacing its
/// diagonal with exact rectified variances preserves that property.  These
/// rank-two factors make every generated 3- or 4-feature input singular.
#[test]
fn full_relu_covariance_is_symmetric_and_psd_on_signed_directions() {
    let mut draws = Draws(490978);
    for _ in 0..64 {
        let case = full_affine_case(&mut draws);
        let device = Default::default();
        let out = propagate_relu_full(&moments_full(
            Tensor::<Nd, 2>::from_data(TensorData::new(case.mean.clone(), [BATCH, case.d_in]), &device),
            Tensor::<Nd, 3>::from_data(TensorData::new(case.cov.clone(), [BATCH, case.d_in, case.d_in]), &device),
        ));
        let covariance = out.cov.into_data().to_vec::<f32>().unwrap();
        let mut contrast = vec![0.0; case.d_in];
        contrast[0] = 1.0;
        contrast[1] = -1.0;
        let directions = vec![
            vec![1.0; case.d_in],
            (0..case.d_in)
                .map(|i| if i % 2 == 0 { 1.0 } else { -1.0 })
                .collect(),
            contrast,
        ];
        for batch in 0..BATCH {
            for i in 0..case.d_in {
                for j in 0..case.d_in {
                    let a = covariance[(batch * case.d_in + i) * case.d_in + j];
                    let b = covariance[(batch * case.d_in + j) * case.d_in + i];
                    // Series terms can cancel near zero. Their natural scale
                    // is sigma_i * sigma_j, not the final covariance entry.
                    let var_i = case.cov[(batch * case.d_in + i) * case.d_in + i] as f64;
                    let var_j = case.cov[(batch * case.d_in + j) * case.d_in + j] as f64;
                    assert!(
                        (a as f64 - b as f64).abs()
                            <= f32_roundoff_bound((var_i * var_j).sqrt()),
                        "batch {batch}, asymmetric [{i}, {j}]: {a} vs {b}",
                    );
                }
            }
            for direction in &directions {
                let mut quadratic = 0.0;
                let mut term_scale = 0.0;
                for i in 0..case.d_in {
                    for j in 0..case.d_in {
                        let term = direction[i]
                            * covariance[(batch * case.d_in + i) * case.d_in + j] as f64
                            * direction[j];
                        quadratic += term;
                        term_scale += term.abs();
                    }
                }
                assert!(
                    quadratic >= -f32_roundoff_bound(term_scale),
                    "batch {batch}, direction {direction:?}: v^T Sigma v = {quadratic}",
                );
            }
        }
    }
}

/// ReLU(y) - ReLU(-y) = y, so the corresponding Gaussian cross-covariance
/// transports must differ by Cov(U, y). The reflected variable has both
/// its mean and its cross covariance negated, while its variance is fixed.
#[test]
fn relu_cross_covariance_reflection_recovers_input_cross_covariance() {
    let mut draws = Draws(506816);
    for _ in 0..64 {
        let case = relu_case(&mut draws);
        let d_right = 4;
        let device = Default::default();
        let right = moments(
            Tensor::<Nd, 2>::from_data(TensorData::new(case.mean.clone(), [BATCH, d_right]), &device),
            Tensor::<Nd, 2>::from_data(TensorData::new(case.var.clone(), [BATCH, d_right]), &device),
        );
        let reflected_right = moments(
            Tensor::<Nd, 2>::from_data(TensorData::new(case.mean.iter().map(|value| -value).collect(), [BATCH, d_right]), &device),
            Tensor::<Nd, 2>::from_data(TensorData::new(case.var.clone(), [BATCH, d_right]), &device),
        );
        let positive = propagate_relu_cross_covariance(
            Tensor::<Nd, 3>::from_data(TensorData::new(case.cross.clone(), [BATCH, case.d_left, d_right]), &device),
            &right,
        ).into_data().to_vec::<f32>().unwrap();
        let negative = propagate_relu_cross_covariance(
            Tensor::<Nd, 3>::from_data(TensorData::new(case.cross.iter().map(|value| -value).collect(), [BATCH, case.d_left, d_right]), &device),
            &reflected_right,
        ).into_data().to_vec::<f32>().unwrap();
        assert_eq!(positive.len(), negative.len());
        assert_eq!(positive.len(), case.cross.len());
        for (index, ((positive, negative), cross)) in positive.iter().zip(&negative).zip(&case.cross).enumerate() {
            let observed = *positive as f64 - *negative as f64;
            let scale = (*positive as f64).abs() + (*negative as f64).abs() + (*cross as f64).abs();
            assert!(
                (observed - *cross as f64).abs() <= f32_roundoff_bound(scale),
                "index {index}: {observed} vs {cross}",
            );
        }
    }
}

/// Scaling the right jointly Gaussian variable by a positive constant
/// leaves the ReLU gate unchanged and scales its transported covariance.
#[test]
fn relu_cross_covariance_is_positive_scale_equivariant() {
    let mut draws = Draws(403869);
    for _ in 0..64 {
        let case = relu_case(&mut draws);
        let scale = draws.within(0.2, 3.0);
        let d_right = 4;
        let device = Default::default();
        assert!(case.cross.iter().any(|value| *value < 0.0));
        assert!(case.cross.iter().any(|value| *value > 0.0));
        let right = moments(
            Tensor::<Nd, 2>::from_data(TensorData::new(case.mean.clone(), [BATCH, d_right]), &device),
            Tensor::<Nd, 2>::from_data(TensorData::new(case.var.clone(), [BATCH, d_right]), &device),
        );
        let base = propagate_relu_cross_covariance(
            Tensor::<Nd, 3>::from_data(TensorData::new(case.cross.clone(), [BATCH, case.d_left, d_right]), &device),
            &right,
        ).into_data().to_vec::<f32>().unwrap();
        let scaled_right = moments(
            Tensor::<Nd, 2>::from_data(TensorData::new(case.mean.iter().map(|value| value * scale).collect(), [BATCH, d_right]), &device),
            Tensor::<Nd, 2>::from_data(TensorData::new(case.var.iter().map(|value| value * scale * scale).collect(), [BATCH, d_right]), &device),
        );
        let scaled = propagate_relu_cross_covariance(
            Tensor::<Nd, 3>::from_data(TensorData::new(case.cross.iter().map(|value| value * scale).collect(), [BATCH, case.d_left, d_right]), &device),
            &scaled_right,
        ).into_data().to_vec::<f32>().unwrap();
        assert_eq!(scaled.len(), base.len());
        assert_eq!(scaled.len(), case.cross.len());
        for (index, (actual, expected)) in scaled.iter().zip(base.iter().map(|value| value * scale)).enumerate() {
            let scaled_cross = case.cross[index] as f64 * scale as f64;
            assert!(
                (*actual as f64 - expected as f64).abs()
                    <= relu_scale_equivariance_bound(expected as f64, scaled_cross),
                "index {index}: {actual} vs {expected}",
            );
        }
    }
}

#[test]
fn interval_coefficients_must_fit_the_format() {
    assert_eq!(
        check_interval::<Burn<Nd>>(Format::F16, Real::F64(0.999_999)),
        Some(Violation::IntervalCoefficient),
    );
    assert_eq!(check_interval::<Burn<Nd>>(Format::F32, Real::F64(0.999_999)), None);
    // Flexible entries are stored in single precision.
    let p = 2.0 * 100_000.0_f64.atan() / std::f64::consts::PI;
    assert_eq!(check_interval::<Burn<Nd>>(Format::Flex32, Real::F64(p)), None);
}
