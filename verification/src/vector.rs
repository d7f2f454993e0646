//! Moment propagation on plain vectors, one distribution at a time.
//!
//! Affine layers carry the mean and the full covariance. A rectifier evaluates
//! the moments of each rectified Gaussian marginal (Frey & Hinton, 1999), with
//! numerical care in the tails, and drops the covariance between features.
use vstd::prelude::*;

use crate::gaussian::{negative_relu_moments, std_normal_cdf, std_normal_pdf};
use crate::matrix::{mat_mul, mat_vec};
use crate::scalar::{every_finite, Scalar};
use crate::violation::Violation;

verus! {

use crate::gaussian::{density, distribution, tail_mean, tail_variance};
use crate::matrix::{has_width, rows, times_matrix, times_vector};
use crate::scalar::{all_finite, dot};

/// First two moments of a multivariate Gaussian (mean and full covariance).
///
/// Inputs must be nonempty and finite. Covariance must be symmetric and
/// positive semidefinite; propagation checks dimensions and finiteness but
/// does not test symmetry or positive semidefiniteness.
#[derive(Debug, Clone)]
pub struct Moments<S> {
    pub mean: Vec<S>,
    /// Row-major `n x n` covariance matrix.
    pub cov: Vec<Vec<S>>,
}

/// The contents of a [`Moments`].
#[verifier::ext_equal]
pub struct MomentsModel<S> {
    pub mean: Seq<S>,
    pub cov: Seq<Seq<S>>,
}

impl<S> View for Moments<S> {
    type V = MomentsModel<S>;

    open spec fn view(&self) -> MomentsModel<S> {
        MomentsModel { mean: self.mean@, cov: rows(self.cov@) }
    }
}

/// A single neural-network layer.
#[derive(Debug, Clone)]
pub enum Layer<S> {
    Linear {
        /// Row-major weight matrix, shape `[out, in]`.
        weight: Vec<Vec<S>>,
        /// Bias vector, length `out`.
        bias: Vec<S>,
    },
    ReLU,
}

/// The first row of `cov` from `i` on that is not `n` finite numbers, and what
/// is wrong with it.
pub open spec fn covariance_fault<S: Scalar>(cov: Seq<Seq<S>>, n: nat, i: int) -> Option<Violation>
    decreases cov.len() - i,
{
    if i < 0 || i >= cov.len() {
        None
    } else if cov[i].len() != n {
        Some(Violation::CovarianceNotSquare)
    } else if !all_finite(cov[i]) {
        Some(Violation::CovarianceNotFinite)
    } else {
        covariance_fault(cov, n, i + 1)
    }
}

/// What is wrong with `m` as the input of a layer, if anything.
pub open spec fn moments_fault<S: Scalar>(m: MomentsModel<S>) -> Option<Violation> {
    if m.mean.len() == 0 {
        Some(Violation::MeanEmpty)
    } else if !all_finite(m.mean) {
        Some(Violation::MeanNotFinite)
    } else if m.cov.len() != m.mean.len() {
        Some(Violation::CovarianceRows)
    } else {
        covariance_fault(m.cov, m.mean.len(), 0)
    }
}

/// The first row of `weight` from `i` on that is not `n` finite numbers, and
/// what is wrong with it.
pub open spec fn weight_fault<S: Scalar>(weight: Seq<Seq<S>>, n: nat, i: int) -> Option<Violation>
    decreases weight.len() - i,
{
    if i < 0 || i >= weight.len() {
        None
    } else if weight[i].len() != n {
        Some(Violation::WeightColumns)
    } else if !all_finite(weight[i]) {
        Some(Violation::WeightNotFinite)
    } else {
        weight_fault(weight, n, i + 1)
    }
}

/// What keeps an affine layer from being applied to `m`, if anything.
pub open spec fn linear_fault<S: Scalar>(
    m: MomentsModel<S>,
    weight: Seq<Seq<S>>,
    bias: Seq<S>,
) -> Option<Violation> {
    if moments_fault(m) is Some {
        moments_fault(m)
    } else if weight.len() == 0 {
        Some(Violation::WeightEmpty)
    } else if bias.len() != weight.len() {
        Some(Violation::BiasLength)
    } else if weight_fault(weight, m.mean.len(), 0) is Some {
        weight_fault(weight, m.mean.len(), 0)
    } else if !all_finite(bias) {
        Some(Violation::BiasNotFinite)
    } else {
        None
    }
}

/// Whether a number can be a variance: finite and not negative.
pub open spec fn is_variance<S: Scalar>(v: S) -> bool {
    v.s_finite() && S::s_int(0).s_le(v)
}

/// What keeps a rectifier from being applied to `m`, if anything.
pub open spec fn relu_fault<S: Scalar>(m: MomentsModel<S>) -> Option<Violation> {
    if moments_fault(m) is Some {
        moments_fault(m)
    } else if exists|i: int| 0 <= i < m.mean.len() && !is_variance(#[trigger] m.cov[i][i]) {
        Some(Violation::Variance)
    } else {
        None
    }
}

/// Moments after an affine layer: mean `W mean + bias`, covariance
/// `W cov W^T`.
pub open spec fn linear<S: Scalar>(
    m: MomentsModel<S>,
    weight: Seq<Seq<S>>,
    bias: Seq<S>,
) -> MomentsModel<S> {
    let mixed = times_matrix(weight, m.cov, m.mean.len());
    MomentsModel {
        mean: Seq::new(
            weight.len(),
            |o: int| dot(weight[o], m.mean, m.mean.len()).s_add(bias[o]),
        ),
        cov: Seq::new(weight.len(), |o: int| times_vector(weight, mixed[o])),
    }
}

/// `x` where it is at least `low`, and `low` otherwise.
pub open spec fn at_least<S: Scalar>(x: S, low: S) -> S {
    if low.s_le(x) {
        x
    } else {
        low
    }
}

/// Mean of the rectified Gaussian with mean `mu` and variance `var`.
///
/// A variance of zero rectifies `mu` itself. From eight standard deviations
/// on, the rectifier counts as linear: it keeps `mu` or gives zero. Between
/// minus eight and minus two standard deviations the tail moments are used,
/// above that the closed form `mu Phi(a) + sigma phi(a)` with `a = mu / sigma`.
pub open spec fn relu_mean<S: Scalar>(mu: S, var: S) -> S {
    let sigma = var.s_sqrt();
    let alpha = mu.s_div(sigma);
    let phi = density(alpha);
    if var.s_eq(S::s_int(0)) {
        at_least(mu, S::s_int(0))
    } else if S::s_int(8).s_le(alpha) {
        mu
    } else if alpha.s_le(S::s_int(-8)) {
        S::s_int(0)
    } else if alpha.s_lt(S::s_int(-2)) {
        sigma.s_mul(tail_mean(alpha.s_neg(), phi))
    } else {
        mu.s_mul(distribution(alpha, phi)).s_add(sigma.s_mul(phi))
    }
}

/// Variance of a rectified Gaussian with unit variance and mean `alpha`, for
/// its probability `p` of being positive and its density `phi`:
/// `a^2 p (1 - p) + p + a phi (1 - 2p) - phi^2`.
///
/// Equal to the second moment minus the squared mean, but without subtracting
/// two numbers of the size of `alpha^2`.
pub open spec fn unit_relu_variance<S: Scalar>(alpha: S, p: S, phi: S) -> S {
    let one = S::s_int(1);
    alpha.s_mul(alpha).s_mul(p).s_mul(one.s_sub(p)).s_add(p).s_add(
        alpha.s_mul(phi).s_mul(one.s_sub(S::s_int(2).s_mul(p))),
    ).s_sub(phi.s_mul(phi))
}

/// Variance of the rectified Gaussian with mean `mu` and variance `var`, in the
/// same cases as [`relu_mean`].
pub open spec fn relu_variance<S: Scalar>(mu: S, var: S) -> S {
    let zero = S::s_int(0);
    let alpha = mu.s_div(var.s_sqrt());
    let phi = density(alpha);
    if var.s_eq(zero) {
        zero
    } else if S::s_int(8).s_le(alpha) {
        var
    } else if alpha.s_le(S::s_int(-8)) {
        zero
    } else if alpha.s_lt(S::s_int(-2)) {
        var.s_mul(tail_variance(alpha.s_neg(), phi))
    } else {
        at_least(var.s_mul(unit_relu_variance(alpha, distribution(alpha, phi), phi)), zero)
    }
}

/// The `n x n` matrix with `d` on its diagonal and zeros elsewhere.
pub open spec fn diagonal<S: Scalar>(d: Seq<S>) -> Seq<Seq<S>> {
    Seq::new(
        d.len(),
        |i: int|
            Seq::new(
                d.len(),
                |j: int|
                    if i == j {
                        d[i]
                    } else {
                        S::s_int(0)
                    },
            ),
    )
}

/// Moments after a rectifier: each feature by itself, with no covariance
/// between features.
pub open spec fn relu<S: Scalar>(m: MomentsModel<S>) -> MomentsModel<S> {
    MomentsModel {
        mean: Seq::new(m.mean.len(), |i: int| relu_mean(m.mean[i], m.cov[i][i])),
        cov: diagonal(Seq::new(m.mean.len(), |i: int| relu_variance(m.mean[i], m.cov[i][i]))),
    }
}

/// What keeps `layer` from being applied to `m`, if anything.
pub open spec fn layer_fault<S: Scalar>(layer: Layer<S>, m: MomentsModel<S>) -> Option<Violation> {
    match layer {
        Layer::Linear { weight, bias } => linear_fault(m, rows(weight@), bias@),
        Layer::ReLU => relu_fault(m),
    }
}

/// Moments after `layer`.
pub open spec fn after_layer<S: Scalar>(layer: Layer<S>, m: MomentsModel<S>) -> MomentsModel<S> {
    match layer {
        Layer::Linear { weight, bias } => linear(m, rows(weight@), bias@),
        Layer::ReLU => relu(m),
    }
}

/// Moments after all of `layers` in turn, or what keeps the first layer that
/// cannot be applied from being applied.
pub open spec fn after_layers<S: Scalar>(
    layers: Seq<Layer<S>>,
    m: MomentsModel<S>,
) -> Result<MomentsModel<S>, Violation>
    decreases layers.len(),
{
    if layers.len() == 0 {
        Ok(m)
    } else {
        match after_layers(layers.drop_last(), m) {
            Err(v) => Err(v),
            Ok(before) => match layer_fault(layers.last(), before) {
                Some(v) => Err(v),
                None => Ok(after_layer(layers.last(), before)),
            },
        }
    }
}

/// Whether a number can be a standard deviation: finite, not negative, and
/// with a square that is finite and zero only for zero.
pub open spec fn is_deviation<S: Scalar>(x: S) -> bool {
    let variance = x.s_mul(x);
    &&& x.s_finite()
    &&& S::s_int(0).s_le(x)
    &&& variance.s_finite()
    &&& x.s_eq(S::s_int(0)) || !variance.s_eq(S::s_int(0))
}

/// What is wrong with a description of independent inputs, if anything.
pub open spec fn input_fault<S: Scalar>(mean: Seq<S>, std: Seq<S>) -> Option<Violation> {
    if mean.len() == 0 {
        Some(Violation::InputMeanEmpty)
    } else if std.len() != mean.len() {
        Some(Violation::InputDeviationLength)
    } else if !all_finite(mean) {
        Some(Violation::InputMeanNotFinite)
    } else if exists|i: int| 0 <= i < std.len() && !is_deviation(#[trigger] std[i]) {
        Some(Violation::InputDeviation)
    } else {
        None
    }
}

/// Moments of independent inputs.
pub open spec fn independent<S: Scalar>(mean: Seq<S>, std: Seq<S>) -> MomentsModel<S> {
    MomentsModel { mean, cov: diagonal(Seq::new(std.len(), |i: int| std[i].s_mul(std[i]))) }
}

/// Moments of independent inputs after all of `layers`, or what keeps them
/// from being computed.
pub open spec fn sequential<S: Scalar>(
    layers: Seq<Layer<S>>,
    mean: Seq<S>,
    std: Seq<S>,
) -> Result<MomentsModel<S>, Violation> {
    match input_fault(mean, std) {
        Some(v) => Err(v),
        None => after_layers(layers, independent(mean, std)),
    }
}

/// A covariance without fault is square.
proof fn lemma_covariance_shape<S: Scalar>(cov: Seq<Seq<S>>, n: nat, i: int)
    requires
        0 <= i,
        covariance_fault(cov, n, i) is None,
    ensures
        forall|k: int| i <= k < cov.len() ==> (#[trigger] cov[k]).len() == n,
        forall|k: int| i <= k < cov.len() ==> all_finite(#[trigger] cov[k]),
    decreases cov.len() - i,
{
    if i < cov.len() {
        lemma_covariance_shape(cov, n, i + 1);
    }
}

/// A weight without fault has the input's width.
proof fn lemma_weight_shape<S: Scalar>(weight: Seq<Seq<S>>, n: nat, i: int)
    requires
        0 <= i,
        weight_fault(weight, n, i) is None,
    ensures
        forall|k: int| i <= k < weight.len() ==> (#[trigger] weight[k]).len() == n,
    decreases weight.len() - i,
{
    if i < weight.len() {
        lemma_weight_shape(weight, n, i + 1);
    }
}

/// Moments without fault have a square, nonempty covariance.
pub proof fn lemma_moments_shape<S: Scalar>(m: MomentsModel<S>)
    requires
        moments_fault(m) is None,
    ensures
        m.mean.len() > 0,
        m.cov.len() == m.mean.len(),
        has_width(m.cov, m.mean.len()),
{
    lemma_covariance_shape(m.cov, m.mean.len(), 0);
}

/// What is wrong with `moments` as the input of a layer, if anything.
pub fn validate_moments<S: Scalar>(moments: &Moments<S>) -> (r: Option<Violation>)
    ensures
        r == moments_fault(moments@),
{
    let n = moments.mean.len();
    if n == 0 {
        return Some(Violation::MeanEmpty);
    }
    if !every_finite(moments.mean.as_slice()) {
        return Some(Violation::MeanNotFinite);
    }
    if moments.cov.len() != n {
        return Some(Violation::CovarianceRows);
    }
    let mut i: usize = 0;
    while i < n
        invariant
            i <= n,
            n == moments@.mean.len(),
            n == moments@.cov.len(),
            covariance_fault(moments@.cov, n as nat, 0) == covariance_fault(
                moments@.cov,
                n as nat,
                i as int,
            ),
            moments_fault(moments@) == covariance_fault(moments@.cov, n as nat, 0),
        decreases n - i,
    {
        let row = &moments.cov[i];
        assert(row@ == moments@.cov[i as int]);
        if row.len() != n {
            return Some(Violation::CovarianceNotSquare);
        }
        if !every_finite(row.as_slice()) {
            return Some(Violation::CovarianceNotFinite);
        }
        i += 1;
    }
    None
}

/// What keeps [`propagate_linear`] from being applied, if anything.
pub fn check_linear<S: Scalar>(moments: &Moments<S>, weight: &[Vec<S>], bias: &[S]) -> (r: Option<
    Violation,
>)
    ensures
        r == linear_fault(moments@, rows(weight@), bias@),
{
    let fault = validate_moments(moments);
    if fault.is_some() {
        return fault;
    }
    if weight.len() == 0 {
        return Some(Violation::WeightEmpty);
    }
    if bias.len() != weight.len() {
        return Some(Violation::BiasLength);
    }
    let n = moments.mean.len();
    let mut i: usize = 0;
    while i < weight.len()
        invariant
            i <= weight@.len(),
            n == moments@.mean.len(),
            moments_fault(moments@) is None,
            bias@.len() == weight@.len(),
            weight@.len() > 0,
            weight_fault(rows(weight@), n as nat, 0) == weight_fault(
                rows(weight@),
                n as nat,
                i as int,
            ),
        decreases weight@.len() - i,
    {
        let row = &weight[i];
        assert(row@ == rows(weight@)[i as int]);
        if row.len() != n {
            return Some(Violation::WeightColumns);
        }
        if !every_finite(row.as_slice()) {
            return Some(Violation::WeightNotFinite);
        }
        i += 1;
    }
    if !every_finite(bias) {
        return Some(Violation::BiasNotFinite);
    }
    None
}

/// What keeps [`propagate_relu`] from being applied, if anything.
pub fn check_relu<S: Scalar>(moments: &Moments<S>) -> (r: Option<Violation>)
    ensures
        r == relu_fault(moments@),
{
    let fault = validate_moments(moments);
    if fault.is_some() {
        return fault;
    }
    proof {
        lemma_moments_shape(moments@);
    }
    let zero = S::whole(0);
    let n = moments.mean.len();
    let mut i: usize = 0;
    while i < n
        invariant
            i <= n,
            zero == S::s_int(0),
            n == moments@.mean.len(),
            n == moments@.cov.len(),
            has_width(moments@.cov, n as nat),
            moments_fault(moments@) is None,
            forall|k: int| 0 <= k < i ==> is_variance(#[trigger] moments@.cov[k][k]),
        decreases n - i,
    {
        assert(moments@.cov[i as int].len() == n);
        let var = moments.cov[i][i];
        if !(var.finite() && zero.at_most(var)) {
            assert(!is_variance(moments@.cov[i as int][i as int]));
            return Some(Violation::Variance);
        }
        i += 1;
    }
    None
}

/// Propagate Gaussian moments through an affine layer.
///
/// ```text
/// mean' = W * mean + bias
/// cov'  = W * cov * W^T
/// ```
///
/// Finite inputs can still give an output that is not finite, where the exact
/// affine arithmetic leaves the range of the number type. The covariance
/// requirements on [`Moments`] also apply.
pub fn propagate_linear<S: Scalar>(
    moments: &Moments<S>,
    weight: &[Vec<S>],
    bias: &[S],
) -> (r: Moments<S>)
    requires
        linear_fault(moments@, rows(weight@), bias@) is None,
    ensures
        r@ == linear(moments@, rows(weight@), bias@),
{
    proof {
        lemma_moments_shape(moments@);
        lemma_weight_shape(rows(weight@), moments@.mean.len(), 0);
        assert(moments@.cov[0] == moments.cov@[0]@);
    }
    let products = mat_vec(weight, moments.mean.as_slice());
    let mut mean: Vec<S> = Vec::new();
    let mut o: usize = 0;
    while o < weight.len()
        invariant
            o <= weight@.len(),
            bias@.len() == weight@.len(),
            products@ == times_vector(rows(weight@), moments@.mean),
            mean@.len() == o,
            forall|k: int|
                0 <= k < o ==> #[trigger] mean@[k] == linear(
                    moments@,
                    rows(weight@),
                    bias@,
                ).mean[k],
        decreases weight@.len() - o,
    {
        mean.push(products[o].plus(bias[o]));
        o += 1;
    }
    let ghost target = linear(moments@, rows(weight@), bias@);
    let ghost n = moments@.mean.len();
    let mixed = mat_mul(weight, moments.cov.as_slice());
    assert(rows(mixed@).len() == weight@.len());
    let mut cov: Vec<Vec<S>> = Vec::new();
    let mut o: usize = 0;
    while o < mixed.len()
        invariant
            o <= mixed@.len(),
            mixed@.len() == weight@.len(),
            rows(mixed@) == times_matrix(rows(weight@), moments@.cov, n),
            has_width(rows(weight@), n),
            n == moments@.mean.len(),
            target == linear(moments@, rows(weight@), bias@),
            cov@.len() == o,
            forall|k: int| 0 <= k < o ==> (#[trigger] cov@[k])@ == target.cov[k],
        decreases mixed@.len() - o,
    {
        assert(rows(mixed@)[o as int] == mixed@[o as int]@);
        cov.push(mat_vec(weight, mixed[o].as_slice()));
        o += 1;
    }
    assert(mean@ =~= target.mean);
    assert(rows(cov@) =~= target.cov);
    Moments { mean, cov }
}

/// Mean and variance of the rectified Gaussian with mean `mu` and variance
/// `var`.
pub fn rectified_moments<S: Scalar>(mu: S, var: S) -> (r: (S, S))
    ensures
        r.0 == relu_mean(mu, var),
        r.1 == relu_variance(mu, var),
{
    let zero = S::whole(0);
    if var.equals(zero) {
        // Deterministic: rectify the mean exactly.
        let mean = if zero.at_most(mu) {
            mu
        } else {
            zero
        };
        return (mean, zero);
    }
    let sigma = var.root();
    let alpha = mu.over(sigma);
    // In the far tails the linear limit avoids products that can overflow.
    if S::whole(8).at_most(alpha) {
        return (mu, var);
    }
    if alpha.at_most(S::whole(-8)) {
        return (zero, zero);
    }
    let phi = std_normal_pdf(alpha);
    if alpha.less(S::whole(-2)) {
        let (mean, variance) = negative_relu_moments(alpha.negated(), phi);
        return (sigma.times(mean), var.times(variance));
    }
    let p = std_normal_cdf(alpha, phi);
    let one = S::whole(1);
    let mean = mu.times(p).plus(sigma.times(phi));
    let unit = alpha.times(alpha).times(p).times(one.minus(p)).plus(p).plus(
        alpha.times(phi).times(one.minus(S::whole(2).times(p))),
    ).minus(phi.times(phi));
    let spread = var.times(unit);
    // Numerical noise must not make the variance negative.
    let variance = if zero.at_most(spread) {
        spread
    } else {
        zero
    };
    (mean, variance)
}

/// A row of `n` zeros, but for `value` at `i`.
fn unit_row<S: Scalar>(n: usize, i: usize, value: S) -> (r: Vec<S>)
    ensures
        r@ == Seq::new(
            n as nat,
            |j: int|
                if i == j {
                    value
                } else {
                    S::s_int(0)
                },
        ),
{
    let mut row: Vec<S> = Vec::new();
    let mut j: usize = 0;
    while j < n
        invariant
            j <= n,
            row@.len() == j,
            forall|k: int|
                0 <= k < j ==> #[trigger] row@[k] == if i == k {
                    value
                } else {
                    S::s_int(0)
                },
        decreases n - j,
    {
        if i == j {
            row.push(value);
        } else {
            row.push(S::whole(0));
        }
        j += 1;
    }
    assert(row@ =~= Seq::new(
        n as nat,
        |j: int|
            if i == j {
                value
            } else {
                S::s_int(0)
            },
    ));
    row
}

/// Propagate Gaussian moments through an element-wise rectifier by moment
/// matching (Frey & Hinton, 1999), each feature by itself:
///
/// ```text
/// alpha  = mu / sigma
/// mu'    = mu * Phi(alpha) + sigma * phi(alpha)
/// var'   = (mu^2 + sigma^2) * Phi(alpha) + mu * sigma * phi(alpha) - mu'^2
/// ```
///
/// Tail moments below minus two standard deviations use continued fractions to
/// avoid cancellation, and the variance is evaluated in a form that avoids
/// cancellation in the nearly linear region. Linear tail limits apply at eight
/// standard deviations. Off-diagonal covariances are zero.
pub fn propagate_relu<S: Scalar>(moments: &Moments<S>) -> (r: Moments<S>)
    requires
        relu_fault(moments@) is None,
    ensures
        r@ == relu(moments@),
{
    proof {
        lemma_moments_shape(moments@);
    }
    let ghost target = relu(moments@);
    let n = moments.mean.len();
    let mut mean: Vec<S> = Vec::new();
    let mut cov: Vec<Vec<S>> = Vec::new();
    let mut i: usize = 0;
    while i < n
        invariant
            i <= n,
            n == moments@.mean.len(),
            n == moments@.cov.len(),
            has_width(moments@.cov, n as nat),
            target == relu(moments@),
            mean@.len() == i,
            cov@.len() == i,
            forall|k: int| 0 <= k < i ==> #[trigger] mean@[k] == target.mean[k],
            forall|k: int| 0 <= k < i ==> (#[trigger] cov@[k])@ == target.cov[k],
        decreases n - i,
    {
        assert(moments@.cov[i as int].len() == n);
        let (mu, var) = rectified_moments(moments.mean[i], moments.cov[i][i]);
        mean.push(mu);
        let row = unit_row(n, i, var);
        assert(row@ =~= target.cov[i as int]);
        cov.push(row);
        i += 1;
    }
    assert(mean@ =~= target.mean);
    assert(rows(cov@) =~= target.cov);
    Moments { mean, cov }
}

/// What is wrong with a description of independent inputs, if anything.
pub fn check_input<S: Scalar>(input_mean: &[S], input_std: &[S]) -> (r: Option<Violation>)
    ensures
        r == input_fault(input_mean@, input_std@),
{
    if input_mean.len() == 0 {
        return Some(Violation::InputMeanEmpty);
    }
    if input_std.len() != input_mean.len() {
        return Some(Violation::InputDeviationLength);
    }
    if !every_finite(input_mean) {
        return Some(Violation::InputMeanNotFinite);
    }
    let zero = S::whole(0);
    let mut i: usize = 0;
    while i < input_std.len()
        invariant
            i <= input_std@.len(),
            zero == S::s_int(0),
            input_mean@.len() > 0,
            input_std@.len() == input_mean@.len(),
            all_finite(input_mean@),
            forall|k: int| 0 <= k < i ==> is_deviation(#[trigger] input_std@[k]),
        decreases input_std@.len() - i,
    {
        let x = input_std[i];
        let variance = x.times(x);
        let fits = x.finite() && zero.at_most(x) && variance.finite() && (x.equals(zero)
            || !variance.equals(zero));
        if !fits {
            assert(!is_deviation(input_std@[i as int]));
            return Some(Violation::InputDeviation);
        }
        i += 1;
    }
    None
}

/// Moments of independent inputs with the given means and standard deviations.
fn independent_moments<S: Scalar>(input_mean: &[S], input_std: &[S]) -> (r: Moments<S>)
    requires
        input_mean@.len() == input_std@.len(),
    ensures
        r@ == independent(input_mean@, input_std@),
{
    let ghost target = independent(input_mean@, input_std@);
    let n = input_mean.len();
    let mut mean: Vec<S> = Vec::new();
    let mut cov: Vec<Vec<S>> = Vec::new();
    let mut i: usize = 0;
    while i < n
        invariant
            i <= n,
            n == input_mean@.len(),
            n == input_std@.len(),
            target == independent(input_mean@, input_std@),
            mean@.len() == i,
            cov@.len() == i,
            forall|k: int| 0 <= k < i ==> #[trigger] mean@[k] == target.mean[k],
            forall|k: int| 0 <= k < i ==> (#[trigger] cov@[k])@ == target.cov[k],
        decreases n - i,
    {
        mean.push(input_mean[i]);
        let row = unit_row(n, i, input_std[i].times(input_std[i]));
        assert(row@ =~= target.cov[i as int]);
        cov.push(row);
        i += 1;
    }
    assert(mean@ =~= target.mean);
    assert(rows(cov@) =~= target.cov);
    Moments { mean, cov }
}

/// Propagate moments through a sequence of layers, or say what keeps the first
/// layer that cannot be applied from being applied.
///
/// A layer can turn out not to apply only once the layers before it have run:
/// an affine layer can leave the finite numbers.
pub fn try_propagate_sequential<S: Scalar>(
    layers: &[Layer<S>],
    input_mean: &[S],
    input_std: &[S],
) -> (r: Result<Moments<S>, Violation>)
    ensures
        match (r, sequential(layers@, input_mean@, input_std@)) {
            (Ok(out), Ok(model)) => out@ == model,
            (Err(found), Err(fault)) => found == fault,
            _ => false,
        },
{
    match check_input(input_mean, input_std) {
        Some(v) => {
            return Err(v);
        },
        None => {},
    }
    let ghost start = independent(input_mean@, input_std@);
    let mut moments = independent_moments(input_mean, input_std);
    assert(layers@.take(0) =~= Seq::empty());
    let mut i: usize = 0;
    while i < layers.len()
        invariant
            i <= layers@.len(),
            start == independent(input_mean@, input_std@),
            input_fault(input_mean@, input_std@) is None,
            after_layers(layers@.take(i as int), start) == Ok::<MomentsModel<S>, Violation>(
                moments@,
            ),
        decreases layers@.len() - i,
    {
        let ghost prefix = layers@.take(i + 1);
        proof {
            assert(prefix.drop_last() =~= layers@.take(i as int));
            assert(prefix.last() == layers@[i as int]);
        }
        match &layers[i] {
            Layer::Linear { weight, bias } => {
                match check_linear(&moments, weight.as_slice(), bias.as_slice()) {
                    Some(v) => {
                        proof {
                            lemma_fault_persists(layers@, start, (i + 1) as nat, v);
                        }
                        return Err(v);
                    },
                    None => {},
                }
                moments = propagate_linear(&moments, weight.as_slice(), bias.as_slice());
            },
            Layer::ReLU => {
                match check_relu(&moments) {
                    Some(v) => {
                        proof {
                            lemma_fault_persists(layers@, start, (i + 1) as nat, v);
                        }
                        return Err(v);
                    },
                    None => {},
                }
                moments = propagate_relu(&moments);
            },
        }
        i += 1;
    }
    assert(layers@.take(layers@.len() as int) =~= layers@);
    Ok(moments)
}

/// A fault in the first `n` layers is the fault of the whole sequence.
proof fn lemma_fault_persists<S: Scalar>(
    layers: Seq<Layer<S>>,
    m: MomentsModel<S>,
    n: nat,
    v: Violation,
)
    requires
        n <= layers.len(),
        after_layers(layers.take(n as int), m) == Err::<MomentsModel<S>, Violation>(v),
    ensures
        after_layers(layers, m) == Err::<MomentsModel<S>, Violation>(v),
    decreases layers.len() - n,
{
    if n == layers.len() {
        assert(layers.take(n as int) =~= layers);
    } else {
        let next = layers.take((n + 1) as int);
        assert(next.drop_last() =~= layers.take(n as int));
        lemma_fault_persists(layers, m, n + 1, v);
    }
}

/// Propagate moments through a sequence of layers.
///
/// Inputs are independent Gaussian features described by their means and
/// standard deviations. Affine layers retain covariance; a rectifier drops its
/// off-diagonal entries. An empty layer sequence returns the input moments.
///
/// Where some layer may not apply, [`try_propagate_sequential`] finds out.
pub fn propagate_sequential<S: Scalar>(
    layers: &[Layer<S>],
    input_mean: &[S],
    input_std: &[S],
) -> (r: Moments<S>)
    requires
        sequential(layers@, input_mean@, input_std@) is Ok,
    ensures
        sequential(layers@, input_mean@, input_std@) == Ok::<MomentsModel<S>, Violation>(r@),
{
    try_propagate_sequential(layers, input_mean, input_std).unwrap()
}

} // verus!
