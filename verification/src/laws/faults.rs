//! Which inputs are accepted, and what is said of those that are not.
use vstd::prelude::*;

use crate::backend::{Backend, ConvOptions, Format, Model};
use crate::burn_sdp::diagonal::Moments;
use crate::scalar::Scalar;
use crate::violation::Violation;

verus! {

use crate::backend::conv_fits;
use crate::burn_sdp::cauchy::cauchy_fault;
use crate::burn_sdp::cross::{cross_linear_fault, cross_relu_fault};
use crate::burn_sdp::diagonal;
use crate::burn_sdp::diagonal::{
    affine_fault, bayes_fault, conv_fault, correlated_fault, left_fault, residual_fault,
};
use crate::burn_sdp::full::{diagonal_fault, full_fault, width_fault};
use crate::burn_sdp::rectify::slope_fault;
use crate::vector::{
    covariance_fault, input_fault, linear_fault, moments_fault, relu_fault, weight_fault, MomentsModel,
};

/// Whether all entries of a sequence are finite.
pub open spec fn is_finite_row<S: Scalar>(a: Seq<S>) -> bool {
    forall|i: int| 0 <= i < a.len() ==> (#[trigger] a[i]).s_finite()
}

/// Whether a row has `n` entries, all finite.
pub open spec fn is_good_row<S: Scalar>(a: Seq<S>, n: nat) -> bool {
    a.len() == n && is_finite_row(a)
}

/// Whether all rows have `n` entries, all finite.
pub open spec fn is_good_table<S: Scalar>(a: Seq<Seq<S>>, n: nat) -> bool {
    forall|i: int| 0 <= i < a.len() ==> is_good_row(#[trigger] a[i], n)
}

/// The first bad row decides.
proof fn lemma_first_bad_row<S: Scalar>(a: Seq<Seq<S>>, n: nat, i: int, k: int)
    requires
        0 <= i <= k <= a.len(),
        forall|j: int| i <= j < k ==> is_good_row(#[trigger] a[j], n),
        k < a.len() ==> !is_good_row(a[k], n),
    ensures
        k == a.len() ==> covariance_fault(a, n, i) is None && weight_fault(a, n, i) is None,
        k < a.len() && a[k].len() != n ==> covariance_fault(a, n, i) == Some(
            Violation::CovarianceNotSquare,
        ) && weight_fault(a, n, i) == Some(Violation::WeightColumns),
        k < a.len() && a[k].len() == n ==> covariance_fault(a, n, i) == Some(
            Violation::CovarianceNotFinite,
        ) && weight_fault(a, n, i) == Some(Violation::WeightNotFinite),
    decreases k - i,
{
    if i < k {
        assert(is_good_row(a[i], n));
        lemma_first_bad_row(a, n, i + 1, k);
    }
}

/// A table is good or has a first bad row.
proof fn lemma_bad_row_exists<S: Scalar>(a: Seq<Seq<S>>, n: nat, i: int) -> (k: int)
    requires
        0 <= i <= a.len(),
        forall|j: int| 0 <= j < i ==> is_good_row(#[trigger] a[j], n),
    ensures
        i <= k <= a.len(),
        forall|j: int| 0 <= j < k ==> is_good_row(#[trigger] a[j], n),
        k < a.len() ==> !is_good_row(a[k], n),
        k == a.len() <==> is_good_table(a, n),
    decreases a.len() - i,
{
    if i == a.len() {
        i
    } else if is_good_row(a[i], n) {
        lemma_bad_row_exists(a, n, i + 1)
    } else {
        i
    }
}

/// Moments are accepted exactly where there is a mean, all of it finite, and a
/// square covariance of as many rows, all of it finite; and what is said
/// otherwise is what fails first, row by row.
pub proof fn law_moments_accepted<S: Scalar>(m: MomentsModel<S>)
    ensures
        ({
            let n = m.mean.len();
            let fault = moments_fault(m);
            &&& fault is None <==> n > 0 && is_finite_row(m.mean) && m.cov.len() == n
                && is_good_table(m.cov, n)
            &&& fault == Some(Violation::MeanEmpty) <==> n == 0
            &&& fault == Some(Violation::MeanNotFinite) <==> n > 0 && !is_finite_row(m.mean)
            &&& fault == Some(Violation::CovarianceRows) <==> n > 0 && is_finite_row(m.mean)
                && m.cov.len() != n
            &&& fault is Some ==> fault == Some(Violation::MeanEmpty) || fault == Some(
                Violation::MeanNotFinite,
            ) || fault == Some(Violation::CovarianceRows) || fault == Some(
                Violation::CovarianceNotSquare,
            ) || fault == Some(Violation::CovarianceNotFinite)
        }),
        forall|k: int|
            m.mean.len() > 0 && is_finite_row(m.mean) && m.cov.len() == m.mean.len() && 0 <= k
                < m.cov.len() && (forall|j: int|
                0 <= j < k ==> is_good_row(#[trigger] m.cov[j], m.mean.len())) && !is_good_row(
                #[trigger] m.cov[k],
                m.mean.len(),
            ) ==> moments_fault(m) == Some(
                if m.cov[k].len() != m.mean.len() {
                    Violation::CovarianceNotSquare
                } else {
                    Violation::CovarianceNotFinite
                },
            ),
{
    let n = m.mean.len();
    let k = lemma_bad_row_exists(m.cov, n, 0);
    lemma_first_bad_row(m.cov, n, 0, k);
    assert forall|k: int|
        n > 0 && is_finite_row(m.mean) && m.cov.len() == n && 0 <= k < m.cov.len() && (forall|
            j: int,
        |
            0 <= j < k ==> is_good_row(#[trigger] m.cov[j], n)) && !is_good_row(
            #[trigger] m.cov[k],
            n,
        ) implies moments_fault(m) == Some(
        if m.cov[k].len() != n {
            Violation::CovarianceNotSquare
        } else {
            Violation::CovarianceNotFinite
        },
    ) by {
        lemma_first_bad_row(m.cov, n, 0, k);
    }
}

/// An affine layer is accepted exactly where the moments are, there are weights,
/// as many biases as rows of weights, every row has a finite weight for every
/// mean, and the biases are finite; what is said otherwise is what fails first.
pub proof fn law_linear_accepted<S: Scalar>(
    m: MomentsModel<S>,
    weight: Seq<Seq<S>>,
    bias: Seq<S>,
)
    ensures
        ({
            let n = m.mean.len();
            let fault = linear_fault(m, weight, bias);
            let fits = weight.len() > 0 && bias.len() == weight.len();
            &&& fault is None <==> moments_fault(m) is None && fits && is_good_table(weight, n)
                && is_finite_row(bias)
            &&& moments_fault(m) is Some ==> fault == moments_fault(m)
            &&& moments_fault(m) is None && weight.len() == 0 ==> fault == Some(
                Violation::WeightEmpty,
            )
            &&& moments_fault(m) is None && weight.len() > 0 && bias.len() != weight.len() ==> fault
                == Some(Violation::BiasLength)
            &&& moments_fault(m) is None && fits && is_good_table(weight, n) && !is_finite_row(bias)
                ==> fault == Some(Violation::BiasNotFinite)
        }),
        forall|k: int|
            moments_fault(m) is None && weight.len() > 0 && bias.len() == weight.len() && 0 <= k
                < weight.len() && (forall|j: int|
                0 <= j < k ==> is_good_row(#[trigger] weight[j], m.mean.len())) && !is_good_row(
                #[trigger] weight[k],
                m.mean.len(),
            ) ==> linear_fault(m, weight, bias) == Some(
                if weight[k].len() != m.mean.len() {
                    Violation::WeightColumns
                } else {
                    Violation::WeightNotFinite
                },
            ),
{
    let n = m.mean.len();
    let k = lemma_bad_row_exists(weight, n, 0);
    lemma_first_bad_row(weight, n, 0, k);
    assert forall|k: int|
        moments_fault(m) is None && weight.len() > 0 && bias.len() == weight.len() && 0 <= k
            < weight.len() && (forall|j: int|
            0 <= j < k ==> is_good_row(#[trigger] weight[j], n)) && !is_good_row(
            #[trigger] weight[k],
            n,
        ) implies linear_fault(m, weight, bias) == Some(
        if weight[k].len() != n {
            Violation::WeightColumns
        } else {
            Violation::WeightNotFinite
        },
    ) by {
        lemma_first_bad_row(weight, n, 0, k);
    }
}

/// A rectifier is accepted exactly where the moments are and every variance is
/// finite and at least zero.
pub proof fn law_relu_accepted<S: Scalar>(m: MomentsModel<S>)
    ensures
        ({
            let good = forall|i: int|
                0 <= i < m.mean.len() ==> (#[trigger] m.cov[i][i]).s_finite() && S::s_int(0).s_le(
                    m.cov[i][i],
                );
            &&& moments_fault(m) is Some ==> relu_fault(m) == moments_fault(m)
            &&& moments_fault(m) is None && good ==> relu_fault(m) is None
            &&& moments_fault(m) is None && !good ==> relu_fault(m) == Some(Violation::Variance)
        }),
{
}

/// Independent inputs are accepted exactly where there are means, as many
/// deviations, the means are finite, and every deviation is finite, at least
/// zero, and has a finite square that is zero only for a zero deviation.
pub proof fn law_inputs_accepted<S: Scalar>(mean: Seq<S>, std: Seq<S>)
    ensures
        ({
            let zero = S::s_int(0);
            let good = forall|i: int|
                0 <= i < std.len() ==> (#[trigger] std[i]).s_finite() && zero.s_le(std[i])
                    && std[i].s_mul(std[i]).s_finite() && (std[i].s_mul(std[i]).s_eq(zero)
                    ==> std[i].s_eq(zero));
            let fault = input_fault(mean, std);
            &&& mean.len() == 0 ==> fault == Some(Violation::InputMeanEmpty)
            &&& mean.len() > 0 && std.len() != mean.len() ==> fault == Some(
                Violation::InputDeviationLength,
            )
            &&& mean.len() > 0 && std.len() == mean.len() && !is_finite_row(mean) ==> fault == Some(
                Violation::InputMeanNotFinite,
            )
            &&& mean.len() > 0 && std.len() == mean.len() && is_finite_row(mean) && !good ==> fault
                == Some(Violation::InputDeviation)
            &&& mean.len() > 0 && std.len() == mean.len() && is_finite_row(mean) && good ==> fault
                is None
        }),
{
    let zero = S::s_int(0);
    let good = forall|i: int|
        0 <= i < std.len() ==> (#[trigger] std[i]).s_finite() && zero.s_le(std[i]) && std[i].s_mul(
            std[i],
        ).s_finite() && (std[i].s_mul(std[i]).s_eq(zero) ==> std[i].s_eq(zero));
    if !good {
        let i = choose|i: int|
            0 <= i < std.len() && !((#[trigger] std[i]).s_finite() && zero.s_le(std[i])
                && std[i].s_mul(std[i]).s_finite() && (std[i].s_mul(std[i]).s_eq(zero)
                ==> std[i].s_eq(zero)));
        assert(!crate::vector::is_deviation(std[i]));
    }
}

/// Tensors of means and variances, of locations and scales, of means and
/// covariances fit together exactly where their sizes and their formats do.
pub proof fn law_tensors_fit<B: Backend>(a: &B::Matrix, b: &B::Matrix, c: &B::Cube)
    ensures
        ({
            let fault = diagonal::moments_fault::<B>(a, b);
            let (sizes, formats) = (B::size(a) == B::size(b), B::format(a) == B::format(b));
            &&& fault is None <==> sizes && formats
            &&& fault == Some(Violation::MomentsShapes) <==> !sizes
            &&& fault == Some(Violation::MomentsFormats) <==> sizes && !formats
        }),
        ({
            let fault = cauchy_fault::<B>(a, b);
            let (sizes, formats) = (B::size(a) == B::size(b), B::format(a) == B::format(b));
            &&& fault is None <==> sizes && formats
            &&& fault == Some(Violation::CauchyShapes) <==> !sizes
            &&& fault == Some(Violation::CauchyFormats) <==> sizes && !formats
        }),
        ({
            let fault = full_fault::<B>(a, c);
            let sizes = B::size3(c).0 == B::size(a).0 && B::size3(c).1 == B::size(a).1
                && B::size3(c).2 == B::size(a).1;
            let formats = B::format3(c) == B::format(a);
            &&& fault is None <==> sizes && formats
            &&& fault == Some(Violation::CovarianceShape) <==> !sizes
            &&& fault == Some(Violation::CovarianceFormats) <==> sizes && !formats
        }),
        ({
            let fault = diagonal_fault::<B>(a, b);
            let fits = B::size(a) == B::size(b) && B::format(a) == B::format(b);
            let d = B::size(a).1;
            &&& fault is None <==> fits && d * d <= usize::MAX
            &&& fits && d * d > usize::MAX ==> fault == Some(Violation::FeatureCount)
            &&& !fits ==> fault == diagonal::moments_fault::<B>(a, b)
        }),
{
}

/// A feature count has an identity matrix exactly where its square can be
/// counted.
pub proof fn law_width_accepted(d: nat)
    ensures
        width_fault(d) is None <==> d * d <= usize::MAX,
        width_fault(d) is Some ==> width_fault(d) == Some(Violation::FeatureCount),
{
}

/// An affine map is accepted exactly where the input has as many columns as the
/// weight has rows, the bias as many entries as the weight has columns, and all
/// have one format.
pub proof fn law_affine_accepted<B: Backend>(
    input: &B::Matrix,
    weight: &B::Matrix,
    bias: Option<B::Vector>,
)
    ensures
        ({
            let fault = affine_fault::<B>(input, weight, bias);
            let width = B::size(input).1 == B::size(weight).0;
            let format = B::format(input) == B::format(weight);
            let bias_width = bias is None || B::len(&bias->Some_0) == B::size(weight).1;
            let bias_format = bias is None || B::vector_format(&bias->Some_0) == B::format(input);
            &&& fault is None <==> width && format && bias_width && bias_format
            &&& !width ==> fault == Some(Violation::InputWidth)
            &&& width && !format ==> fault == Some(Violation::OperandFormats)
            &&& width && format && !bias_width ==> fault == Some(Violation::BiasWidth)
            &&& width && format && bias_width && !bias_format ==> fault == Some(
                Violation::OperandFormats,
            )
        }),
{
}

/// An affine map with uncertain parameters is accepted exactly where means and
/// variances of the parameters have the same sizes, these fit the input, and all
/// have one format.
pub proof fn law_bayes_accepted<B: Backend>(
    m: &Moments<B>,
    w_mean: &B::Matrix,
    w_var: &B::Matrix,
    bias: Option<(B::Vector, B::Vector)>,
)
    ensures
        ({
            let fault = bayes_fault::<B>(m, w_mean, w_var, bias);
            let f = B::format(&m.mean);
            let shapes = B::size(w_mean) == B::size(w_var);
            let width = B::size(&m.mean).1 == B::size(w_mean).0;
            let format = f == B::format(w_mean) && f == B::format(w_var);
            let bias_shapes = bias is None || B::len(&bias->Some_0.0) == B::len(&bias->Some_0.1);
            let bias_width = bias is None || B::len(&bias->Some_0.0) == B::size(w_mean).1;
            let bias_format = bias is None || (B::vector_format(&bias->Some_0.0) == f
                && B::vector_format(&bias->Some_0.1) == f);
            &&& fault is None <==> shapes && width && format && bias_shapes && bias_width
                && bias_format
            &&& !shapes ==> fault == Some(Violation::WeightShapes)
            &&& shapes && !width ==> fault == Some(Violation::InputWidth)
            &&& shapes && width && !format ==> fault == Some(Violation::OperandFormats)
            &&& shapes && width && format && !bias_shapes ==> fault == Some(Violation::BiasShapes)
            &&& shapes && width && format && bias_shapes && !bias_width ==> fault == Some(
                Violation::BiasWidths,
            )
            &&& shapes && width && format && bias_shapes && bias_width && !bias_format ==> fault
                == Some(Violation::OperandFormats)
        }),
{
}

/// Left products, residuals and cross-covariances are accepted exactly where the
/// sizes and then the formats of their operands fit.
pub proof fn law_operands_accepted<B: Backend>(
    a: &B::Matrix,
    m: &Moments<B>,
    n: &Moments<B>,
    cross: &B::Matrix,
    cube: &B::Cube,
)
    ensures
        ({
            let fault = left_fault::<B>(a, m);
            let (size, format) = (
                B::size(a).1 == B::size(&m.mean).0,
                B::format(a) == B::format(&m.mean),
            );
            &&& fault is None <==> size && format
            &&& !size ==> fault == Some(Violation::InputWidth)
            &&& size && !format ==> fault == Some(Violation::OperandFormats)
        }),
        ({
            let fault = residual_fault::<B>(m, n);
            let (size, format) = (
                B::size(&m.mean) == B::size(&n.mean),
                B::format(&m.mean) == B::format(&n.mean),
            );
            &&& fault is None <==> size && format
            &&& !size ==> fault == Some(Violation::ResidualShapes)
            &&& size && !format ==> fault == Some(Violation::OperandFormats)
        }),
        ({
            let fault = correlated_fault::<B>(m, n, cross);
            let size = B::size(&m.mean) == B::size(&n.mean);
            let shared = B::size(&m.mean) == B::size(cross);
            let format = B::format(&m.mean) == B::format(&n.mean) && B::format(&m.mean)
                == B::format(cross);
            &&& fault is None <==> size && shared && format
            &&& !size ==> fault == Some(Violation::ResidualShapes)
            &&& size && !shared ==> fault == Some(Violation::ResidualCrossShape)
            &&& size && shared && !format ==> fault == Some(Violation::OperandFormats)
        }),
        ({
            let fault = cross_linear_fault::<B>(cube, a);
            let (size, format) = (B::size3(cube).2 == B::size(a).0, B::format3(cube) == B::format(a));
            &&& fault is None <==> size && format
            &&& !size ==> fault == Some(Violation::CrossWeight)
            &&& size && !format ==> fault == Some(Violation::OperandFormats)
        }),
        ({
            let fault = cross_relu_fault::<B>(cube, m);
            let mean = B::size(&m.mean).0 == B::size3(cube).0 && B::size(&m.mean).1 == B::size3(
                cube,
            ).2;
            let var = B::size(&m.var).0 == B::size3(cube).0 && B::size(&m.var).1 == B::size3(
                cube,
            ).2;
            let format = B::format(&m.mean) == B::format3(cube) && B::format(&m.var) == B::format3(
                cube,
            );
            &&& fault is None <==> mean && var && format
            &&& !mean ==> fault == Some(Violation::CrossMean)
            &&& mean && !var ==> fault == Some(Violation::CrossVariance)
            &&& mean && var && !format ==> fault == Some(Violation::OperandFormats)
        }),
{
}

/// A convolution is accepted exactly where mean and variance have one size, the
/// kernel fits the input and the bias the kernel, and all have one format. A
/// kernel fits where the channels divide into groups and, along both axes, the
/// stride and the dilation are positive and the dilated kernel is not empty and
/// not longer than the padded input.
pub proof fn law_convolution_accepted<B: Backend>(
    mean: &B::Image,
    var: &B::Image,
    weight: &B::Image,
    bias: Option<B::Vector>,
    options: ConvOptions,
)
    ensures
        ({
            let fault = conv_fault::<B>(mean, var, weight, bias, options);
            let (x, w, f) = (B::size4(mean), B::size4(weight), B::format4(mean));
            let (s, d, p) = (options.stride, options.dilation, options.padding);
            let shapes = x == B::size4(var);
            let grouped = options.groups > 0 && w.1 * options.groups == x.1 && w.0 % (
            options.groups as nat) == 0;
            let down = s.0 > 0 && d.0 > 0 && w.2 > 0 && d.0 * (w.2 - 1) + 1 <= x.2 + 2 * p.0 && x.2
                + 2 * p.0 <= usize::MAX;
            let across = s.1 > 0 && d.1 > 0 && w.3 > 0 && d.1 * (w.3 - 1) + 1 <= x.3 + 2 * p.1
                && x.3 + 2 * p.1 <= usize::MAX;
            let width = bias is None || B::len(&bias->Some_0) == w.0;
            let fits = grouped && down && across && width;
            let format = f == B::format4(var) && f == B::format4(weight) && (bias is None
                || B::vector_format(&bias->Some_0) == f);
            &&& conv_fits(x, w, options) <==> grouped && down && across
            &&& fault is None <==> shapes && fits && format
            &&& !shapes ==> fault == Some(Violation::ConvolutionShapes)
            &&& shapes && !fits ==> fault == Some(Violation::ConvolutionFit)
            &&& shapes && fits && !format ==> fault == Some(Violation::OperandFormats)
        }),
{
}

/// Whether a coefficient is finite, at most the largest number of a format in
/// magnitude, and not lost in the step to a tensor entry.
pub open spec fn is_kept<M: Model>(f: Format, x: M::Elem, may_vanish: bool) -> bool {
    &&& x.s_finite()
    &&& x.s_abs().s_le(M::largest(f))
    &&& M::cast(f, x).s_eq(M::Elem::s_int(0)) ==> may_vanish
}

/// A slope is accepted exactly where it is finite, and its five coefficients
/// `a`, `1 - a`, `a^2`, `(1 - a)^2` and `2 a (1 - a)` are kept in the format,
/// those that the slope makes zero excepted.
pub proof fn law_slope_accepted<M: Model>(f: Format, a: M::Elem)
    ensures
        ({
            let none = a.s_eq(M::Elem::s_int(0));
            let full = a.s_eq(M::Elem::s_int(1));
            let rest = M::Elem::s_int(1).s_sub(a);
            let kept = is_kept::<M>(f, a, none) && is_kept::<M>(f, rest, full) && is_kept::<M>(
                f,
                a.s_mul(a),
                none,
            ) && is_kept::<M>(f, rest.s_mul(rest), full) && is_kept::<M>(
                f,
                M::Elem::s_int(2).s_mul(a).s_mul(rest),
                none || full,
            );
            &&& slope_fault::<M>(f, a) is None <==> a.s_finite() && kept
            &&& slope_fault::<M>(f, a) == Some(Violation::Slope) <==> !a.s_finite()
            &&& slope_fault::<M>(f, a) == Some(Violation::SlopeCoefficients) <==> a.s_finite()
                && !kept
        }),
{
}

} // verus!
