//! Covariance between two variables, carried through maps of the right one.
use vstd::prelude::*;

use crate::backend::{Backend, Format};
use crate::burn_sdp::diagonal::Moments;
use crate::burn_sdp::full::times_matrix;
use crate::burn_sdp::rectify::{bounded_relu_alpha, central_masses, densities, tail_masses};
use crate::scalar::Scalar;
use crate::violation::Violation;

verus! {

use crate::backend::{block, constant, grid, Model};
use crate::burn_sdp::full::{covariance_gate, right_product};
use crate::burn_sdp::rectify::is_fixed;
use crate::tensor::{both, group_tables, lemma_block_ext, lemma_both_ext, stack, Block, Grid};

/// What keeps a cross-covariance from an affine map of the right variable, if
/// anything.
pub open spec fn cross_linear_fault<B: Backend>(cross_cov: &B::Cube, weight: &B::Matrix) -> Option<
    Violation,
> {
    if B::size3(cross_cov).2 != B::size(weight).0 {
        Some(Violation::CrossWeight)
    } else if B::format3(cross_cov) != B::format(weight) {
        Some(Violation::OperandFormats)
    } else {
        None
    }
}

/// What keeps a cross-covariance from an affine map of the right variable, if
/// anything.
pub fn check_cross_linear<B: Backend>(cross_cov: &B::Cube, weight: &B::Matrix) -> (r: Option<
    Violation,
>)
    ensures
        r == cross_linear_fault::<B>(cross_cov, weight),
{
    if B::dims3(cross_cov).2 != B::dims(weight).0 {
        Some(Violation::CrossWeight)
    } else if B::format_of3(cross_cov) != B::format_of(weight) {
        Some(Violation::OperandFormats)
    } else {
        None
    }
}

/// Transport `Cov(U, V)` through an affine map of the right variable,
/// `Y = V W + b`: `Cov(U, Y) = Cov(U, V) W`.
///
/// `cross_cov` is `[n, d_left, d_in]`, with the left variable on the first
/// feature axis; `weight` is `[d_in, d_out]`. The bias does not affect
/// covariance. This identity is exact for any joint distribution with finite
/// second moments.
pub fn propagate_linear_cross_covariance<B: Backend>(
    cross_cov: B::Cube,
    weight: B::Matrix,
) -> (r: B::Cube)
    requires
        cross_linear_fault::<B>(&cross_cov, &weight) is None,
    ensures
        B::format3(&r) == B::format3(&cross_cov),
        block::<B>(&r) == right_product::<B>(block::<B>(&cross_cov), grid::<B>(&weight)),
{
    times_matrix::<B>(&cross_cov, &weight)
}

/// What keeps a cross-covariance from a rectifier of the right variable, if
/// anything.
pub open spec fn cross_relu_fault<B: Backend>(cross_cov: &B::Cube, right: &Moments<B>) -> Option<
    Violation,
> {
    let size = (B::size3(cross_cov).0, B::size3(cross_cov).2);
    if B::size(&right.mean) != size {
        Some(Violation::CrossMean)
    } else if B::size(&right.var) != size {
        Some(Violation::CrossVariance)
    } else if B::format(&right.mean) != B::format3(cross_cov) || B::format(&right.var)
        != B::format3(cross_cov) {
        Some(Violation::OperandFormats)
    } else {
        None
    }
}

/// What keeps a cross-covariance from a rectifier of the right variable, if
/// anything.
pub fn check_cross_relu<B: Backend>(cross_cov: &B::Cube, right: &Moments<B>) -> (r: Option<
    Violation,
>)
    ensures
        r == cross_relu_fault::<B>(cross_cov, right),
{
    let c = B::dims3(cross_cov);
    let m = B::dims(&right.mean);
    let v = B::dims(&right.var);
    let format = B::format_of3(cross_cov);
    if m.0 != c.0 || m.1 != c.2 {
        Some(Violation::CrossMean)
    } else if v.0 != c.0 || v.1 != c.2 {
        Some(Violation::CrossVariance)
    } else if B::format_of(&right.mean) != format || B::format_of(&right.var) != format {
        Some(Violation::OperandFormats)
    } else {
        None
    }
}

/// The factor that a rectifier of the right variable puts on a covariance: the
/// probability that the variable is positive, zero where it is fixed.
pub open spec fn cross_gate<M: Model>(f: Format, mu: M::Elem, v: M::Elem) -> M::Elem {
    if is_fixed::<M>(f, v) {
        constant::<M>(f, 0)
    } else {
        covariance_gate::<M>(f, mu, v)
    }
}

/// Every covariance times its right feature's gate.
pub open spec fn gated<M: Model>(
    f: Format,
    cross_cov: Block<M::Elem>,
    mean: Grid<M::Elem>,
    var: Grid<M::Elem>,
) -> Block<M::Elem> {
    stack(
        cross_cov.layers,
        cross_cov.rows,
        cross_cov.cols,
        |b: int, i: int, j: int|
            cross_cov.at(b, i, j).s_mul(cross_gate::<M>(f, mean.at(b, j), var.at(b, j))),
    )
}

/// The gates of the right features. Only the distribution function is needed
/// here, so no rectified moments are evaluated.
fn cross_gates<B: Backend>(mean: &B::Matrix, var: &B::Matrix) -> (r: B::Matrix)
    requires
        B::size(mean) == B::size(var),
        B::format(mean) == B::format(var),
    ensures
        B::format(&r) == B::format(mean),
        grid::<B>(&r) == both(
            grid::<B>(mean),
            grid::<B>(var),
            |m: B::Elem, v: B::Elem| cross_gate::<B>(B::format(mean), m, v),
        ),
{
    broadcast use group_tables;

    let deterministic = B::is_at_most(var, B::Elem::whole(0));
    let safe = B::fill(var, &deterministic, B::Elem::whole(1));
    let sigma = B::root(&safe);
    let alpha = bounded_relu_alpha::<B>(mean, &sigma);
    let phi = densities::<B>(&alpha);
    let (tail_p, _, _) = tail_masses::<B>(&alpha, &phi);
    let central = central_masses::<B>(&alpha);
    let tail = B::is_below(&alpha, B::Elem::whole(-2));
    let active = B::is_at_least(&alpha, B::Elem::whole(8));
    let inactive = B::is_at_most(&alpha, B::Elem::whole(-8));
    let smooth = B::select(&central, &tail, &tail_p);
    let opened = B::fill(&smooth, &active, B::Elem::whole(1));
    let closed_gate = B::fill(&opened, &inactive, B::Elem::whole(0));
    let r = B::fill(&closed_gate, &deterministic, B::Elem::whole(0));
    proof {
        lemma_both_ext(
            grid::<B>(&r),
            grid::<B>(mean),
            grid::<B>(var),
            |m: B::Elem, v: B::Elem| cross_gate::<B>(B::format(mean), m, v),
        );
    }
    r
}

/// Transport `Cov(U, V)` through a rectifier of the right variable.
///
/// For jointly Gaussian `(U, V)`, Gaussian integration by parts gives
/// `Cov(U, ReLU(V)) = Cov(U, V) diag(Phi(mean_V / std_V))`. Only the right
/// marginal means and variances are needed. A deterministic right feature has a
/// zero covariance column. The rectifier makes the joint distribution
/// non-Gaussian: another use of this identity is then an approximation.
pub fn propagate_relu_cross_covariance<B: Backend>(cross_cov: B::Cube, right: &Moments<B>) -> (r:
    B::Cube)
    requires
        cross_relu_fault::<B>(&cross_cov, right) is None,
    ensures
        B::format3(&r) == B::format3(&cross_cov),
        block::<B>(&r) == gated::<B>(
            B::format3(&cross_cov),
            block::<B>(&cross_cov),
            grid::<B>(&right.mean),
            grid::<B>(&right.var),
        ),
{
    broadcast use group_tables;

    let (_, d_left, _) = B::dims3(&cross_cov);
    let gates = cross_gates::<B>(&right.mean, &right.var);
    let wide = B::down(&gates, d_left);
    let r = B::times3(&cross_cov, &wide);
    proof {
        lemma_block_ext(
            block::<B>(&r),
            gated::<B>(
                B::format3(&cross_cov),
                block::<B>(&cross_cov),
                grid::<B>(&right.mean),
                grid::<B>(&right.var),
            ),
        );
    }
    r
}

} // verus!
