//! Heavy-tailed features without finite moments.
use vstd::prelude::*;

use crate::backend::{Backend, Format};
use crate::burn_sdp::diagonal::affine_map;
use crate::scalar::Scalar;
use crate::violation::Violation;

verus! {

use crate::backend::{constant, grid, product, raised, sign_of, Model};
use crate::burn_sdp::diagonal::{affine, affine_fault, bias_of};
use crate::tensor::{both, each, group_tables, lemma_both_ext, lemma_grid_ext, Grid};

/// Independent Cauchy distributions per feature: `location` and `scale`,
/// `[n, d]`.
///
/// Cauchy has no finite mean or variance, so its location (the median) and
/// scale are propagated. Mixing creates dependence between outputs that this
/// type does not represent.
#[derive(Clone, Debug)]
pub struct Cauchy<B: Backend> {
    pub location: B::Matrix,
    pub scale: B::Matrix,
}

/// What keeps a location and a scale from making up Cauchy distributions, if
/// anything.
pub open spec fn cauchy_fault<B: Backend>(location: &B::Matrix, scale: &B::Matrix) -> Option<
    Violation,
> {
    if B::size(location) != B::size(scale) {
        Some(Violation::CauchyShapes)
    } else if B::format(location) != B::format(scale) {
        Some(Violation::CauchyFormats)
    } else {
        None
    }
}

/// What keeps a location and a scale from making up Cauchy distributions, if
/// anything.
pub fn check_cauchy<B: Backend>(location: &B::Matrix, scale: &B::Matrix) -> (r: Option<Violation>)
    ensures
        r == cauchy_fault::<B>(location, scale),
{
    let a = B::dims(location);
    let b = B::dims(scale);
    if a.0 != b.0 || a.1 != b.1 {
        Some(Violation::CauchyShapes)
    } else if B::format_of(location) != B::format_of(scale) {
        Some(Violation::CauchyFormats)
    } else {
        None
    }
}

/// The half-width of the central interval of mass `p` at scale one,
/// `tan(pi p / 2)`.
pub open spec fn interval_coefficient<S: Scalar>(p: S) -> S {
    S::s_pi().s_mul(p).s_div(S::s_int(2)).s_tan()
}

/// Whether a number survives the step to a tensor entry of format `f`: it stays
/// finite and, unless it `may_vanish`, does not become zero.
pub open spec fn storable<M: Model>(f: Format, x: M::Elem, may_vanish: bool) -> bool {
    &&& x.s_finite()
    &&& M::cast(f, x).s_finite()
    &&& may_vanish || !M::cast(f, x).s_eq(M::Elem::s_int(0))
}

/// Whether a number survives the step to a tensor entry of format `f`.
fn is_storable<B: Backend>(f: Format, x: B::Elem, may_vanish: bool) -> (r: bool)
    ensures
        r == storable::<B>(f, x, may_vanish),
{
    let entry = B::narrowed(f, x);
    x.finite() && entry.finite() && (may_vanish || !entry.equals(B::Elem::whole(0)))
}

/// What keeps an interval of mass `p` from being read off tensors of format
/// `f`, if anything. The coefficient may be zero only at mass zero.
pub open spec fn interval_fault<M: Model>(f: Format, p: M::Elem) -> Option<Violation> {
    if !(p.s_finite() && M::Elem::s_int(0).s_le(p) && p.s_lt(M::Elem::s_int(1))) {
        Some(Violation::ProbabilityMass)
    } else if !storable::<M>(f, interval_coefficient(p), p.s_eq(M::Elem::s_int(0))) {
        Some(Violation::IntervalCoefficient)
    } else {
        None
    }
}

/// What keeps an interval of mass `p` from being read off tensors of format
/// `f`, if anything.
pub fn check_interval<B: Backend>(f: Format, p: B::Elem) -> (r: Option<Violation>)
    ensures
        r == interval_fault::<B>(f, p),
{
    if !(p.finite() && B::Elem::whole(0).at_most(p) && p.less(B::Elem::whole(1))) {
        return Some(Violation::ProbabilityMass);
    }
    let coefficient = B::Elem::pi().times(p).over(B::Elem::whole(2)).tangent();
    if !is_storable::<B>(f, coefficient, p.equals(B::Elem::whole(0))) {
        Some(Violation::IntervalCoefficient)
    } else {
        None
    }
}

impl<B: Backend> Cauchy<B> {
    /// Whether location and scale have the same size and format.
    pub open spec fn wf(&self) -> bool {
        cauchy_fault::<B>(&self.location, &self.scale) is None
    }

    /// Construct matching location and scale tensors; contents are not checked.
    pub fn new(location: B::Matrix, scale: B::Matrix) -> (r: Self)
        requires
            cauchy_fault::<B>(&location, &scale) is None,
        ensures
            r.location == location,
            r.scale == scale,
            r.wf(),
    {
        Cauchy { location, scale }
    }

    /// Half-width of the nominal symmetric central Cauchy interval,
    /// `scale * tan(pi p / 2)`.
    ///
    /// This interval has mass `p` for a nondegenerate Cauchy marginal. After
    /// [`propagate_relu_cauchy`] it describes the local approximation.
    pub fn interval_halfwidth(&self, p: B::Elem) -> (r: B::Matrix)
        requires
            interval_fault::<B>(B::format(&self.scale), p) is None,
        ensures
            B::format(&r) == B::format(&self.scale),
            grid::<B>(&r) == each(
                grid::<B>(&self.scale),
                |s: B::Elem|
                    s.s_mul(B::cast(B::format(&self.scale), interval_coefficient(p))),
            ),
            forall|i: int, j: int|
                grid::<B>(&self.scale).has(i, j) ==> #[trigger] grid::<B>(&r).at(i, j) == grid::<B>(
                    &self.scale,
                ).at(i, j).s_mul(
                    B::cast(
                        B::format(&self.scale),
                        B::Elem::s_pi().s_mul(p).s_div(B::Elem::s_int(2)).s_tan(),
                    ),
                ),
    {
        broadcast use group_tables;

        let coefficient = B::Elem::pi().times(p).over(B::Elem::whole(2)).tangent();
        B::scaled(&self.scale, coefficient)
    }
}

/// The entries without their signs.
pub open spec fn magnitudes<S: Scalar>(m: Grid<S>) -> Grid<S> {
    each(m, |x: S| x.s_abs())
}

/// Cauchy propagation through `y = x W + b`: the location maps linearly, and
/// scales add under absolute weights, `scale_out = scale @ |W|`.
///
/// Exact for independent Cauchy input marginals; dependencies between features
/// are not represented.
pub fn propagate_linear_cauchy<B: Backend>(
    c: &Cauchy<B>,
    weight: B::Matrix,
    bias: Option<B::Vector>,
) -> (r: Cauchy<B>)
    requires
        c.wf(),
        affine_fault::<B>(&c.location, &weight, bias) is None,
    ensures
        r.wf(),
        B::format(&r.location) == B::format(&c.location),
        grid::<B>(&r.location) == affine::<B>(
            grid::<B>(&c.location),
            grid::<B>(&weight),
            bias_of::<B>(bias),
        ),
        grid::<B>(&r.scale) == product::<B>(grid::<B>(&c.scale), magnitudes(grid::<B>(&weight))),
{
    broadcast use group_tables;

    let location = affine_map::<B>(&c.location, &weight, &bias);
    let absolute = B::magnitude(&weight);
    let scale = B::matmul(&c.scale, &absolute);
    Cauchy { location, scale }
}

/// The location without its negative part, in format `f`.
pub open spec fn rectified<M: Model>(f: Format, x: M::Elem) -> M::Elem {
    raised(x, constant::<M>(f, 0))
}

/// Approximate the rectifier with a local gate on location and scale.
///
/// Its gate is one at positive locations and zero otherwise, including at zero.
/// The location is rectified and the scale is gated. The rectifier of a
/// nondegenerate Cauchy variable is not Cauchy; the returned parameters
/// describe this local approximation.
pub fn propagate_relu_cauchy<B: Backend>(c: &Cauchy<B>) -> (r: Cauchy<B>)
    requires
        c.wf(),
    ensures
        r.wf(),
        B::format(&r.location) == B::format(&c.location),
        grid::<B>(&r.location) == each(
            grid::<B>(&c.location),
            |x: B::Elem| rectified::<B>(B::format(&c.location), x),
        ),
        grid::<B>(&r.scale) == both(
            grid::<B>(&c.location),
            grid::<B>(&c.scale),
            |x: B::Elem, s: B::Elem|
                s.s_mul(
                    sign_of::<B>(
                        B::format(&c.location),
                        rectified::<B>(B::format(&c.location), x),
                    ),
                ),
        ),
{
    broadcast use group_tables;

    let location = B::raised_to(&c.location, B::Elem::whole(0));
    let gate = B::sign(&location);
    let scale = B::times(&c.scale, &gate);
    proof {
        lemma_grid_ext(
            grid::<B>(&location),
            each(
                grid::<B>(&c.location),
                |x: B::Elem| rectified::<B>(B::format(&c.location), x),
            ),
        );
        lemma_both_ext(
            grid::<B>(&scale),
            grid::<B>(&c.location),
            grid::<B>(&c.scale),
            |x: B::Elem, s: B::Elem|
                s.s_mul(
                    sign_of::<B>(
                        B::format(&c.location),
                        rectified::<B>(B::format(&c.location), x),
                    ),
                ),
        );
    }
    Cauchy { location, scale }
}

} // verus!
