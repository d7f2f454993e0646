//! Laws of Cauchy locations and scales.
use vstd::prelude::*;

use crate::backend::Format;
use crate::scalar::Scalar;
use crate::violation::Violation;

verus! {

use crate::backend::{constant, sign_of, Model};
use crate::burn_sdp::cauchy::{interval_coefficient, interval_fault, rectified};
use crate::laws::arithmetic::{
    div_zero, equality_fits, field_cancel, field_div, is_total, is_zero, mul_one, mul_zero,
    ring_add_comm, ring_dist, ring_mul_comm, ring_units, ring_zero, same,
};
use crate::laws::moments::lemma_half_of;
use crate::laws::ordered::{is_ordered_field, ord_add, ord_cases, ord_ints, ord_scale};
use crate::laws::positive::div_positive;
use crate::laws::stein::lemma_mul_shuffle;
use crate::laws::tensors::{
    casts_nothing, lemma_cast, lemma_cast_units, lemma_units, tensor_neutral,
};
use crate::scalar::half;
use crate::tensor::{each, group_tables, Grid};

/// At a positive location the rectifier changes nothing.
pub proof fn law_cauchy_positive<M: Model>(f: Format, location: M::Elem, scale: M::Elem)
    requires
        tensor_neutral::<M>(f),
        is_total::<M::Elem>(),
        constant::<M>(f, 0).s_lt(location),
    ensures
        rectified::<M>(f, location) == location,
        same(scale.s_mul(sign_of::<M>(f, rectified::<M>(f, location))), scale),
{
    lemma_units::<M>(f);
    reveal(is_total);
    mul_one(scale, constant::<M>(f, 1));
}

/// At a location that is not positive the rectifier gives location and scale
/// zero.
pub proof fn law_cauchy_not_positive<M: Model>(f: Format, location: M::Elem, scale: M::Elem)
    requires
        tensor_neutral::<M>(f),
        is_total::<M::Elem>(),
        !constant::<M>(f, 0).s_lt(location),
        location.s_finite(),
        scale.s_finite(),
    ensures
        is_zero(rectified::<M>(f, location)),
        is_zero(scale.s_mul(sign_of::<M>(f, rectified::<M>(f, location)))),
{
    let zero = constant::<M>(f, 0);
    lemma_units::<M>(f);
    reveal(is_total);
    let x = rectified::<M>(f, location);
    assert(is_zero(x));
    assert(x.s_eq(zero)) by {
        reveal(equality_fits);
    }
    mul_zero(scale, zero);
}

/// Whether the tangent of zero is zero, and the circle constant is finite.
#[verifier::opaque]
pub open spec fn tangent_fits<S: Scalar>() -> bool {
    &&& forall|z: S| is_zero(z) ==> is_zero(#[trigger] z.s_tan())
    &&& S::s_pi().s_finite()
    &&& S::s_int(0).s_lt(S::s_int(2))
}

/// The central interval of mass zero has width zero.
pub proof fn law_empty_interval<M: Model>(f: Format, p: M::Elem, scale: M::Elem)
    requires
        tensor_neutral::<M>(f),
        tangent_fits::<M::Elem>(),
        is_zero(p),
        scale.s_finite(),
    ensures
        is_zero(scale.s_mul(M::cast(f, interval_coefficient(p)))),
{
    reveal(tangent_fits);
    mul_zero(M::Elem::s_pi(), p);
    div_zero(M::Elem::s_pi().s_mul(p), M::Elem::s_int(2));
    lemma_cast_units::<M>(f, interval_coefficient(p));
    mul_zero(scale, M::cast(f, interval_coefficient(p)));
}

/// The half-width of the central interval of mass `p` is the scale times the
/// tangent of `pi p / 2`, in every row and for every feature.
pub proof fn law_interval_entries<M: Model>(
    f: Format,
    scale: Grid<M::Elem>,
    p: M::Elem,
    i: int,
    j: int,
)
    requires
        scale.has(i, j),
    ensures
        halfwidths::<M>(f, scale, p).dims() == scale.dims(),
        halfwidths::<M>(f, scale, p).at(i, j) == scale.at(i, j).s_mul(
            M::cast(f, M::Elem::s_pi().s_mul(p).s_div(M::Elem::s_int(2)).s_tan()),
        ),
{
    broadcast use group_tables;

}

/// The half-widths of the central intervals of mass `p`.
pub open spec fn halfwidths<M: Model>(f: Format, scale: Grid<M::Elem>, p: M::Elem) -> Grid<
    M::Elem,
> {
    each(scale, |s: M::Elem| s.s_mul(M::cast(f, interval_coefficient(p))))
}

/// Whether `arctan` undoes the tangent between zero and a quarter turn.
pub open spec fn undoes_tangent<S: Scalar>(arctan: spec_fn(S) -> S) -> bool {
    forall|x: S|
        S::s_int(0).s_le(x) && x.s_lt(S::s_pi().s_div(S::s_int(2))) ==> #[trigger] arctan(x.s_tan())
            == x
}

/// Half of the circle constant times a number from zero to one.
proof fn lemma_angle<S: Scalar>(p: S)
    requires
        is_ordered_field::<S>(),
        S::s_int(0).s_lt(S::s_pi()),
        S::s_int(0).s_le(p),
        p.s_lt(S::s_int(1)),
    ensures
        ({
            let x = S::s_pi().s_mul(p).s_div(S::s_int(2));
            &&& S::s_int(0).s_le(x)
            &&& x.s_lt(S::s_pi().s_div(S::s_int(2)))
            &&& x.s_add(x) == S::s_pi().s_mul(p)
            &&& S::s_int(0).s_lt(p) ==> S::s_int(0).s_lt(x)
        }),
{
    let (zero, one, two, pi) = (S::s_int(0), S::s_int(1), S::s_int(2), S::s_pi());
    let h = half::<S>();
    ord_ints::<S>(0, 2);
    ord_ints::<S>(0, 1);
    div_positive(one, two);
    lemma_half_of(pi.s_mul(p));
    lemma_half_of(pi);
    ring_zero(pi);
    ring_zero(h);
    ring_units(pi);
    ord_scale(pi, zero, p);
    ord_scale(pi, p, one);
    ord_scale(h, zero, pi.s_mul(p));
    ord_scale(h, pi.s_mul(p), pi);
    ord_cases(zero, p);
    ord_cases(zero, zero);
    ord_cases(zero, pi.s_mul(p).s_div(two));
}

/// The mass within the half-width is the mass that was asked for: an interval of
/// `x` scales on either side of the median holds `2 arctan(x) / pi` of a Cauchy
/// distribution, so twice the arc tangent of half-width over scale is `pi p`.
pub proof fn law_interval_holds_its_mass<M: Model>(
    f: Format,
    scale: Grid<M::Elem>,
    p: M::Elem,
    arctan: spec_fn(M::Elem) -> M::Elem,
    i: int,
    j: int,
)
    requires
        is_ordered_field::<M::Elem>(),
        casts_nothing::<M>(f),
        M::Elem::s_int(0).s_lt(M::Elem::s_pi()),
        undoes_tangent(arctan),
        M::Elem::s_int(0).s_le(p),
        p.s_lt(M::Elem::s_int(1)),
        scale.has(i, j),
        M::Elem::s_int(0).s_lt(scale.at(i, j)),
    ensures
        ({
            let x = halfwidths::<M>(f, scale, p).at(i, j).s_div(scale.at(i, j));
            arctan(x).s_add(arctan(x)) == M::Elem::s_pi().s_mul(p)
        }),
{
    law_interval_entries::<M>(f, scale, p, i, j);
    let s = scale.at(i, j);
    let c = M::Elem::s_pi().s_mul(p).s_div(M::Elem::s_int(2)).s_tan();
    lemma_cast::<M>(f, c);
    lemma_angle(p);
    ord_cases(M::Elem::s_int(0), s);
    field_div(s.s_mul(c), s);
    ring_mul_comm(s, c);
    field_cancel(s.s_mul(c).s_div(s), c, s);
}

/// Whether the tangents of two angles that make up a quarter turn are
/// reciprocal.
pub open spec fn tangents_are_reciprocal<S: Scalar>() -> bool {
    forall|x: S, y: S|
        S::s_int(0).s_lt(x) && S::s_int(0).s_lt(y) && x.s_add(y) == S::s_pi().s_div(S::s_int(2))
            ==> #[trigger] x.s_tan().s_mul(y.s_tan()) == S::s_int(1)
}

/// The half-widths of two masses that add up to one have the scale as their
/// geometric mean.
pub proof fn law_intervals_of_complements<M: Model>(
    f: Format,
    scale: Grid<M::Elem>,
    p: M::Elem,
    q: M::Elem,
    i: int,
    j: int,
)
    requires
        is_ordered_field::<M::Elem>(),
        casts_nothing::<M>(f),
        M::Elem::s_int(0).s_lt(M::Elem::s_pi()),
        tangents_are_reciprocal::<M::Elem>(),
        M::Elem::s_int(0).s_lt(p),
        M::Elem::s_int(0).s_lt(q),
        p.s_add(q) == M::Elem::s_int(1),
        scale.has(i, j),
    ensures
        halfwidths::<M>(f, scale, p).at(i, j).s_mul(halfwidths::<M>(f, scale, q).at(i, j))
            == scale.at(i, j).s_mul(scale.at(i, j)),
{
    let (zero, one, two, pi) = (
        M::Elem::s_int(0),
        M::Elem::s_int(1),
        M::Elem::s_int(2),
        M::Elem::s_pi(),
    );
    law_interval_entries::<M>(f, scale, p, i, j);
    law_interval_entries::<M>(f, scale, q, i, j);
    let s = scale.at(i, j);
    let (x, y) = (pi.s_mul(p).s_div(two), pi.s_mul(q).s_div(two));
    lemma_cast::<M>(f, x.s_tan());
    lemma_cast::<M>(f, y.s_tan());
    // Each is less than one.
    ord_add(zero, q, p);
    ord_add(zero, p, q);
    ring_add_comm(p, q);
    ring_units(p);
    ring_units(q);
    ord_cases(zero, p);
    ord_cases(zero, q);
    lemma_angle(p);
    lemma_angle(q);
    lemma_half_of(pi.s_mul(p));
    lemma_half_of(pi.s_mul(q));
    lemma_half_of(pi);
    let h = half::<M::Elem>();
    ring_dist(h, pi.s_mul(p), pi.s_mul(q));
    ring_dist(pi, p, q);
    ring_units(pi);
    assert(x.s_add(y) == pi.s_div(two));
    assert(x.s_tan().s_mul(y.s_tan()) == one);
    lemma_mul_shuffle(s, x.s_tan(), s, y.s_tan());
    ring_units(s.s_mul(s));
}

/// What keeps an interval from being read off: the mass must be finite, at least
/// zero and less than one, and the tangent of `pi p / 2` must be finite before
/// and after the step to a tensor entry, and vanish there only for mass zero.
pub proof fn law_interval_accepted<M: Model>(f: Format, p: M::Elem)
    ensures
        ({
            let t = M::Elem::s_pi().s_mul(p).s_div(M::Elem::s_int(2)).s_tan();
            let zero = M::Elem::s_int(0);
            let is_mass = p.s_finite() && zero.s_le(p) && p.s_lt(M::Elem::s_int(1));
            let is_kept = t.s_finite() && M::cast(f, t).s_finite() && (!M::cast(f, t).s_eq(zero)
                || p.s_eq(zero));
            &&& interval_fault::<M>(f, p) is None <==> is_mass && is_kept
            &&& interval_fault::<M>(f, p) == Some(Violation::ProbabilityMass) <==> !is_mass
            &&& interval_fault::<M>(f, p) == Some(Violation::IntervalCoefficient) <==> is_mass
                && !is_kept
        }),
{
}

} // verus!
