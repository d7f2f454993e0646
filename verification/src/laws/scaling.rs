//! Positive rescaling commutes with the rectifier.
use vstd::prelude::*;

use crate::backend::Format;
use crate::scalar::Scalar;

verus! {

use crate::backend::{constant, raised, Model};
use crate::burn_sdp::cross::cross_gate;
use crate::burn_sdp::rectify;
use crate::burn_sdp::rectify::{alpha_of, bounded_alpha, is_fixed, safe_deviation, safe_variance};
use crate::laws::arithmetic::{ring_dist, ring_mul_assoc, ring_zero};
use crate::laws::ordered::{
    field_div_scale, is_ordered_field, ord_cases, ord_root, ord_root_scale, ord_scale, ord_square,
    ring_mul_neg,
};
use crate::laws::tensors::{casts_nothing, lemma_cast};
use crate::vector;
use crate::vector::at_least;

/// `max(s x, 0) = s max(x, 0)`.
proof fn lemma_at_least_scale<S: Scalar>(s: S, x: S)
    requires
        is_ordered_field::<S>(),
        S::s_int(0).s_lt(s),
    ensures
        at_least(s.s_mul(x), S::s_int(0)) == s.s_mul(at_least(x, S::s_int(0))),
        raised(s.s_mul(x), S::s_int(0)) == s.s_mul(raised(x, S::s_int(0))),
{
    let zero = S::s_int(0);
    ring_zero(s);
    ord_scale(s, zero, x);
    ord_scale(s, x, zero);
}

/// `(s a) b + (s c) d = s (a b + c d)`.
proof fn lemma_common_factor<S: Scalar>(s: S, a: S, b: S, c: S, d: S)
    requires
        is_ordered_field::<S>(),
    ensures
        s.s_mul(a).s_mul(b).s_add(s.s_mul(c).s_mul(d)) == s.s_mul(
            a.s_mul(b).s_add(c.s_mul(d)),
        ),
{
    ring_mul_assoc(s, a, b);
    ring_mul_assoc(s, c, d);
    ring_dist(s, a.s_mul(b), c.s_mul(d));
}

/// The rectified moments of an input scaled by a positive number are the
/// rectified moments scaled by it: the mean once, the variance twice.
pub proof fn law_vector_relu_scales<S: Scalar>(s: S, mu: S, v: S)
    requires
        is_ordered_field::<S>(),
        S::s_int(0).s_lt(s),
        S::s_int(0).s_le(v),
    ensures
        vector::relu_mean(s.s_mul(mu), s.s_mul(s).s_mul(v)) == s.s_mul(vector::relu_mean(mu, v)),
        vector::relu_variance(s.s_mul(mu), s.s_mul(s).s_mul(v)) == s.s_mul(s).s_mul(
            vector::relu_variance(mu, v),
        ),
{
    let zero = S::s_int(0);
    let t = s.s_mul(s);
    let w = t.s_mul(v);
    let sigma = v.s_sqrt();
    ord_square(s);
    ring_zero(t);
    ring_zero(s);
    ord_cases(v, zero);
    ord_cases(w, zero);
    ord_scale(t, v, zero);
    lemma_at_least_scale(s, mu);
    if v != zero {
        ord_cases(zero, v);
        ord_root(v);
        ord_root_scale(s, v);
        field_div_scale(s, mu, sigma);
        let alpha = mu.s_div(sigma);
        let phi = crate::gaussian::density(alpha);
        let p = crate::gaussian::distribution(alpha, phi);
        lemma_common_factor(s, mu, p, sigma, phi);
        ring_mul_assoc(s, sigma, crate::gaussian::tail_mean(alpha.s_neg(), phi));
        ring_mul_assoc(t, v, crate::gaussian::tail_variance(alpha.s_neg(), phi));
        let u = vector::unit_relu_variance(alpha, p, phi);
        ring_mul_assoc(t, v, u);
        lemma_at_least_scale(t, v.s_mul(u));
    }
}

/// Scaling mean and deviation by a positive number leaves the bounded ratio
/// alone.
proof fn lemma_bounded_alpha_scales<M: Model>(f: Format, s: M::Elem, mu: M::Elem, sigma: M::Elem)
    requires
        is_ordered_field::<M::Elem>(),
        casts_nothing::<M>(f),
        M::Elem::s_int(0).s_lt(s),
        sigma != M::Elem::s_int(0),
    ensures
        bounded_alpha::<M>(f, s.s_mul(mu), s.s_mul(sigma)) == bounded_alpha::<M>(f, mu, sigma),
{
    let eight = constant::<M>(f, 8);
    let limit = sigma.s_mul(eight);
    ring_mul_assoc(s, sigma, eight);
    assert(s.s_mul(sigma).s_mul(eight) == s.s_mul(limit));
    ring_mul_neg(s, limit);
    ord_scale(s, limit, mu);
    ord_scale(s, mu, limit.s_neg());
    ord_square(s);
    field_div_scale(s, limit, sigma);
    field_div_scale(s, mu, sigma);
    field_div_scale(s, limit.s_neg(), sigma);
}

/// Scaling an input by a positive number scales its deviation, keeps its ratio
/// of mean to deviation, and keeps whether it is fixed.
proof fn lemma_input_scales<M: Model>(f: Format, s: M::Elem, mu: M::Elem, v: M::Elem)
    requires
        is_ordered_field::<M::Elem>(),
        casts_nothing::<M>(f),
        M::Elem::s_int(0).s_lt(s),
        M::Elem::s_int(0).s_lt(v),
    ensures
        !is_fixed::<M>(f, v),
        !is_fixed::<M>(f, s.s_mul(s).s_mul(v)),
        safe_variance::<M>(f, s.s_mul(s).s_mul(v)) == s.s_mul(s).s_mul(v),
        safe_deviation::<M>(f, s.s_mul(s).s_mul(v)) == s.s_mul(safe_deviation::<M>(f, v)),
        alpha_of::<M>(f, s.s_mul(mu), s.s_mul(s).s_mul(v)) == alpha_of::<M>(f, mu, v),
{
    let zero = M::Elem::s_int(0);
    let w = s.s_mul(s).s_mul(v);
    lemma_cast::<M>(f, zero);
    ord_square(s);
    ord_scale(s.s_mul(s), zero, v);
    ring_zero(s.s_mul(s));
    ord_cases(zero, v);
    ord_cases(zero, w);
    ord_cases(v, zero);
    ord_cases(w, zero);
    ord_root(v);
    ord_root_scale(s, v);
    lemma_bounded_alpha_scales::<M>(f, s, mu, safe_deviation::<M>(f, v));
}

/// The rectified moments of a tensor scaled by a positive number are the
/// rectified moments scaled by it: the mean once, the variance twice.
pub proof fn law_relu_scales<M: Model>(f: Format, s: M::Elem, mu: M::Elem, v: M::Elem)
    requires
        is_ordered_field::<M::Elem>(),
        casts_nothing::<M>(f),
        M::Elem::s_int(0).s_lt(s),
        M::Elem::s_int(0).s_le(v),
    ensures
        rectify::relu_mean::<M>(f, s.s_mul(mu), s.s_mul(s).s_mul(v)) == s.s_mul(
            rectify::relu_mean::<M>(f, mu, v),
        ),
        rectify::relu_variance::<M>(f, s.s_mul(mu), s.s_mul(s).s_mul(v)) == s.s_mul(s).s_mul(
            rectify::relu_variance::<M>(f, mu, v),
        ),
{
    let zero = M::Elem::s_int(0);
    let t = s.s_mul(s);
    lemma_cast::<M>(f, zero);
    ring_zero(s);
    ring_zero(t);
    ord_square(s);
    ord_cases(zero, v);
    if v == zero {
        ord_cases(zero, zero);
        ord_cases(v, zero);
        lemma_at_least_scale(s, mu);
    } else {
        lemma_input_scales::<M>(f, s, mu, v);
        let a = alpha_of::<M>(f, mu, v);
        let sigma = safe_deviation::<M>(f, v);
        lemma_common_factor(
            s,
            mu,
            rectify::central_mass::<M>(f, a),
            sigma,
            rectify::density_of::<M>(f, a),
        );
        ring_mul_assoc(s, sigma, rectify::tail_mean::<M>(f, a));
        let unit = if rectify::in_tail::<M>(f, a) {
            rectify::tail_variance::<M>(f, a)
        } else {
            rectify::central_variance::<M>(f, a)
        };
        ring_mul_assoc(t, v, unit);
        lemma_at_least_scale(t, v.s_mul(unit));
    }
}

/// Scaling the right variable by a positive number leaves the factor on its
/// covariances alone, so that a transported covariance scales with it.
pub proof fn law_cross_covariance_scales<M: Model>(
    f: Format,
    s: M::Elem,
    c: M::Elem,
    mu: M::Elem,
    v: M::Elem,
)
    requires
        is_ordered_field::<M::Elem>(),
        casts_nothing::<M>(f),
        M::Elem::s_int(0).s_lt(s),
        M::Elem::s_int(0).s_le(v),
    ensures
        s.s_mul(c).s_mul(cross_gate::<M>(f, s.s_mul(mu), s.s_mul(s).s_mul(v))) == s.s_mul(
            c.s_mul(cross_gate::<M>(f, mu, v)),
        ),
{
    let zero = M::Elem::s_int(0);
    lemma_cast::<M>(f, zero);
    ring_zero(s.s_mul(s));
    ord_cases(zero, v);
    ord_cases(zero, zero);
    if v != zero {
        lemma_input_scales::<M>(f, s, mu, v);
    }
    ring_mul_assoc(s, c, cross_gate::<M>(f, mu, v));
}

} // verus!
