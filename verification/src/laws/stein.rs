//! How the moments of the rectified, the leaky and the raw variable hang
//! together.
use vstd::prelude::*;

use crate::backend::Format;
use crate::scalar::Scalar;

verus! {

use crate::backend::Model;
use crate::burn_sdp::cross::cross_gate;
use crate::burn_sdp::rectify::{
    alpha_of, central_mass, central_variance, density_of, first_ratio, is_active, is_fixed,
    is_inactive, leaky_mean, leaky_variance, relu_mean, relu_variance, safe_deviation, second_ratio,
    smooth_mean, smooth_variance, tail_mass, tail_mean, tail_point, tail_ratio, tail_variance,
};
use crate::laws::arithmetic::{
    field_div, is_ring, ring_add_assoc, ring_add_comm, ring_dist, ring_ints, ring_mul_assoc,
    ring_mul_comm, ring_shuffle, ring_sub, ring_units, ring_zero,
};
use crate::laws::ordered::{
    is_ordered_field, lemma_square_of_product, ord_cases, ord_ints, ord_neg, ord_root, ord_scale,
    ord_trans, ring_mul_neg, ring_neg_twice,
};
use crate::laws::positive::{lemma_ratio_positive, plus_positive};
use crate::laws::reflection::{lemma_back, lemma_neg_int, lemma_neg_zero, lemma_raw_moment};
use crate::laws::tensors::{casts_nothing, lemma_cast};
use crate::vector::unit_relu_variance;

/// `(a b) (c d) = (a c) (b d)`.
pub proof fn lemma_mul_shuffle<S: Scalar>(a: S, b: S, c: S, d: S)
    requires
        is_ring::<S>(),
    ensures
        a.s_mul(b).s_mul(c.s_mul(d)) == a.s_mul(c).s_mul(b.s_mul(d)),
{
    ring_mul_assoc(a, b, c.s_mul(d));
    ring_mul_assoc(b, c, d);
    ring_mul_comm(b, c);
    ring_mul_assoc(c, b, d);
    ring_mul_assoc(a, c, b.s_mul(d));
}

/// The three weights of the leaky variance add up to one.
pub proof fn lemma_weights<S: Scalar>(a: S)
    requires
        is_ordered_field::<S>(),
    ensures
        ({
            let r = S::s_int(1).s_sub(a);
            let w = S::s_int(2).s_mul(a).s_mul(r);
            &&& a.s_add(r) == S::s_int(1)
            &&& w == a.s_mul(r).s_add(a.s_mul(r))
            &&& a.s_mul(a).s_add(r.s_mul(r)).s_add(w) == S::s_int(1)
            &&& r.s_mul(r).s_add(w) == S::s_int(1).s_sub(a.s_mul(a))
        }),
{
    let one = S::s_int(1);
    let r = one.s_sub(a);
    let w = S::s_int(2).s_mul(a).s_mul(r);
    ring_sub(one, a);
    ring_add_comm(a, r);
    lemma_back(one, a);
    assert(a.s_add(r) == one);
    ring_ints::<S>(1, 1);
    ring_dist(a, one, one);
    ring_units(a);
    assert(S::s_int(2).s_mul(a) == a.s_add(a));
    ring_dist(r, a, a);
    let (aa, rr, ar) = (a.s_mul(a), r.s_mul(r), a.s_mul(r));
    ring_mul_comm(a, r);
    // (a + r) (a + r) = (aa + ar) + (ar + rr)
    ring_dist(a.s_add(r), a, r);
    ring_dist(a, a, r);
    ring_dist(r, a, r);
    ring_units(one);
    assert(aa.s_add(ar).s_add(ar.s_add(rr)) == one);
    ring_add_comm(ar, rr);
    ring_shuffle(aa, ar, rr, ar);
    assert(aa.s_add(rr).s_add(w) == one);
    // rr + w = one - aa
    ring_add_assoc(aa, rr, w);
    ring_add_comm(aa, rr.s_add(w));
    ring_sub(one, aa);
    let z = rr.s_add(w);
    ring_add_assoc(z, aa, aa.s_neg());
    ring_sub(aa, aa);
    ring_units(z);
}

/// `a x + (1 - a) x = x`.
proof fn lemma_mixed_alike<S: Scalar>(a: S, x: S)
    requires
        is_ordered_field::<S>(),
    ensures
        a.s_mul(x).s_add(S::s_int(1).s_sub(a).s_mul(x)) == x,
{
    lemma_weights(a);
    ring_dist(x, a, S::s_int(1).s_sub(a));
    ring_units(x);
}

/// The leaky rectifier mixes the variable and the rectified variable,
/// `leaky(x) = a x + (1 - a) relu(x)`: for every slope `a`, every mean and every
/// variance that is not negative its mean is `a mu + (1 - a) mu'`, and its
/// variance `a^2 v + (1 - a)^2 v' + 2 a (1 - a) v g`, where `mu'` and `v'` are
/// the rectifier's moments and `g` is the factor that the rectifier puts on
/// covariances.
pub proof fn law_leaky_mixes<M: Model>(f: Format, a: M::Elem, mu: M::Elem, v: M::Elem)
    requires
        is_ordered_field::<M::Elem>(),
        casts_nothing::<M>(f),
        M::Elem::s_int(0).s_le(v),
    ensures
        leaky_mean::<M>(f, a, mu, v) == a.s_mul(mu).s_add(
            M::Elem::s_int(1).s_sub(a).s_mul(relu_mean::<M>(f, mu, v)),
        ),
        leaky_variance::<M>(f, a, mu, v) == a.s_mul(a).s_mul(v).s_add(
            M::Elem::s_int(1).s_sub(a).s_mul(M::Elem::s_int(1).s_sub(a)).s_mul(
                relu_variance::<M>(f, mu, v),
            ),
        ).s_add(
            M::Elem::s_int(2).s_mul(a).s_mul(M::Elem::s_int(1).s_sub(a)).s_mul(
                v.s_mul(cross_gate::<M>(f, mu, v)),
            ),
        ),
{
    let zero = M::Elem::s_int(0);
    let one = M::Elem::s_int(1);
    let r = one.s_sub(a);
    let (aa, rr, w) = (a.s_mul(a), r.s_mul(r), M::Elem::s_int(2).s_mul(a).s_mul(r));
    lemma_cast::<M>(f, zero);
    lemma_cast::<M>(f, one);
    lemma_cast::<M>(f, a);
    lemma_cast::<M>(f, r);
    lemma_cast::<M>(f, aa);
    lemma_cast::<M>(f, rr);
    lemma_cast::<M>(f, w);
    lemma_weights(a);
    ring_zero(a);
    ring_zero(r);
    ring_zero(aa);
    ring_zero(rr);
    ring_zero(w);
    ring_zero(v);
    ring_units(zero);
    ring_units(a.s_mul(mu));
    ring_mul_comm(mu, a);
    ord_cases(zero, v);
    ord_cases(v, zero);
    let g = cross_gate::<M>(f, mu, v);
    if is_fixed::<M>(f, v) {
        assert(v == zero);
        ring_zero(g);
        ord_cases(mu, zero);
        ord_cases(zero, mu);
        ring_units(mu);
        lemma_mixed_alike(a, mu);
    } else if is_inactive::<M>(f, mu, v) {
        ring_mul_comm(v, aa);
        ring_units(aa.s_mul(v));
    } else if is_active::<M>(f, mu, v) {
        lemma_mixed_alike(a, mu);
        ring_units(v);
        ring_dist(v, aa, rr);
        ring_dist(v, aa.s_add(rr), w);
    } else {
        let (m, s) = (smooth_mean::<M>(f, mu, v), smooth_variance::<M>(f, mu, v));
        ring_mul_comm(m, r);
        ring_add_comm(r.s_mul(m), a.s_mul(mu));
        ring_mul_comm(v, aa);
        ring_mul_comm(s, rr);
        ring_mul_assoc(v, g, w);
        ring_mul_comm(v.s_mul(g), w);
    }
}

/// The closed form of the unit variance does not depend on how its factors are
/// written.
pub proof fn lemma_unit_forms<M: Model>(f: Format, a: M::Elem)
    requires
        is_ordered_field::<M::Elem>(),
        casts_nothing::<M>(f),
    ensures
        central_variance::<M>(f, a) == unit_relu_variance(
            a,
            central_mass::<M>(f, a),
            density_of::<M>(f, a),
        ),
{
    let (p, one, two) = (central_mass::<M>(f, a), M::Elem::s_int(1), M::Elem::s_int(2));
    lemma_cast::<M>(f, one);
    lemma_cast::<M>(f, M::Elem::s_int(-1));
    lemma_cast::<M>(f, M::Elem::s_int(-2));
    lemma_neg_int::<M::Elem>(1);
    lemma_neg_int::<M::Elem>(2);
    ring_mul_neg(p, one);
    ring_mul_neg(p, two);
    ring_units(p);
    ring_mul_comm(p, two);
    ring_sub(one, p);
    ring_sub(one, two.s_mul(p));
    ring_add_comm(one, p.s_neg());
    ring_add_comm(one, two.s_mul(p).s_neg());
}

/// Where no limit decides, the ratio of mean to deviation is just that.
pub proof fn lemma_ratio_is_plain<M: Model>(f: Format, mu: M::Elem, v: M::Elem)
    requires
        is_ordered_field::<M::Elem>(),
        casts_nothing::<M>(f),
        M::Elem::s_int(0).s_lt(v),
    ensures
        ({
            let sigma = v.s_sqrt();
            let (high, low) = (sigma.s_mul(M::Elem::s_int(8)), sigma.s_mul(M::Elem::s_int(-8)));
            &&& !is_fixed::<M>(f, v)
            &&& safe_deviation::<M>(f, v) == sigma
            &&& M::Elem::s_int(0).s_lt(sigma)
            &&& sigma.s_mul(sigma) == v
            &&& high.s_le(mu) <==> is_active::<M>(f, mu, v)
            &&& mu.s_le(low) <==> is_inactive::<M>(f, mu, v)
            &&& !is_active::<M>(f, mu, v) && !is_inactive::<M>(f, mu, v) ==> alpha_of::<M>(
                f,
                mu,
                v,
            ) == mu.s_div(sigma)
            &&& !(is_active::<M>(f, mu, v) && is_inactive::<M>(f, mu, v))
        }),
{
    let zero = M::Elem::s_int(0);
    let (eight, less) = (M::Elem::s_int(8), M::Elem::s_int(-8));
    lemma_cast::<M>(f, zero);
    lemma_cast::<M>(f, eight);
    lemma_cast::<M>(f, less);
    ord_cases(zero, v);
    ord_cases(v, zero);
    ord_root(v);
    let sigma = v.s_sqrt();
    let limit = sigma.s_mul(eight);
    let low = sigma.s_mul(less);
    lemma_neg_int::<M::Elem>(8);
    ring_mul_neg(sigma, eight);
    assert(low == limit.s_neg());
    ord_ints::<M::Elem>(0, 8);
    ord_ints::<M::Elem>(-8, 0);
    ord_ints::<M::Elem>(-8, 8);
    ord_scale(sigma, zero, eight);
    ring_zero(sigma);
    lemma_neg_zero::<M::Elem>();
    ord_neg(zero, limit);
    ord_trans(low, zero, limit);
    // A multiple of the deviation, divided by it.
    lemma_multiple_over(eight, sigma);
    lemma_multiple_over(less, sigma);
    let q = mu.s_div(sigma);
    field_div(mu, sigma);
    ord_scale(sigma, q, eight);
    ord_scale(sigma, eight, q);
    ord_scale(sigma, q, less);
    ord_scale(sigma, less, q);
    ord_cases(eight, q);
    ord_cases(q, less);
    ord_cases(limit, mu);
    ord_cases(mu, limit);
    ord_cases(mu, low);
    ord_cases(low, mu);
    ord_cases(less, q);
    ord_cases(q, eight);
    ord_cases(eight, eight);
    ord_cases(less, less);
    ord_cases(eight, less);
    ord_cases(less, eight);
    ord_cases(low, limit);
    if q == eight {
        assert(mu == limit);
    }
    if mu == limit {
        assert(q == eight);
    }
    if q == less {
        assert(mu == low);
    }
    if mu == low {
        assert(q == less);
    }
    if limit.s_lt(mu) {
        ord_trans(low, limit, mu);
    }
    if mu.s_lt(low) {
        ord_trans(mu, low, limit);
    }
    if eight.s_lt(q) {
        ord_trans(less, eight, q);
    }
    if q.s_lt(less) {
        ord_trans(q, less, eight);
    }
}

/// `(s c) / s = c`.
proof fn lemma_multiple_over<S: Scalar>(c: S, s: S)
    requires
        is_ordered_field::<S>(),
        s != S::s_int(0),
    ensures
        s.s_mul(c).s_div(s) == c,
{
    field_div(s.s_mul(c), s);
    ring_mul_comm(s, c);
    crate::laws::arithmetic::field_cancel(s.s_mul(c).s_div(s), c, s);
}

/// The levels of the continued fraction: level `n` times the argument and the
/// next level is `n`, and the last level times the argument is the depth, which
/// is 96 in double precision and 32 otherwise.
pub proof fn law_tail_ratios<M: Model>(f: Format, t: M::Elem, n: int)
    requires
        is_ordered_field::<M::Elem>(),
        casts_nothing::<M>(f),
        M::Elem::s_int(0).s_lt(t),
    ensures
        ({
            let d: int = if f == Format::F64 {
                96
            } else {
                32
            };
            &&& 1 <= n < d ==> tail_ratio::<M>(f, t, n, d).s_mul(
                t.s_add(tail_ratio::<M>(f, t, n + 1, d)),
            ) == M::Elem::s_int(n)
            &&& tail_ratio::<M>(f, t, d, d).s_mul(t) == M::Elem::s_int(d)
            &&& second_ratio::<M>(f, t) == tail_ratio::<M>(f, t, 2, d)
            &&& first_ratio::<M>(f, t).s_mul(t.s_add(tail_ratio::<M>(f, t, 2, d)))
                == M::Elem::s_int(1)
        }),
{
    let d: int = if f == Format::F64 {
        96
    } else {
        32
    };
    let one = M::Elem::s_int(1);
    let zero = M::Elem::s_int(0);
    lemma_cast::<M>(f, one);
    lemma_cast::<M>(f, M::Elem::s_int(d));
    lemma_cast::<M>(f, M::Elem::s_int(n));
    ord_cases(zero, t);
    lemma_part_times(one.s_div(t), M::Elem::s_int(d), t);
    field_div(one, t);
    ring_units(M::Elem::s_int(d));
    if 1 <= n < d {
        lemma_ratio_positive::<M>(f, t, n + 1, d);
        let s = t.s_add(tail_ratio::<M>(f, t, n + 1, d));
        ord_cases(zero, tail_ratio::<M>(f, t, n + 1, d));
        plus_positive(t, tail_ratio::<M>(f, t, n + 1, d));
        ord_cases(zero, s);
        field_div(one, s);
        lemma_part_times(one.s_div(s), M::Elem::s_int(n), s);
        ring_units(M::Elem::s_int(n));
    }
    lemma_ratio_positive::<M>(f, t, 2, d);
    let s = t.s_add(tail_ratio::<M>(f, t, 2, d));
    ord_cases(zero, tail_ratio::<M>(f, t, 2, d));
    plus_positive(t, tail_ratio::<M>(f, t, 2, d));
    ord_cases(zero, s);
    field_div(one, s);
}

/// `(a b) c = (a c) b`.
proof fn lemma_part_times<S: Scalar>(a: S, b: S, c: S)
    requires
        is_ring::<S>(),
    ensures
        a.s_mul(b).s_mul(c) == a.s_mul(c).s_mul(b),
{
    ring_mul_assoc(a, b, c);
    ring_mul_comm(b, c);
    ring_mul_assoc(a, c, b);
}

/// How probability, mean and variance of the tail beyond `t = -a` hang together,
/// for the density `phi` at `a`: `mean + t T = phi`, `E[x^2] + t mean = T`, where
/// `E[x^2]` is the variance and the squared mean.
pub proof fn law_tail_moments<M: Model>(f: Format, a: M::Elem)
    requires
        is_ordered_field::<M::Elem>(),
        casts_nothing::<M>(f),
        a.s_lt(M::Elem::s_int(-2)),
    ensures
        tail_mean::<M>(f, a).s_add(a.s_neg().s_mul(tail_mass::<M>(f, a))) == density_of::<M>(f, a),
        tail_variance::<M>(f, a).s_add(tail_mean::<M>(f, a).s_mul(tail_mean::<M>(f, a))).s_add(
            a.s_neg().s_mul(tail_mean::<M>(f, a)),
        ) == tail_mass::<M>(f, a),
        tail_point::<M>(f, a) == a.s_neg(),
{
    let zero = M::Elem::s_int(0);
    let two = M::Elem::s_int(2);
    let t = a.s_neg();
    lemma_cast::<M>(f, two);
    lemma_neg_int::<M::Elem>(2);
    ord_neg(a, M::Elem::s_int(-2));
    ring_neg_twice(two, two);
    assert(two.s_lt(t));
    ord_ints::<M::Elem>(0, 2);
    ord_trans(zero, two, t);
    ord_cases(t, two);
    ord_cases(two, t);
    assert(tail_point::<M>(f, a) == t);
    law_tail_ratios::<M>(f, t, 2);
    let d: int = if f == Format::F64 {
        96
    } else {
        32
    };
    let (r1, r2) = (first_ratio::<M>(f, t), second_ratio::<M>(f, t));
    lemma_ratio_positive::<M>(f, t, 2, d);
    lemma_cast::<M>(f, M::Elem::s_int(1));
    ord_cases(zero, r2);
    plus_positive(t, r2);
    ord_ints::<M::Elem>(0, 1);
    crate::laws::positive::div_positive(M::Elem::s_int(1), t.s_add(r2));
    ord_cases(zero, r1);
    plus_positive(t, r1);
    ord_cases(zero, t.s_add(r1));
    let phi = density_of::<M>(f, a);
    let mass = tail_mass::<M>(f, a);
    let m = tail_mean::<M>(f, a);
    field_div(phi, t.s_add(r1));
    // phi = T t + T r1
    ring_dist(mass, t, r1);
    ring_mul_comm(mass, t);
    ring_add_comm(t.s_mul(mass), m);
    // m (t + r2) = T (r1 (t + r2)) = T
    ring_mul_assoc(mass, r1, t.s_add(r2));
    ring_units(mass);
    ring_dist(m, t, r2);
    ring_mul_comm(m, t);
    ring_add_comm(t.s_mul(m), m.s_mul(r2));
    // The variance and the squared mean are m r2.
    let (mr, mm) = (m.s_mul(r2), m.s_mul(m));
    ring_sub(mr, mm);
    lemma_back(mr, mm);
}

/// Whether the rectified variance is not cut off at zero.
pub open spec fn is_uncut<M: Model>(f: Format, mu: M::Elem, v: M::Elem) -> bool {
    let a = alpha_of::<M>(f, mu, v);
    !v.s_mul(
        if a.s_lt(M::Elem::s_int(-2)) {
            tail_variance::<M>(f, a)
        } else {
            central_variance::<M>(f, a)
        },
    ).s_lt(M::Elem::s_int(0))
}

/// Stein's identity: the second moment of the rectified variable is the variance
/// times the probability of being positive, and the mean times the rectified
/// mean: `v' + mu'^2 = v g + mu mu'`. It holds for every mean and every variance
/// that is not negative, at the limits and for fixed inputs too, where the
/// variance is not cut off at zero.
pub proof fn law_relu_stein<M: Model>(f: Format, mu: M::Elem, v: M::Elem)
    requires
        is_ordered_field::<M::Elem>(),
        casts_nothing::<M>(f),
        M::Elem::s_int(0).s_le(v),
        M::Elem::s_int(0).s_lt(v) ==> is_uncut::<M>(f, mu, v),
    ensures
        relu_variance::<M>(f, mu, v).s_add(
            relu_mean::<M>(f, mu, v).s_mul(relu_mean::<M>(f, mu, v)),
        ) == v.s_mul(cross_gate::<M>(f, mu, v)).s_add(mu.s_mul(relu_mean::<M>(f, mu, v))),
{
    let zero = M::Elem::s_int(0);
    let one = M::Elem::s_int(1);
    lemma_cast::<M>(f, zero);
    lemma_cast::<M>(f, one);
    lemma_cast::<M>(f, M::Elem::s_int(-2));
    ord_cases(zero, v);
    ord_cases(v, zero);
    ring_zero(zero);
    ring_units(zero);
    ring_zero(v);
    ring_zero(mu);
    ring_units(v);
    ring_units(mu.s_mul(mu));
    ring_zero(cross_gate::<M>(f, mu, v));
    if v == zero {
        ord_cases(mu, zero);
    } else {
        lemma_ratio_is_plain::<M>(f, mu, v);
        if !is_active::<M>(f, mu, v) && !is_inactive::<M>(f, mu, v) {
            let sigma = v.s_sqrt();
            let a = mu.s_div(sigma);
            ord_cases(zero, sigma);
            field_div(mu, sigma);
            let m = if a.s_lt(M::Elem::s_int(-2)) {
                tail_mean::<M>(f, a)
            } else {
                a.s_mul(central_mass::<M>(f, a)).s_add(density_of::<M>(f, a))
            };
            // mu (sigma m) = v (a m)
            lemma_mul_shuffle(sigma, a, sigma, m);
            lemma_square_of_product(sigma, m);
            if a.s_lt(M::Elem::s_int(-2)) {
                law_tail_moments::<M>(f, a);
                lemma_tail_stein(a, v, m, tail_variance::<M>(f, a), tail_mass::<M>(f, a));
            } else {
                let (p, phi) = (central_mass::<M>(f, a), density_of::<M>(f, a));
                lemma_unit_forms::<M>(f, a);
                lemma_raw_moment(mu, v, p, phi);
                let u = v.s_mul(unit_relu_variance(a, p, phi));
                let mean = mu.s_mul(p).s_add(sigma.s_mul(phi));
                ring_add_comm(u, mean.s_mul(mean));
                // mean = sigma m
                ring_mul_assoc(sigma, a, p);
                ring_dist(sigma, a.s_mul(p), phi);
                assert(mean == sigma.s_mul(m));
                lemma_central_stein(a, v, p, phi);
            }
        }
    }
}

/// `v u + v (m m) = v T + v (a m)`, for the moments of a tail.
proof fn lemma_tail_stein<S: Scalar>(a: S, v: S, m: S, u: S, mass: S)
    requires
        is_ordered_field::<S>(),
        u.s_add(m.s_mul(m)).s_add(a.s_neg().s_mul(m)) == mass,
    ensures
        v.s_mul(u).s_add(v.s_mul(m.s_mul(m))) == v.s_mul(mass).s_add(v.s_mul(a.s_mul(m))),
{
    let q = u.s_add(m.s_mul(m));
    let am = a.s_mul(m);
    ring_mul_neg(a, m);
    ring_dist(v, u, m.s_mul(m));
    ring_dist(v, mass, am);
    ring_add_assoc(q, am.s_neg(), am);
    ring_add_comm(am.s_neg(), am);
    ring_sub(am, am);
    ring_units(q);
}

/// `v ((a a p + p) + a phi) = v p + v (a (a p + phi))`.
proof fn lemma_central_stein<S: Scalar>(a: S, v: S, p: S, phi: S)
    requires
        is_ordered_field::<S>(),
    ensures
        v.s_mul(a.s_mul(a).s_mul(p).s_add(p).s_add(a.s_mul(phi))) == v.s_mul(p).s_add(
            v.s_mul(a.s_mul(a.s_mul(p).s_add(phi))),
        ),
{
    let (x, y) = (a.s_mul(a).s_mul(p), a.s_mul(phi));
    ring_mul_assoc(a, a, p);
    ring_dist(a, a.s_mul(p), phi);
    ring_dist(v, p, x.s_add(y));
    ring_add_comm(x, p);
    ring_add_assoc(p, x, y);
}

/// The second moment of the leaky rectified variable mixes those of the variable
/// and of the rectified variable by the squared slope, since the two sides of
/// zero do not meet: `E[leaky^2] = a^2 E[x^2] + (1 - a^2) E[relu^2]`, for every
/// slope, mean and variance. At slope minus one it is that of the variable.
pub proof fn law_leaky_second_moment<M: Model>(f: Format, a: M::Elem, mu: M::Elem, v: M::Elem)
    requires
        is_ordered_field::<M::Elem>(),
        casts_nothing::<M>(f),
        M::Elem::s_int(0).s_le(v),
        M::Elem::s_int(0).s_lt(v) ==> is_uncut::<M>(f, mu, v),
    ensures
        leaky_variance::<M>(f, a, mu, v).s_add(
            leaky_mean::<M>(f, a, mu, v).s_mul(leaky_mean::<M>(f, a, mu, v)),
        ) == a.s_mul(a).s_mul(v.s_add(mu.s_mul(mu))).s_add(
            M::Elem::s_int(1).s_sub(a.s_mul(a)).s_mul(
                relu_variance::<M>(f, mu, v).s_add(
                    relu_mean::<M>(f, mu, v).s_mul(relu_mean::<M>(f, mu, v)),
                ),
            ),
        ),
{
    law_leaky_mixes::<M>(f, a, mu, v);
    law_relu_stein::<M>(f, mu, v);
    lemma_weights(a);
    lemma_mixed_squares(
        a,
        M::Elem::s_int(1).s_sub(a),
        M::Elem::s_int(2).s_mul(a).s_mul(M::Elem::s_int(1).s_sub(a)),
        mu,
        relu_mean::<M>(f, mu, v),
        v,
        relu_variance::<M>(f, mu, v),
        v.s_mul(cross_gate::<M>(f, mu, v)),
    );
}

/// `((aa v + rr s) + w x) + (a mu + r m)^2 = aa (v + mu mu) + (rr + w) (s + m m)`
/// where `x + mu m = s + m m`.
proof fn lemma_mixed_squares<S: Scalar>(a: S, r: S, w: S, mu: S, m: S, v: S, s: S, x: S)
    requires
        is_ordered_field::<S>(),
        w == a.s_mul(r).s_add(a.s_mul(r)),
        s.s_add(m.s_mul(m)) == x.s_add(mu.s_mul(m)),
    ensures
        ({
            let mean = a.s_mul(mu).s_add(r.s_mul(m));
            a.s_mul(a).s_mul(v).s_add(r.s_mul(r).s_mul(s)).s_add(w.s_mul(x)).s_add(
                mean.s_mul(mean),
            ) == a.s_mul(a).s_mul(v.s_add(mu.s_mul(mu))).s_add(
                r.s_mul(r).s_add(w).s_mul(s.s_add(m.s_mul(m))),
            )
        }),
{
    let (aa, rr, ar) = (a.s_mul(a), r.s_mul(r), a.s_mul(r));
    let (u, t) = (a.s_mul(mu), r.s_mul(m));
    let mean = u.s_add(t);
    // mean mean = (u u + u t) + (u t + t t)
    ring_dist(mean, u, t);
    ring_dist(u, u, t);
    ring_dist(t, u, t);
    ring_mul_comm(u, t);
    let (uu, ut, tt) = (u.s_mul(u), u.s_mul(t), t.s_mul(t));
    lemma_mul_shuffle(a, mu, a, mu);
    lemma_mul_shuffle(a, mu, r, m);
    lemma_mul_shuffle(r, m, r, m);
    let (mm, mumu, mum) = (m.s_mul(m), mu.s_mul(mu), mu.s_mul(m));
    assert(mean.s_mul(mean) == uu.s_add(ut).s_add(ut.s_add(tt)));
    // u t + u t = w (mu m)
    ring_dist(mum, ar, ar);
    let wm = w.s_mul(mum);
    // (uu + ut) + (ut + tt) = (uu + tt) + wm
    ring_add_comm(ut, tt);
    ring_shuffle(uu, ut, tt, ut);
    assert(mean.s_mul(mean) == uu.s_add(tt).s_add(wm));
    let (av, rs, wx) = (aa.s_mul(v), rr.s_mul(s), w.s_mul(x));
    ring_shuffle(av.s_add(rs), wx, uu.s_add(tt), wm);
    ring_shuffle(av, rs, uu, tt);
    ring_dist(aa, v, mumu);
    ring_dist(rr, s, mm);
    ring_dist(w, x, mum);
    let q = s.s_add(mm);
    ring_dist(q, rr, w);
    ring_add_assoc(aa.s_mul(v.s_add(mumu)), rr.s_mul(q), w.s_mul(q));
}

} // verus!
