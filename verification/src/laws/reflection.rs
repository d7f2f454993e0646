//! A variable is its rectified part less the rectified part of its reflection.
use vstd::prelude::*;

use crate::backend::Format;
use crate::scalar::Scalar;

verus! {

use crate::backend::{constant, Model};
use crate::burn_sdp::cross::cross_gate;
use crate::burn_sdp::rectify::{
    alpha_of, bounded_alpha, central_mass, is_active, is_inactive, safe_deviation, tail_mass,
};
use crate::gaussian::{
    clamped, density, distribution, series_from, tail_fraction, tail_mean, SERIES_TERMS,
};
use crate::laws::arithmetic::{
    field_cancel, field_div, ring_add_assoc, ring_add_comm, ring_dist, ring_ints, ring_mul_assoc, ring_mul_comm, ring_shuffle,
    ring_sub, ring_units, ring_zero,
};
use crate::laws::ordered::{
    field_div_neg, field_halves, is_ordered_field, lemma_neg_unique, lemma_square_of_product,
    ord_cases, ord_diff, ord_ints, ord_neg, ord_root, ord_trans, ring_mul_neg, ring_neg_twice,
};
use crate::laws::positive::{div_positive, lemma_fraction_positive, plus_positive};
use crate::laws::tensors::{casts_nothing, lemma_cast};
use crate::scalar::half;
use crate::vector::{at_least, relu_mean, relu_variance, unit_relu_variance};

/// `(-a) (-b) = a b`.
proof fn lemma_neg_neg<S: Scalar>(a: S, b: S)
    requires
        is_ordered_field::<S>(),
    ensures
        a.s_neg().s_mul(b.s_neg()) == a.s_mul(b),
{
    ring_mul_neg(a.s_neg(), b);
    ring_mul_neg(a, b);
    ring_neg_twice(a.s_mul(b), a);
}

/// The series of the distribution function is odd.
proof fn lemma_series_odd<S: Scalar>(x: S, term: S, sum: S, k: int)
    requires
        is_ordered_field::<S>(),
    ensures
        series_from(x.s_neg(), term.s_neg(), sum.s_neg(), k) == series_from(
            x,
            term,
            sum,
            k,
        ).s_neg(),
    decreases SERIES_TERMS - k,
{
    if k < SERIES_TERMS {
        let factor = x.s_mul(x).s_div(S::s_int(2 * k + 1));
        let next_term = term.s_mul(factor);
        let next = sum.s_add(next_term);
        lemma_neg_neg(x, x);
        ring_mul_neg(term, factor);
        ring_neg_twice(sum, next_term);
        ring_neg_twice(next, sum);
        ring_neg_twice(sum, next);
        ord_cases(next, sum);
        ord_cases(next.s_neg(), sum.s_neg());
        lemma_series_odd(x, next_term, next, k + 1);
    }
}

/// The density is even.
pub proof fn lemma_density_even<S: Scalar>(x: S)
    requires
        is_ordered_field::<S>(),
    ensures
        density(x.s_neg()) == density(x),
{
    let h = half::<S>().s_neg();
    ring_mul_assoc(h, x.s_neg(), x.s_neg());
    ring_mul_assoc(h, x, x);
    lemma_neg_neg(x, x);
}

/// `h - y = 1 - (h + y)` for one half `h`.
proof fn lemma_half_less<S: Scalar>(y: S)
    requires
        is_ordered_field::<S>(),
    ensures
        half::<S>().s_add(y.s_neg()) == S::s_int(1).s_sub(half::<S>().s_add(y)),
{
    let h = half::<S>();
    field_halves::<S>();
    ring_neg_twice(h, y);
    ring_sub(S::s_int(1), h.s_add(y));
    // (h + h) + (-h + -y) = (h + -h) + (h + -y)
    ring_shuffle(h, h, h.s_neg(), y.s_neg());
    ring_sub(h, h);
    ring_units(h.s_add(y.s_neg()));
}

/// Clamping to `[0, 1]` commutes with `z -> 1 - z`.
proof fn lemma_clamp_reflects<S: Scalar>(z: S)
    requires
        is_ordered_field::<S>(),
    ensures
        clamped(S::s_int(1).s_sub(z), S::s_int(0), S::s_int(1)) == S::s_int(1).s_sub(
            clamped(z, S::s_int(0), S::s_int(1)),
        ),
{
    let zero = S::s_int(0);
    let one = S::s_int(1);
    let w = one.s_sub(z);
    // w < 0 exactly where 1 < z
    ord_diff(w, zero);
    ord_diff(one, z);
    ring_sub(one, z);
    ring_sub(zero, w);
    ring_neg_twice(one, z.s_neg());
    ring_neg_twice(z, z);
    ring_units(w.s_neg());
    ring_sub(z, one);
    ring_add_comm(z, one.s_neg());
    // 1 < w exactly where z < 0
    ord_diff(one, w);
    ord_diff(z, zero);
    ring_sub(w, one);
    ring_add_assoc(one, z.s_neg(), one.s_neg());
    ring_add_comm(z.s_neg(), one.s_neg());
    ring_add_assoc(one, one.s_neg(), z.s_neg());
    ring_sub(one, one);
    ring_sub(zero, z);
    ring_sub(one, zero);
    lemma_neg_zero::<S>();
    ring_units(one);
    if z.s_lt(zero) {
        ord_ints::<S>(0, 1);
        ord_trans(z, zero, one);
        ord_cases(z, one);
        ord_cases(w, zero);
        ord_trans(zero, one, w);
    } else if one.s_lt(z) {
        ord_ints::<S>(0, 1);
        ord_cases(one, z);
    }
}

/// Minus zero is zero.
pub proof fn lemma_neg_zero<S: Scalar>()
    requires
        is_ordered_field::<S>(),
    ensures
        S::s_int(0).s_neg() == S::s_int(0),
{
    ring_units(S::s_int(0));
    lemma_neg_unique(S::s_int(0), S::s_int(0));
}

/// The distribution function at `-x` is one less that at `x`.
proof fn lemma_distribution_reflects<S: Scalar>(x: S, pdf: S)
    requires
        is_ordered_field::<S>(),
    ensures
        distribution(x.s_neg(), pdf) == S::s_int(1).s_sub(distribution(x, pdf)),
{
    let sum = series_from(x, x, x, 1);
    lemma_series_odd(x, x, x, 1);
    ring_mul_neg(pdf, sum);
    lemma_half_less(pdf.s_mul(sum));
    lemma_clamp_reflects(half::<S>().s_add(pdf.s_mul(sum)));
}

/// Whether the closed forms apply at `alpha` and at `-alpha` alike: both lie
/// within two deviations, or both are limits.
pub open spec fn reflects<S: Scalar>(alpha: S) -> bool {
    ||| !alpha.s_lt(S::s_int(-2)) && !S::s_int(2).s_lt(alpha)
    ||| is_limit(alpha)
}

/// Whether a mean lies eight deviations or more from zero.
pub open spec fn is_limit<S: Scalar>(alpha: S) -> bool {
    S::s_int(8).s_le(alpha) || alpha.s_le(S::s_int(-8))
}

/// `-s_int(n)` is `s_int(-n)`.
pub proof fn lemma_neg_int<S: Scalar>(n: int)
    requires
        is_ordered_field::<S>(),
    ensures
        S::s_int(n).s_neg() == S::s_int(-n),
{
    ring_ints::<S>(n, -n);
    lemma_neg_unique(S::s_int(n), S::s_int(-n));
}

/// Where `alpha` lies, and where `-alpha` does.
proof fn lemma_reflected_place<S: Scalar>(alpha: S)
    requires
        is_ordered_field::<S>(),
        reflects(alpha),
    ensures
        S::s_int(8).s_le(alpha) <==> alpha.s_neg().s_le(S::s_int(-8)),
        alpha.s_le(S::s_int(-8)) <==> S::s_int(8).s_le(alpha.s_neg()),
        S::s_int(8).s_le(alpha) ==> !alpha.s_le(S::s_int(-8)),
        !S::s_int(8).s_le(alpha) && !alpha.s_le(S::s_int(-8)) ==> !alpha.s_lt(S::s_int(-2))
            && !alpha.s_neg().s_lt(S::s_int(-2)),
{
    let eight = S::s_int(8);
    lemma_neg_int::<S>(8);
    lemma_neg_int::<S>(2);
    lemma_neg_int::<S>(-8);
    ord_neg(eight, alpha);
    ord_neg(alpha, S::s_int(-8));
    ord_neg(S::s_int(2), alpha);
    ring_neg_twice(alpha, alpha);
    ring_neg_twice(eight, eight);
    ord_cases(eight, alpha);
    ord_cases(alpha.s_neg(), S::s_int(-8));
    ord_cases(alpha, S::s_int(-8));
    ord_cases(eight, alpha.s_neg());
    ord_ints::<S>(-8, 8);
    if eight.s_le(alpha) && alpha.s_le(S::s_int(-8)) {
        ord_cases(S::s_int(-8), eight);
        if eight.s_lt(alpha) {
            ord_trans(S::s_int(-8), eight, alpha);
            ord_cases(S::s_int(-8), alpha);
        }
        ord_cases(eight, S::s_int(-8));
        if alpha.s_lt(S::s_int(-8)) {
            ord_trans(alpha, S::s_int(-8), eight);
            ord_cases(alpha, eight);
        }
    }
}

/// `max(x, 0) - max(-x, 0) = x`.
proof fn lemma_parts<S: Scalar>(x: S)
    requires
        is_ordered_field::<S>(),
    ensures
        at_least(x, S::s_int(0)).s_sub(at_least(x.s_neg(), S::s_int(0))) == x,
        at_least(x, S::s_int(0)).s_mul(at_least(x, S::s_int(0))).s_add(
            at_least(x.s_neg(), S::s_int(0)).s_mul(at_least(x.s_neg(), S::s_int(0))),
        ) == x.s_mul(x),
{
    let zero = S::s_int(0);
    let n = x.s_neg();
    lemma_neg_zero::<S>();
    ord_neg(zero, x);
    ord_cases(zero, x);
    ord_cases(zero, n);
    ord_neg(x, zero);
    ord_cases(n, zero);
    ring_neg_twice(x, x);
    ring_sub(x, zero);
    ring_sub(zero, n);
    ring_units(x);
    ring_zero(zero);
    ring_units(x.s_mul(x));
    lemma_neg_neg(x, x);
    if x == zero {
        ring_units(zero);
    }
}

/// The mean is the rectified mean less the rectified mean of the reflected
/// input.
pub proof fn law_relu_mean_reflects<S: Scalar>(mu: S, v: S)
    requires
        is_ordered_field::<S>(),
        S::s_int(0).s_le(v),
        v == S::s_int(0) || reflects(mu.s_div(v.s_sqrt())),
    ensures
        relu_mean(mu, v).s_sub(relu_mean(mu.s_neg(), v)) == mu,
{
    let zero = S::s_int(0);
    let one = S::s_int(1);
    ord_cases(v, zero);
    if v == zero {
        lemma_parts(mu);
    } else {
        ord_cases(zero, v);
        ord_root(v);
        let sigma = v.s_sqrt();
        let a = mu.s_div(sigma);
        field_div_neg(mu, sigma);
        lemma_reflected_place(a);
        lemma_density_even(a);
        let phi = density(a);
        lemma_distribution_reflects(a, phi);
        let p = distribution(a, phi);
        let q = one.s_sub(p);
        ring_sub(mu, zero);
        lemma_neg_zero::<S>();
        ring_units(mu);
        ring_sub(zero, mu.s_neg());
        ring_neg_twice(mu, mu);
        // (mu p + d) - ((-mu) q + d) = mu p + mu q = mu
        let d = sigma.s_mul(phi);
        let x = mu.s_mul(p);
        let y = mu.s_mul(q);
        ring_mul_neg(mu, q);
        ring_neg_twice(y.s_neg(), d);
        ring_neg_twice(y, y);
        ring_sub(x.s_add(d), y.s_neg().s_add(d));
        ring_shuffle(x, d, y, d.s_neg());
        ring_sub(d, d);
        ring_units(x.s_add(y));
        ring_dist(mu, p, q);
        lemma_complement(p);
    }
}

/// `p + (1 - p) = 1`.
pub proof fn lemma_complement<S: Scalar>(p: S)
    requires
        is_ordered_field::<S>(),
    ensures
        p.s_add(S::s_int(1).s_sub(p)) == S::s_int(1),
{
    let one = S::s_int(1);
    ring_sub(one, p);
    ring_add_comm(one, p.s_neg());
    ring_add_assoc(p, p.s_neg(), one);
    ring_sub(p, p);
    ring_units(one);
}

/// `x (1 - p) = x - x p`.
proof fn lemma_times_complement<S: Scalar>(x: S, p: S)
    requires
        is_ordered_field::<S>(),
    ensures
        x.s_mul(S::s_int(1).s_sub(p)) == x.s_add(x.s_mul(p).s_neg()),
{
    ring_sub(S::s_int(1), p);
    ring_dist(x, S::s_int(1), p.s_neg());
    ring_units(x);
    ring_mul_neg(x, p);
}

/// `(x + -f) + (y + f) = x + y`.
proof fn lemma_drop<S: Scalar>(x: S, y: S, f: S)
    requires
        is_ordered_field::<S>(),
    ensures
        x.s_add(f.s_neg()).s_add(y.s_add(f)) == x.s_add(y),
{
    ring_shuffle(x, f.s_neg(), y, f);
    ring_sub(f, f);
    ring_add_comm(f, f.s_neg());
    ring_units(x.s_add(y));
}

/// `(a p + phi)^2 = (a^2 p p + 2 a phi p) + phi^2`.
proof fn lemma_mean_squared<S: Scalar>(a: S, p: S, phi: S)
    requires
        is_ordered_field::<S>(),
    ensures
        a.s_mul(p).s_add(phi).s_mul(a.s_mul(p).s_add(phi)) == a.s_mul(a).s_mul(p).s_mul(p).s_add(
            a.s_mul(phi).s_mul(S::s_int(2).s_mul(p)),
        ).s_add(phi.s_mul(phi)),
{
    let ap = a.s_mul(p);
    let m = ap.s_add(phi);
    let b = a.s_mul(a).s_mul(p).s_mul(p);
    let e = a.s_mul(phi).s_mul(p);
    let f = phi.s_mul(phi);
    ring_dist(m, ap, phi);
    ring_dist(ap, ap, phi);
    ring_dist(phi, ap, phi);
    // (a p)(a p) = ((a a) p) p
    lemma_square_of_product(a, p);
    ring_mul_assoc(a.s_mul(a), p, p);
    // (a p) phi = (a phi) p
    ring_mul_assoc(a, p, phi);
    ring_mul_comm(p, phi);
    ring_mul_assoc(a, phi, p);
    ring_mul_comm(phi, ap);
    // (b + e) + (e + f) = (b + (e + e)) + f
    ring_add_assoc(b, e, e.s_add(f));
    ring_add_assoc(e, e, f);
    ring_add_assoc(b, e.s_add(e), f);
    // e + e = (a phi)(2 p)
    ring_dist(a.s_mul(phi), p, p);
    ring_ints::<S>(1, 1);
    ring_dist(p, S::s_int(1), S::s_int(1));
    ring_units(p);
    ring_mul_comm(p, S::s_int(2));
}

/// The variance of the rectified unit-variance normal plus its squared mean is
/// `a^2 p + p + a phi`.
proof fn lemma_second_moment<S: Scalar>(a: S, p: S, phi: S)
    requires
        is_ordered_field::<S>(),
    ensures
        unit_relu_variance(a, p, phi).s_add(
            a.s_mul(p).s_add(phi).s_mul(a.s_mul(p).s_add(phi)),
        ) == a.s_mul(a).s_mul(p).s_add(p).s_add(a.s_mul(phi)),
{
    let big = a.s_mul(a).s_mul(p);
    let b = big.s_mul(p);
    let c = a.s_mul(phi);
    let twice = S::s_int(2).s_mul(p);
    let d = c.s_mul(twice);
    let f = phi.s_mul(phi);
    lemma_times_complement(big, p);
    lemma_times_complement(c, twice);
    lemma_mean_squared(a, p, phi);
    let first = big.s_add(b.s_neg()).s_add(p);
    let second = c.s_add(d.s_neg());
    let x = first.s_add(second);
    ring_sub(x, f);
    lemma_drop(x, b.s_add(d), f);
    // (first + second) + (b + d) = (first + b) + (second + d)
    ring_shuffle(first, second, b, d);
    lemma_back(c, d);
    // ((big - b) + p) + b = big + p
    ring_add_assoc(big.s_add(b.s_neg()), p, b);
    ring_add_comm(p, b);
    ring_add_assoc(big.s_add(b.s_neg()), b, p);
    lemma_back(big, b);
}

/// `(x - b) + b = x`.
pub proof fn lemma_back<S: Scalar>(x: S, b: S)
    requires
        is_ordered_field::<S>(),
    ensures
        x.s_add(b.s_neg()).s_add(b) == x,
{
    ring_add_assoc(x, b.s_neg(), b);
    ring_add_comm(b.s_neg(), b);
    ring_sub(b, b);
    ring_units(x);
}

/// Squared mean plus variance of the rectified normal, where the closed form
/// applies and its variance is not cut off at zero.
pub proof fn lemma_raw_moment<S: Scalar>(mu: S, v: S, p: S, phi: S)
    requires
        is_ordered_field::<S>(),
        S::s_int(0).s_lt(v),
    ensures
        ({
            let sigma = v.s_sqrt();
            let a = mu.s_div(sigma);
            let mean = mu.s_mul(p).s_add(sigma.s_mul(phi));
            mean.s_mul(mean).s_add(v.s_mul(unit_relu_variance(a, p, phi))) == v.s_mul(
                a.s_mul(a).s_mul(p).s_add(p).s_add(a.s_mul(phi)),
            )
        }),
{
    let sigma = v.s_sqrt();
    let a = mu.s_div(sigma);
    let m = a.s_mul(p).s_add(phi);
    let u = unit_relu_variance(a, p, phi);
    ord_cases(S::s_int(0), v);
    ord_root(v);
    crate::laws::arithmetic::field_div(mu, sigma);
    // mean = sigma m
    ring_mul_assoc(sigma, a, p);
    ring_dist(sigma, a.s_mul(p), phi);
    lemma_square_of_product(sigma, m);
    // v (m m) + v u = v (u + m m)
    ring_dist(v, m.s_mul(m), u);
    ring_add_comm(m.s_mul(m), u);
    lemma_second_moment(a, p, phi);
}

/// The variance of the closed form, written so that nothing large cancels, is
/// `(mu^2 + v) p + mu sigma phi` less the squared mean, whatever the probability
/// and the density are.
pub proof fn law_relu_variance_closed_form<S: Scalar>(mu: S, v: S, p: S, phi: S)
    requires
        is_ordered_field::<S>(),
        S::s_int(0).s_lt(v),
    ensures
        ({
            let sigma = v.s_sqrt();
            let mean = mu.s_mul(p).s_add(sigma.s_mul(phi));
            v.s_mul(unit_relu_variance(mu.s_div(sigma), p, phi)) == mu.s_mul(mu).s_add(v).s_mul(
                p,
            ).s_add(mu.s_mul(sigma).s_mul(phi)).s_sub(mean.s_mul(mean))
        }),
{
    let sigma = v.s_sqrt();
    let a = mu.s_div(sigma);
    ord_cases(S::s_int(0), v);
    ord_root(v);
    crate::laws::arithmetic::field_div(mu, sigma);
    lemma_raw_moment(mu, v, p, phi);
    let u = v.s_mul(unit_relu_variance(a, p, phi));
    let mean = mu.s_mul(p).s_add(sigma.s_mul(phi));
    let square = mean.s_mul(mean);
    // v (a a p + p + a phi), term by term.
    let (first, last) = (a.s_mul(a).s_mul(p), a.s_mul(phi));
    ring_dist(v, first.s_add(p), last);
    ring_dist(v, first, p);
    lemma_square_of_product(sigma, a);
    ring_mul_assoc(v, a.s_mul(a), p);
    assert(v.s_mul(first) == mu.s_mul(mu).s_mul(p));
    ring_dist(p, mu.s_mul(mu), v);
    // v (a phi) = mu sigma phi
    ring_mul_assoc(v, a, phi);
    ring_mul_assoc(sigma, sigma, a);
    ring_mul_comm(sigma, mu);
    assert(v.s_mul(last) == mu.s_mul(sigma).s_mul(phi));
    let whole = mu.s_mul(mu).s_add(v).s_mul(p).s_add(mu.s_mul(sigma).s_mul(phi));
    assert(square.s_add(u) == whole);
    ring_sub(whole, square);
    ring_add_comm(square, u);
    ring_add_assoc(u, square, square.s_neg());
    ring_sub(square, square);
    ring_units(u);
}

/// Squared mean plus variance.
pub open spec fn raw_moment<S: Scalar>(mu: S, v: S) -> S {
    relu_mean(mu, v).s_mul(relu_mean(mu, v)).s_add(relu_variance(mu, v))
}

/// Whether the closed form of the rectified variance is not negative, so that
/// it is not cut off at zero.
pub open spec fn is_not_cut<S: Scalar>(mu: S, v: S) -> bool {
    let a = mu.s_div(v.s_sqrt());
    let phi = density(a);
    S::s_int(0).s_le(v.s_mul(unit_relu_variance(a, distribution(a, phi), phi)))
}

/// The second raw moments of the rectified input and of its rectified
/// reflection add up to that of the input.
pub proof fn law_relu_second_moment_reflects<S: Scalar>(mu: S, v: S)
    requires
        is_ordered_field::<S>(),
        S::s_int(0).s_le(v),
        v == S::s_int(0) || is_limit(mu.s_div(v.s_sqrt())) || (reflects(mu.s_div(v.s_sqrt()))
            && is_not_cut(mu, v) && is_not_cut(mu.s_neg(), v)),
    ensures
        raw_moment(mu, v).s_add(raw_moment(mu.s_neg(), v)) == mu.s_mul(mu).s_add(v),
{
    let zero = S::s_int(0);
    let one = S::s_int(1);
    let n = mu.s_neg();
    ord_cases(v, zero);
    ring_zero(zero);
    ring_units(zero);
    lemma_neg_neg(mu, mu);
    if v == zero {
        lemma_parts(mu);
        let s = at_least(mu, zero);
        let t = at_least(n, zero);
        ring_units(s.s_mul(s));
        ring_units(t.s_mul(t));
        ring_units(mu.s_mul(mu));
    } else {
        ord_cases(zero, v);
        ord_root(v);
        let sigma = v.s_sqrt();
        let a = mu.s_div(sigma);
        field_div_neg(mu, sigma);
        lemma_reflected_place(a);
        ring_units(mu.s_mul(mu).s_add(v));
        if !S::s_int(8).s_le(a) && !a.s_le(S::s_int(-8)) {
            lemma_density_even(a);
            let phi = density(a);
            lemma_distribution_reflects(a, phi);
            let p = distribution(a, phi);
            let q = one.s_sub(p);
            lemma_raw_moment(mu, v, p, phi);
            lemma_raw_moment(n, v, q, phi);
            lemma_neg_neg(a, a);
            let aa = a.s_mul(a);
            let c = a.s_mul(phi);
            ring_mul_neg(a, phi);
            let left = aa.s_mul(p).s_add(p);
            let right = aa.s_mul(q).s_add(q);
            assert(raw_moment(mu, v) == v.s_mul(left.s_add(c)));
            assert(raw_moment(n, v) == v.s_mul(right.s_add(c.s_neg())));
            ring_dist(v, left.s_add(c), right.s_add(c.s_neg()));
            ring_shuffle(left, c, right, c.s_neg());
            ring_sub(c, c);
            ring_units(left.s_add(right));
            ring_shuffle(aa.s_mul(p), p, aa.s_mul(q), q);
            ring_dist(aa, p, q);
            lemma_complement(p);
            ring_units(aa);
            ring_dist(v, aa, one);
            ring_units(v);
            // v (a a) = (a sigma)(a sigma) = mu mu
            crate::laws::arithmetic::field_div(mu, sigma);
            lemma_square_of_product(a, sigma);
            ring_mul_comm(aa, v);
        }
    }
}

/// The probability of the tail beyond `t`, by the continued fraction.
pub open spec fn tail_probability<S: Scalar>(t: S, pdf: S) -> S {
    let r1 = S::s_int(1).s_div(t.s_add(tail_fraction(t, 2)));
    pdf.s_div(t.s_add(r1))
}

/// By how much the distribution function by its series at `alpha`, and the tail
/// beyond `alpha` by its continued fraction, exceed one together.
pub open spec fn mass_defect<S: Scalar>(alpha: S) -> S {
    let phi = density(alpha);
    distribution(alpha, phi).s_add(tail_probability(alpha, phi)).s_sub(S::s_int(1))
}

/// How mean and probability of the tail hang together, for the second ratio
/// `r2` of the continued fraction: `mean + t T = pdf` and `mean r2 + t mean = T`.
pub proof fn lemma_tail_terms<S: Scalar>(t: S, pdf: S)
    requires
        is_ordered_field::<S>(),
        S::s_int(0).s_lt(t),
    ensures
        tail_mean(t, pdf).s_add(t.s_mul(tail_probability(t, pdf))) == pdf,
        tail_mean(t, pdf).s_mul(tail_fraction(t, 2)).s_add(t.s_mul(tail_mean(t, pdf)))
            == tail_probability(t, pdf),
{
    let zero = S::s_int(0);
    let one = S::s_int(1);
    let r2 = tail_fraction(t, 2);
    lemma_fraction_positive(t, 2);
    plus_positive(t, r2);
    ord_ints::<S>(0, 1);
    let r1 = one.s_div(t.s_add(r2));
    div_positive(one, t.s_add(r2));
    ord_cases(zero, r1);
    let d = t.s_add(r1);
    plus_positive(t, r1);
    let tail = tail_probability(t, pdf);
    let m = tail_mean(t, pdf);
    field_div(pdf, d);
    field_div(pdf.s_mul(r1), d);
    field_div(one, t.s_add(r2));
    // m = T r1, since both give pdf r1 times d
    ring_mul_assoc(tail, r1, d);
    ring_mul_comm(r1, d);
    ring_mul_assoc(tail, d, r1);
    field_cancel(m, tail.s_mul(r1), d);
    // pdf = T (t + r1)
    ring_dist(tail, t, r1);
    ring_mul_comm(tail, t);
    ring_add_comm(t.s_mul(tail), m);
    // T = T (r1 (t + r2)) = m (t + r2)
    ring_mul_assoc(tail, r1, t.s_add(r2));
    ring_units(tail);
    ring_dist(m, t, r2);
    ring_mul_comm(m, t);
    ring_add_comm(t.s_mul(m), m.s_mul(r2));
}

/// `x q - x = x (q - 1)`.
proof fn lemma_excess<S: Scalar>(x: S, q: S)
    requires
        is_ordered_field::<S>(),
    ensures
        x.s_mul(q).s_sub(x) == x.s_mul(q.s_sub(S::s_int(1))),
{
    let one = S::s_int(1);
    ring_sub(q, one);
    ring_dist(x, q, one.s_neg());
    ring_mul_neg(x, one);
    ring_units(x);
    ring_sub(x.s_mul(q), x);
}

/// Whether a mean lies more than two and less than eight deviations above zero,
/// so that its reflection is left to the continued fraction.
pub open spec fn is_between<S: Scalar>(alpha: S) -> bool {
    S::s_int(2).s_lt(alpha) && alpha.s_lt(S::s_int(8))
}

/// Where `alpha` and `-alpha` lie between two and eight deviations.
proof fn lemma_between_place<S: Scalar>(alpha: S)
    requires
        is_ordered_field::<S>(),
        is_between(alpha),
    ensures
        S::s_int(0).s_lt(alpha),
        !S::s_int(8).s_le(alpha),
        !alpha.s_le(S::s_int(-8)),
        !alpha.s_lt(S::s_int(-2)),
        !S::s_int(8).s_le(alpha.s_neg()),
        !alpha.s_neg().s_le(S::s_int(-8)),
        alpha.s_neg().s_lt(S::s_int(-2)),
{
    let zero = S::s_int(0);
    let n = alpha.s_neg();
    ord_ints::<S>(0, 2);
    ord_ints::<S>(-8, 0);
    ord_ints::<S>(-2, 0);
    ord_ints::<S>(0, 8);
    ord_trans(zero, S::s_int(2), alpha);
    ord_trans(S::s_int(-8), zero, alpha);
    ord_trans(S::s_int(-2), zero, alpha);
    ord_cases(alpha, S::s_int(8));
    ord_cases(S::s_int(8), alpha);
    ord_cases(alpha, S::s_int(-8));
    ord_cases(alpha, S::s_int(-2));
    ord_cases(S::s_int(-8), alpha);
    ord_cases(S::s_int(-2), alpha);
    lemma_neg_int::<S>(2);
    lemma_neg_int::<S>(8);
    lemma_neg_zero::<S>();
    ord_neg(S::s_int(2), alpha);
    ord_neg(alpha, S::s_int(8));
    ord_neg(zero, alpha);
    ord_trans(n, zero, S::s_int(8));
    ord_cases(S::s_int(8), n);
    ord_cases(n, S::s_int(8));
    ord_cases(n, S::s_int(-8));
    ord_cases(S::s_int(-8), n);
}

/// Between two and eight deviations the closed form meets the continued
/// fraction: the mean differs from the rectified mean less the rectified mean
/// of the reflected input by the mean times the [`mass_defect`].
pub proof fn law_relu_mean_reflects_between<S: Scalar>(mu: S, v: S)
    requires
        is_ordered_field::<S>(),
        S::s_int(0).s_lt(v),
        is_between(mu.s_div(v.s_sqrt())),
    ensures
        relu_mean(mu, v).s_sub(relu_mean(mu.s_neg(), v)).s_sub(mu) == mu.s_mul(
            mass_defect(mu.s_div(v.s_sqrt())),
        ),
{
    let zero = S::s_int(0);
    ord_cases(v, zero);
    ord_cases(zero, v);
    ord_root(v);
    let sigma = v.s_sqrt();
    let a = mu.s_div(sigma);
    field_div_neg(mu, sigma);
    lemma_between_place(a);
    lemma_density_even(a);
    ring_neg_twice(a, a);
    let phi = density(a);
    let p = distribution(a, phi);
    let tail = tail_probability(a, phi);
    let m = tail_mean(a, phi);
    lemma_tail_terms(a, phi);
    field_div(mu, sigma);
    // sigma phi = sigma m + mu T
    ring_dist(sigma, m, a.s_mul(tail));
    ring_mul_assoc(sigma, a, tail);
    let sm = sigma.s_mul(m);
    let x = mu.s_mul(p);
    let y = mu.s_mul(tail);
    assert(relu_mean(mu, v) == x.s_add(sm.s_add(y)));
    assert(relu_mean(mu.s_neg(), v) == sm);
    ring_add_comm(sm, y);
    ring_add_assoc(x, y, sm);
    ring_sub(x.s_add(y).s_add(sm), sm);
    ring_add_assoc(x.s_add(y), sm, sm.s_neg());
    ring_sub(sm, sm);
    ring_units(x.s_add(y));
    ring_dist(mu, p, tail);
    lemma_excess(mu, p.s_add(tail));
}

/// Between two and eight deviations the second raw moments add up to that of the
/// input, but for that moment times the [`mass_defect`].
pub proof fn law_relu_second_moment_reflects_between<S: Scalar>(mu: S, v: S)
    requires
        is_ordered_field::<S>(),
        S::s_int(0).s_lt(v),
        is_between(mu.s_div(v.s_sqrt())),
        is_not_cut(mu, v),
    ensures
        raw_moment(mu, v).s_add(raw_moment(mu.s_neg(), v)).s_sub(mu.s_mul(mu).s_add(v))
            == mu.s_mul(mu).s_add(v).s_mul(mass_defect(mu.s_div(v.s_sqrt()))),
{
    let zero = S::s_int(0);
    let one = S::s_int(1);
    ord_cases(v, zero);
    ord_cases(zero, v);
    ord_root(v);
    let sigma = v.s_sqrt();
    let a = mu.s_div(sigma);
    field_div_neg(mu, sigma);
    lemma_between_place(a);
    lemma_density_even(a);
    ring_neg_twice(a, a);
    let phi = density(a);
    let p = distribution(a, phi);
    let tail = tail_probability(a, phi);
    let m = tail_mean(a, phi);
    let r2 = tail_fraction(a, 2);
    lemma_tail_terms(a, phi);
    lemma_raw_moment(mu, v, p, phi);
    let unit = v.s_mul(unit_relu_variance(a, p, phi));
    ord_cases(zero, unit);
    let aa = a.s_mul(a);
    let left = aa.s_mul(p).s_add(p);
    assert(raw_moment(mu, v) == v.s_mul(left.s_add(a.s_mul(phi))));
    // The reflected moment is v (m r2).
    let mm = m.s_mul(m);
    let mr = m.s_mul(r2);
    lemma_square_of_product(sigma, m);
    ring_dist(v, mm, mr.s_sub(mm));
    ring_sub(mr, mm);
    ring_add_comm(mm, mr.s_add(mm.s_neg()));
    lemma_back(mr, mm);
    assert(raw_moment(mu.s_neg(), v) == v.s_mul(mr));
    // a phi = a m + (a a) T
    let am = a.s_mul(m);
    let at = aa.s_mul(tail);
    ring_dist(a, m, a.s_mul(tail));
    ring_mul_assoc(a, a, tail);
    assert(a.s_mul(phi) == am.s_add(at));
    // (left + (am + at)) + mr = left + (at + T)
    ring_dist(v, left.s_add(am.s_add(at)), mr);
    ring_add_assoc(left, am.s_add(at), mr);
    ring_add_comm(am, at);
    ring_add_assoc(at, am, mr);
    ring_add_comm(am, mr);
    // (aa p + p) + (aa T + T) = aa (p + T) + (p + T)
    let q = p.s_add(tail);
    ring_shuffle(aa.s_mul(p), p, at, tail);
    ring_dist(aa, p, tail);
    // v (aa q + q) = (v aa + v) q
    ring_dist(q, aa, one);
    ring_units(q);
    ring_mul_comm(q, aa);
    ring_mul_comm(q, aa.s_add(one));
    ring_mul_assoc(v, aa.s_add(one), q);
    ring_dist(v, aa, one);
    ring_units(v);
    field_div(mu, sigma);
    lemma_square_of_product(a, sigma);
    ring_mul_comm(aa, v);
    lemma_excess(mu.s_mul(mu).s_add(v), q);
}

/// Whether the error function is odd.
#[verifier::opaque]
pub open spec fn error_function_odd<S: Scalar>() -> bool {
    forall|x: S| #[trigger] x.s_neg().s_erf() == x.s_erf().s_neg()
}

/// Reflecting the mean reflects the bounded ratio.
proof fn lemma_alpha_reflects<M: Model>(f: Format, mu: M::Elem, sigma: M::Elem)
    requires
        is_ordered_field::<M::Elem>(),
        casts_nothing::<M>(f),
        M::Elem::s_int(0).s_lt(sigma),
    ensures
        bounded_alpha::<M>(f, mu.s_neg(), sigma) == bounded_alpha::<M>(f, mu, sigma).s_neg(),
{
    let zero = M::Elem::s_int(0);
    let eight = constant::<M>(f, 8);
    lemma_cast::<M>(f, M::Elem::s_int(8));
    let limit = sigma.s_mul(eight);
    ord_cases(zero, sigma);
    ord_neg(limit, mu);
    ord_neg(mu, limit.s_neg());
    ring_neg_twice(limit, limit);
    field_div_neg(limit, sigma);
    ring_neg_twice(limit.s_div(sigma), limit);
    field_div_neg(mu, sigma);
    // The limit is positive, so the mean cannot exceed both bounds.
    ord_ints::<M::Elem>(0, 8);
    crate::laws::ordered::ord_scale(sigma, zero, eight);
    ring_zero(sigma);
    lemma_neg_zero::<M::Elem>();
    ord_neg(zero, limit);
    ord_trans(limit.s_neg(), zero, limit);
    if limit.s_lt(mu) && mu.s_lt(limit.s_neg()) {
        ord_trans(limit, mu, limit.s_neg());
        ord_cases(limit, limit.s_neg());
    }
    if limit.s_lt(mu.s_neg()) && mu.s_neg().s_lt(limit.s_neg()) {
        ord_trans(limit, mu.s_neg(), limit.s_neg());
        ord_cases(limit, limit.s_neg());
    }
}

/// The gates of a variable and of its reflection add up to one.
proof fn lemma_gates_reflect<M: Model>(f: Format, mu: M::Elem, v: M::Elem)
    requires
        is_ordered_field::<M::Elem>(),
        casts_nothing::<M>(f),
        error_function_odd::<M::Elem>(),
        M::Elem::s_int(0).s_lt(v),
        reflects(alpha_of::<M>(f, mu, v)),
    ensures
        cross_gate::<M>(f, mu, v).s_add(cross_gate::<M>(f, mu.s_neg(), v)) == M::Elem::s_int(1),
{
    let zero = M::Elem::s_int(0);
    let one = M::Elem::s_int(1);
    lemma_cast::<M>(f, zero);
    lemma_cast::<M>(f, one);
    lemma_cast::<M>(f, M::Elem::s_int(8));
    lemma_cast::<M>(f, M::Elem::s_int(-8));
    lemma_cast::<M>(f, M::Elem::s_int(-2));
    ord_cases(zero, v);
    ord_cases(v, zero);
    ord_root(v);
    let sigma = safe_deviation::<M>(f, v);
    lemma_alpha_reflects::<M>(f, mu, sigma);
    let a = alpha_of::<M>(f, mu, v);
    lemma_reflected_place(a);
    ring_units(one);
    if !is_active::<M>(f, mu, v) && !is_inactive::<M>(f, mu, v) {
        let k = M::cast(f, half::<M::Elem>().s_sqrt());
        let h = half::<M::Elem>();
        lemma_cast::<M>(f, h);
        ring_mul_neg(a, k);
        let e = a.s_mul(k).s_erf();
        assert(a.s_mul(k).s_neg().s_erf() == e.s_neg()) by {
            reveal(error_function_odd);
        }
        // (e + 1) h + (-e + 1) h = ((e + -e) + (1 + 1)) h = 2 h = 1
        ring_dist(h, e.s_add(one), e.s_neg().s_add(one));
        ring_shuffle(e, one, e.s_neg(), one);
        ring_sub(e, e);
        ring_units(one.s_add(one));
        ring_dist(h, one, one);
        ring_units(h);
        field_halves::<M::Elem>();
    }
}

/// The covariance with a variable is the covariance with its rectified part,
/// less the covariance with the rectified part of its reflection: the
/// reflection has both its mean and its covariance negated.
pub proof fn law_cross_covariance_reflects<M: Model>(
    f: Format,
    c: M::Elem,
    mu: M::Elem,
    v: M::Elem,
)
    requires
        is_ordered_field::<M::Elem>(),
        casts_nothing::<M>(f),
        error_function_odd::<M::Elem>(),
        M::Elem::s_int(0).s_lt(v),
        reflects(alpha_of::<M>(f, mu, v)),
    ensures
        c.s_mul(cross_gate::<M>(f, mu, v)).s_sub(
            c.s_neg().s_mul(cross_gate::<M>(f, mu.s_neg(), v)),
        ) == c,
{
    let g = cross_gate::<M>(f, mu, v);
    let h = cross_gate::<M>(f, mu.s_neg(), v);
    lemma_gates_reflect::<M>(f, mu, v);
    ring_mul_neg(c, h);
    ring_sub(c.s_mul(g), c.s_mul(h).s_neg());
    ring_neg_twice(c.s_mul(h), c);
    ring_dist(c, g, h);
    ring_units(c);
}

/// By how much the factors that a rectifier puts on the covariance with a
/// variable and with its reflection exceed one together.
pub open spec fn gate_defect<M: Model>(f: Format, mu: M::Elem, v: M::Elem) -> M::Elem {
    cross_gate::<M>(f, mu, v).s_add(cross_gate::<M>(f, mu.s_neg(), v)).s_sub(M::Elem::s_int(1))
}

/// At any ratio of mean to deviation, tails included, the covariance with a
/// variable differs from the covariance with its rectified part, less the
/// covariance with the rectified part of its reflection, by the covariance times
/// the [`gate_defect`].
pub proof fn law_cross_covariance_reflects_everywhere<M: Model>(
    f: Format,
    c: M::Elem,
    mu: M::Elem,
    v: M::Elem,
)
    requires
        is_ordered_field::<M::Elem>(),
    ensures
        c.s_mul(cross_gate::<M>(f, mu, v)).s_sub(
            c.s_neg().s_mul(cross_gate::<M>(f, mu.s_neg(), v)),
        ).s_sub(c) == c.s_mul(gate_defect::<M>(f, mu, v)),
{
    let g = cross_gate::<M>(f, mu, v);
    let h = cross_gate::<M>(f, mu.s_neg(), v);
    ring_mul_neg(c, h);
    ring_sub(c.s_mul(g), c.s_mul(h).s_neg());
    ring_neg_twice(c.s_mul(h), c);
    ring_dist(c, g, h);
    lemma_excess(c, g.s_add(h));
}

/// Between two and eight deviations the defect is that of the error function
/// against the continued fraction.
pub proof fn law_gate_defect_between<M: Model>(f: Format, mu: M::Elem, v: M::Elem)
    requires
        is_ordered_field::<M::Elem>(),
        casts_nothing::<M>(f),
        M::Elem::s_int(0).s_lt(v),
        is_between(alpha_of::<M>(f, mu, v)),
    ensures
        gate_defect::<M>(f, mu, v) == central_mass::<M>(f, alpha_of::<M>(f, mu, v)).s_add(
            tail_mass::<M>(f, alpha_of::<M>(f, mu, v).s_neg()),
        ).s_sub(M::Elem::s_int(1)),
{
    let zero = M::Elem::s_int(0);
    lemma_cast::<M>(f, zero);
    lemma_cast::<M>(f, M::Elem::s_int(1));
    lemma_cast::<M>(f, M::Elem::s_int(8));
    lemma_cast::<M>(f, M::Elem::s_int(-8));
    lemma_cast::<M>(f, M::Elem::s_int(-2));
    ord_cases(zero, v);
    ord_cases(v, zero);
    ord_root(v);
    lemma_alpha_reflects::<M>(f, mu, safe_deviation::<M>(f, v));
    lemma_between_place(alpha_of::<M>(f, mu, v));
}

} // verus!
