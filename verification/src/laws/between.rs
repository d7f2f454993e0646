//! Reflection between two and eight deviations from zero, in double precision.
use vstd::prelude::*;

use crate::binary64::Binary64;
use crate::gaussian::FRACTION_DEPTH;
use crate::scalar::Scalar;

verus! {

use crate::binary64::arithmetic::{integer, opposite, product, quotient, square_root, sum};
use crate::binary64::bounds::{
    beyond, lemma_beyond_less, lemma_integer_bounds, lemma_quotient_within, lemma_sum_beyond,
    lemma_sum_within, lemma_within_more, within,
};
use crate::binary64::compare::precedes;
use crate::binary64::errors::{
    epsilon, exact, least, lemma_epsilon, lemma_quotient_error, size,
};
use crate::gaussian::{density, distribution, tail_fraction, tail_mean};
use crate::laws::accuracy::{growth, is_near, lemma_growth, lemma_sizes};
use crate::laws::double::lemma_small_integers;
use crate::laws::finite::{lemma_quotient_sign, lemma_small_powers};
use crate::laws::second::{lemma_side_mean, mean_mass};
use crate::laws::symmetry::{
    lemma_deviation, lemma_even_density, lemma_exact_order, lemma_factors_finite,
    lemma_finite_parts, lemma_half, lemma_mirror, lemma_opposite_integers, lemma_opposite_ratio,
    lemma_scaled, lemma_sides,
};
use crate::laws::unit::{
    lemma_grown_product, lemma_grown_self, lemma_grown_sum, lemma_near_bound,
    lemma_near_probability, lemma_near_ratio,
};
use crate::vector::relu_mean;

/// The levels of the continued fraction are finite and not negative.
pub proof fn lemma_fraction_range(t: Binary64, n: int)
    requires
        within(t, 3),
        beyond(t, 1),
        2 <= n <= FRACTION_DEPTH + 1,
    ensures
        within(tail_fraction(t, n), 7),
        tail_fraction(t, n).value() >= 0,
    decreases FRACTION_DEPTH + 1 - n,
{
    lemma_small_integers();
    lemma_small_powers();
    if n > FRACTION_DEPTH {
        crate::laws::finite::lemma_zero_value(integer(0));
    } else {
        lemma_fraction_range(t, n + 1);
        let r = tail_fraction(t, n + 1);
        let s = sum(t, r);
        lemma_within_more(t, 3, 7);
        lemma_sum_within(t, r, 7);
        lemma_sum_beyond(t, r, 1);
        lemma_integer_bounds(n, 0, 7);
        lemma_quotient_within(integer(n), s, 7, 1);
        lemma_beyond_less(s, 1, 0);
        lemma_quotient_sign(integer(n), s);
        lemma_within_more(quotient(integer(n), s), 6, 7);
    }
}

/// The first level of the continued fraction.
pub open spec fn first_level(t: Binary64) -> Binary64 {
    quotient(integer(1), sum(t, tail_fraction(t, 2)))
}

/// The first level is finite and not negative, and so is its sum with the
/// argument.
proof fn lemma_first_level(t: Binary64)
    requires
        within(t, 3),
        beyond(t, 1),
    ensures
        first_level(t).is_finite(),
        exact(first_level(t)) >= 0 as real,
        exact(t) > 0 as real,
        beyond(sum(t, first_level(t)), 1),
{
    lemma_small_integers();
    lemma_small_powers();
    lemma_half();
    lemma_fraction_range(t, 2);
    let r = tail_fraction(t, 2);
    let s = sum(t, r);
    lemma_within_more(t, 3, 7);
    lemma_sum_within(t, r, 7);
    lemma_sum_beyond(t, r, 1);
    lemma_integer_bounds(1, 0, 0);
    lemma_quotient_within(integer(1), s, 0, 1);
    lemma_beyond_less(s, 1, 0);
    lemma_quotient_sign(integer(1), s);
    let first = first_level(t);
    lemma_within_more(first, -1, 7);
    lemma_sum_within(t, first, 7);
    lemma_sum_beyond(t, first, 1);
    crate::binary64::compare::law_order_of_values(first, integer(0));
    crate::laws::finite::lemma_zero_value(integer(0));
    lemma_exact_order(first, integer(0));
    lemma_exact_order(integer(0), t);
    crate::binary64::lemma_decoded(t);
}

/// How errors of numerator and denominator add up in a quotient.
proof fn lemma_ratio_error(
    u: real,
    w: real,
    x: real,
    y: real,
    s: real,
    d: real,
    e: real,
)
    requires
        y > 0 as real,
        (0 as real) < e,
        e <= 1 as real / 2 as real,
        d >= 0 as real,
        size(x) <= s,
        size(u - x) <= d * s,
        size(w - y) <= e * y,
    ensures
        w > 0 as real,
        size(u / w - x / y) <= (2 as real * (d + e)) * (s / y),
{
    assert(e * y <= y / 2 as real) by (nonlinear_arith)
        requires
            e <= 1 as real / 2 as real,
            y > 0 as real,
    ;
    assert(w >= y / 2 as real);
    let (p, q, k) = (u / w, x / y, s / y);
    assert(p * w == u) by (nonlinear_arith)
        requires
            p == u / w,
            w > 0 as real,
    ;
    assert(q * y == x) by (nonlinear_arith)
        requires
            q == x / y,
            y > 0 as real,
    ;
    assert(k * y == s) by (nonlinear_arith)
        requires
            k == s / y,
            y > 0 as real,
    ;
    let z = p - q;
    // z w = (u - x) - q (w - y)
    assert((p - q) * w == p * w - q * w) by (nonlinear_arith);
    assert(q * (w - y) == q * w - q * y) by (nonlinear_arith);
    assert(z * w == (u - x) - q * (w - y));
    lemma_sizes(z, w);
    lemma_sizes(q, w - y);
    lemma_sizes(q, y);
    lemma_sizes(u - x, q * (w - y));
    // |q| y <= s
    let (a, b) = (size(q), size(w - y));
    assert(a * b <= a * (e * y)) by (nonlinear_arith)
        requires
            a >= 0 as real,
            b <= e * y,
    ;
    assert(a * (e * y) == e * (a * y)) by (nonlinear_arith);
    assert(e * (a * y) <= e * s) by (nonlinear_arith)
        requires
            a * y <= s,
            e > 0 as real,
    ;
    let c = size(z);
    assert(d * s + e * s == (d + e) * s) by (nonlinear_arith);
    assert(c * w <= (d + e) * s);
    assert(c * (y / 2 as real) <= c * w) by (nonlinear_arith)
        requires
            c >= 0 as real,
            y / 2 as real <= w,
    ;
    let h = d + e;
    assert(c * (y / 2 as real) == (c * y) / 2 as real) by (nonlinear_arith);
    assert(h * (k * y) == (h * k) * y) by (nonlinear_arith);
    assert(c * y <= (2 as real * (h * k)) * y) by (nonlinear_arith)
        requires
            (c * y) / 2 as real <= (h * k) * y,
    ;
    assert(c <= 2 as real * (h * k)) by (nonlinear_arith)
        requires
            c * y <= (2 as real * (h * k)) * y,
            y > 0 as real,
    ;
    assert((2 as real * h) * k == 2 as real * (h * k)) by (nonlinear_arith);
}

/// The relative error of a rounding is at most one half.
proof fn lemma_small_epsilon()
    ensures
        epsilon() <= 1 as real / 2 as real,
        growth(1) == 1 as real + epsilon(),
        growth(3) - 1 as real >= epsilon(),
{
    crate::binary64::rounding::p_values();
    lemma_epsilon();
    let k = crate::binary64::rounding::p(53) as real;
    assert(1 as real / k <= 1 as real / 2 as real) by (nonlinear_arith)
        requires
            k >= 2 as real,
    ;
    let q = 1 as real + epsilon();
    assert(growth(0) == 1 as real);
    assert(1 as real * q == q) by (nonlinear_arith);
    assert(growth(1) == growth(0) * q);
    lemma_growth(1, 2);
}

/// The magnitude of a tail moment for the density `f`, the first level `r` and
/// the argument `t`.
pub open spec fn tail_mass(f: real, r: real, t: real) -> real {
    (size(f) * r + least()) / (t + r)
}

/// The mean of the tail, up to rounding.
proof fn lemma_near_tail(t: Binary64, phi: Binary64)
    requires
        within(t, 3),
        beyond(t, 1),
        tail_mean(t, phi).is_finite(),
    ensures
        ({
            let (f, r, y) = (exact(phi), exact(first_level(t)), exact(t) + exact(first_level(t)));
            size(exact(tail_mean(t, phi)) - (f * r) / y) <= epsilon() * (7 as real * tail_mass(
                f,
                r,
                exact(t),
            ) + least())
        }),
{
    lemma_first_level(t);
    lemma_small_epsilon();
    lemma_epsilon();
    let first = first_level(t);
    let num = product(phi, first);
    let den = sum(t, first);
    assert(tail_mean(t, phi) == quotient(num, den));
    lemma_quotient_parts(num, den);
    lemma_factors_finite(phi, first);
    lemma_grown_self(phi);
    lemma_grown_self(first);
    lemma_grown_self(t);
    let (f, r, x) = (exact(phi), exact(first), exact(t));
    let l = least();
    let y = x + r;
    lemma_grown_product(phi, first, f, r, size(f), r, 0, 0);
    lemma_grown_sum(t, first, x, r, x, r, 0, 0, 0);
    let s = size(f) * r + l;
    lemma_near_bound(num, f * r, s, growth(1));
    lemma_near_bound(den, y, y, growth(1));
    lemma_quotient_error(num, den);
    let e = epsilon();
    lemma_sizes(f, r);
    lemma_ratio_error(exact(num), exact(den), f * r, y, s, e, e);
    let k = s / y;
    assert(k >= 0 as real) by (nonlinear_arith)
        requires
            k == s / y,
            s >= 0 as real,
            y > 0 as real,
    ;
    let (v, z) = (exact(num) / exact(den), (f * r) / y);
    lemma_smaller_ratio(f * r, s, y);
    lemma_tail_total(exact(quotient(num, den)), v, z, k, e, l);
}

/// A smaller numerator makes a smaller ratio.
proof fn lemma_smaller_ratio(x: real, s: real, y: real)
    requires
        size(x) <= s,
        y > 0 as real,
    ensures
        size(x / y) <= s / y,
{
    let (q, k) = (x / y, s / y);
    assert(q * y == x) by (nonlinear_arith)
        requires
            q == x / y,
            y > 0 as real,
    ;
    assert(k * y == s) by (nonlinear_arith)
        requires
            k == s / y,
            y > 0 as real,
    ;
    assert(q <= k) by (nonlinear_arith)
        requires
            q * y <= k * y,
            y > 0 as real,
    ;
    assert(-q <= k) by (nonlinear_arith)
        requires
            -(q * y) <= k * y,
            y > 0 as real,
    ;
}

/// How the errors of a tail moment add up.
proof fn lemma_tail_total(c: real, v: real, z: real, k: real, e: real, l: real)
    requires
        size(v - z) <= (2 as real * (e + e)) * k,
        size(c - v) <= e * (size(v) + l),
        size(z) <= k,
        (0 as real) < e,
        e <= 1 as real / 2 as real,
    ensures
        size(c - z) <= e * (7 as real * k + l),
{
    assert((2 as real * (e + e)) * k == 4 as real * (e * k)) by (nonlinear_arith);
    let ek = e * k;
    assert(ek <= k / 2 as real) by (nonlinear_arith)
        requires
            ek == e * k,
            e <= 1 as real / 2 as real,
            k >= 0 as real,
    ;
    assert(size(v) <= 3 as real * k);
    let (a, b) = (size(v) + l, 3 as real * k + l);
    assert(e * a <= e * b) by (nonlinear_arith)
        requires
            a <= b,
            e > 0 as real,
    ;
    assert(e * (3 as real * k + l) + 4 as real * (e * k) == e * (7 as real * k + l))
        by (nonlinear_arith);
}

/// A quotient is finite only where its numerator is.
proof fn lemma_quotient_parts(a: Binary64, b: Binary64)
    requires
        quotient(a, b).is_finite(),
        b.is_finite(),
    ensures
        a.is_finite(),
{
    crate::binary64::lemma_encoded(
        a.negative() != b.negative(),
        crate::binary64::rounding::INFINITE_CODE as nat,
    );
}

/// Between two and eight deviations the closed form holds on one side, the
/// continued fraction on the other.
proof fn lemma_between_means(mu: Binary64, v: Binary64)
    requires
        mu.is_finite(),
        v.is_finite(),
        v.code() > 0,
        !v.negative(),
        precedes(integer(2), quotient(mu, square_root(v))),
        precedes(quotient(mu, square_root(v)), integer(8)),
    ensures
        ({
            let sigma = square_root(v);
            let a = quotient(mu, sigma);
            let phi = density(a);
            &&& a.is_finite()
            &&& within(a, 3)
            &&& beyond(a, 1)
            &&& relu_mean(mu, v) == sum(product(mu, distribution(a, phi)), product(sigma, phi))
            &&& relu_mean(opposite(mu), v) == product(sigma, tail_mean(a, phi))
        }),
{
    let sigma = square_root(v);
    lemma_deviation(v);
    lemma_opposite_ratio(mu, sigma);
    let a = quotient(mu, sigma);
    lemma_opposite_integers(2);
    lemma_opposite_integers(8);
    lemma_small_integers();
    lemma_small_powers();
    lemma_integer_bounds(2, 1, 1);
    lemma_integer_bounds(8, 3, 3);
    lemma_mirror(a);
    lemma_mirror(opposite(a));
    crate::binary64::lemma_decoded(a);
    crate::binary64::lemma_decoded(v);
    crate::binary64::lemma_decoded(opposite(opposite(a)));
    assert(opposite(opposite(a)) == a);
    assert(a.is_finite());
    lemma_even_density(a);
}

/// The tail mean, in terms of the share of the tail.
proof fn lemma_tail_share(f: real, r: real, t: real, y: real)
    requires
        y == t + r,
        y > 0 as real,
    ensures
        (f * r) / y == f - (f / y) * t,
{
    let (z, u) = ((f * r) / y, f / y);
    assert(z * y == f * r) by (nonlinear_arith)
        requires
            z == (f * r) / y,
            y > 0 as real,
    ;
    assert(u * y == f) by (nonlinear_arith)
        requires
            u == f / y,
            y > 0 as real,
    ;
    assert((f - u * t) * y == f * y - (u * y) * t) by (nonlinear_arith);
    assert(f * y - f * t == f * r) by (nonlinear_arith)
        requires
            y == t + r,
    ;
    let w = f - u * t;
    assert(z == w) by (nonlinear_arith)
        requires
            z * y == w * y,
            y > 0 as real,
    ;
}

/// The error of the side that the continued fraction gives.
proof fn lemma_tail_side(n: real, mh: real, z: real, s: real, k: real, e: real, l: real)
    requires
        size(n - s * mh) <= e * (size(s * mh) + l),
        size(mh - z) <= e * (7 as real * k + l),
        size(z) <= k,
        s > 0 as real,
        l > 0 as real,
        (0 as real) < e,
        e <= 1 as real,
    ensures
        size(n - s * z) <= e * (s * (15 as real * k + 2 as real * l) + l),
{
    let q = 7 as real * k + l;
    assert(e * q <= q) by (nonlinear_arith)
        requires
            e <= 1 as real,
            q >= 0 as real,
    ;
    assert(size(mh) <= 8 as real * k + l);
    lemma_sizes(s, mh);
    lemma_scaled(s, size(mh), 8 as real * k + l);
    lemma_scaled(e, size(s * mh) + l, s * (8 as real * k + l) + l);
    let d = mh - z;
    lemma_sizes(s, d);
    lemma_scaled(s, size(d), e * q);
    assert(s * (mh - z) == s * mh - s * z) by (nonlinear_arith);
    assert(size(n - s * z) <= size(n - s * mh) + size(s * d));
    assert(s * (e * q) == e * (s * q)) by (nonlinear_arith);
    let (a, b) = (s * (8 as real * k + l) + l, s * q);
    assert(e * a + e * b == e * (a + b)) by (nonlinear_arith);
    assert(s * (8 as real * k + l) + s * (7 as real * k + l) == s * (15 as real * k + 2 as real * l))
        by (nonlinear_arith);
}

/// How the errors of two means add up between two and eight deviations.
proof fn lemma_between_bound(
    pos: real,
    neg: real,
    m: real,
    s: real,
    a: real,
    t: real,
    f: real,
    z: real,
    u: real,
    x: real,
    e: real,
    l: real,
    h: real,
    mm: real,
    w: real,
)
    requires
        size(pos - (m * x + s * f)) <= h * mm,
        size(neg - s * z) <= e * w,
        z == f - u * t,
        m == a * s,
        size(t - a) <= e * (size(a) + l),
        s > 0 as real,
        e <= h,
        w >= 0 as real,
        l > 0 as real,
    ensures
        size(pos - neg - m * (x + u)) <= h * (mm + w + size(u) * (size(m) + s * l)),
{
    // s f - s z = s u t
    assert(s * (f - u * t) == s * f - s * (u * t)) by (nonlinear_arith);
    assert(m * (x + u) == m * x + m * u) by (nonlinear_arith);
    let d = t - a;
    assert(s * (u * t) - (a * s) * u == (s * u) * (t - a)) by (nonlinear_arith);
    assert(m * u == (a * s) * u);
    let last = (s * u) * d;
    assert(pos - neg - m * (x + u) == (pos - (m * x + s * f)) - (neg - s * z) + last);
    lemma_sizes(s * u, d);
    lemma_sizes(s, u);
    lemma_sizes(a, s);
    let (g, b) = (size(u), size(a) + l);
    let c = s * g;
    assert(c >= 0 as real) by (nonlinear_arith)
        requires
            c == s * g,
            s > 0 as real,
            g >= 0 as real,
    ;
    lemma_scaled(c, size(d), e * b);
    assert((s * g) * (e * b) == e * (g * (s * b))) by (nonlinear_arith);
    assert(s * (size(a) + l) == size(a) * s + s * l) by (nonlinear_arith);
    assert(size(m) == size(a) * s);
    let top = g * (size(m) + s * l);
    assert(size(last) <= e * top);
    let sum = size(m) + s * l;
    assert(sum >= 0 as real) by (nonlinear_arith)
        requires
            sum == size(m) + s * l,
            size(m) >= 0 as real,
            s > 0 as real,
            l > 0 as real,
    ;
    assert(top >= 0 as real) by (nonlinear_arith)
        requires
            top == g * sum,
            g >= 0 as real,
            sum >= 0 as real,
    ;
    assert(e * top <= h * top) by (nonlinear_arith)
        requires
            e <= h,
            top >= 0 as real,
    ;
    assert(e * w <= h * w) by (nonlinear_arith)
        requires
            e <= h,
            w >= 0 as real,
    ;
    assert(h * (mm + w + top) == h * mm + h * w + h * top) by (nonlinear_arith);
}

/// The probability of the tail beyond `t` by the continued fraction, for the
/// density `phi`.
pub open spec fn tail_share(t: Binary64, phi: Binary64) -> real {
    exact(phi) / (exact(t) + exact(first_level(t)))
}

/// The magnitude of the difference of two rectified means, for a mean `m`, a
/// deviation `s`, a density `f`, a first level `r`, an argument `t` and a share
/// `u` of the tail.
pub open spec fn between_mass(m: real, s: real, f: real, r: real, t: real, u: real) -> real {
    mean_mass(m, s, f) + (s * (15 as real * tail_mass(f, r, t) + 2 as real * least()) + least())
        + size(u) * (size(m) + s * least())
}

/// In double precision the rectified means of a number between two and eight
/// deviations above zero and of its opposite differ by the number times the sum
/// of the two probabilities, one by the series and the other by the continued
/// fraction, up to `(1 + 2^-53)^3 - 1` times the sum of the magnitudes of their
/// terms.
pub proof fn law_double_relu_mean_reflects_between(mu: Binary64, v: Binary64)
    requires
        mu.is_finite(),
        v.is_finite(),
        v.code() > 0,
        !v.negative(),
        precedes(integer(2), quotient(mu, square_root(v))),
        precedes(quotient(mu, square_root(v)), integer(8)),
        relu_mean(mu, v).is_finite(),
        relu_mean(opposite(mu), v).is_finite(),
    ensures
        ({
            let sigma = square_root(v);
            let a = quotient(mu, sigma);
            let phi = density(a);
            let share = tail_share(a, phi);
            size(
                exact(relu_mean(mu, v)) - exact(relu_mean(opposite(mu), v)) - exact(mu) * (exact(
                    distribution(a, phi),
                ) + share),
            ) <= (growth(3) - 1 as real) * between_mass(
                exact(mu),
                exact(sigma),
                exact(phi),
                exact(first_level(a)),
                exact(a),
                share,
            )
        }),
{
    lemma_between_means(mu, v);
    lemma_deviation(v);
    let sigma = square_root(v);
    let a = quotient(mu, sigma);
    let phi = density(a);
    let p = distribution(a, phi);
    let tail = tail_mean(a, phi);
    lemma_finite_parts(mu, p, product(sigma, phi));
    lemma_factors_finite(sigma, phi);
    lemma_factors_finite(sigma, tail);
    lemma_sides(a, phi);
    lemma_near_probability(p, distribution(opposite(a), phi));
    lemma_near_ratio(mu, sigma);
    lemma_between_sides(mu, sigma, a, phi, p, tail);
}

/// The same, by name.
proof fn lemma_between_sides(
    mu: Binary64,
    sigma: Binary64,
    a: Binary64,
    phi: Binary64,
    p: Binary64,
    tail: Binary64,
)
    requires
        within(a, 3),
        beyond(a, 1),
        tail == tail_mean(a, phi),
        tail.is_finite(),
        sigma.is_finite(),
        product(sigma, tail).is_finite(),
        sum(product(mu, p), product(sigma, phi)).is_finite(),
        exact(sigma) > 0 as real,
        is_near(p, exact(p), 1 as real, growth(1)),
        is_near(
            a,
            exact(mu) / exact(sigma),
            size(exact(mu) / exact(sigma)) + least(),
            growth(1),
        ),
        (exact(mu) / exact(sigma)) * exact(sigma) == exact(mu),
    ensures
        size(
            exact(sum(product(mu, p), product(sigma, phi))) - exact(product(sigma, tail)) - exact(
                mu,
            ) * (exact(p) + tail_share(a, phi)),
        ) <= (growth(3) - 1 as real) * between_mass(
            exact(mu),
            exact(sigma),
            exact(phi),
            exact(first_level(a)),
            exact(a),
            tail_share(a, phi),
        ),
{
    lemma_small_epsilon();
    lemma_epsilon();
    lemma_first_level(a);
    let (m, s, f, t) = (exact(mu), exact(sigma), exact(phi), exact(a));
    let r = exact(first_level(a));
    let y = t + r;
    let ratio = m / s;
    let (e, l) = (epsilon(), least());
    lemma_near_bound(a, ratio, size(ratio) + l, growth(1));
    lemma_side_mean(mu, sigma, p, phi, m, s, exact(p), f);
    lemma_near_bound(
        sum(product(mu, p), product(sigma, phi)),
        m * exact(p) + s * f,
        mean_mass(m, s, f),
        growth(3),
    );
    lemma_near_tail(a, phi);
    crate::binary64::errors::lemma_product_error(sigma, tail);
    let z = (f * r) / y;
    let u = f / y;
    let k = tail_mass(f, r, t);
    lemma_sizes(f, r);
    lemma_smaller_ratio(f * r, size(f) * r + l, y);
    lemma_tail_side(exact(product(sigma, tail)), exact(tail), z, s, k, e, l);
    lemma_tail_share(f, r, t, y);
    let w = s * (15 as real * k + 2 as real * l) + l;
    let b = 15 as real * k + 2 as real * l;
    assert(s * b >= 0 as real) by (nonlinear_arith)
        requires
            s > 0 as real,
            b >= 0 as real,
    ;
    lemma_between_bound(
        exact(sum(product(mu, p), product(sigma, phi))),
        exact(product(sigma, tail)),
        m,
        s,
        ratio,
        t,
        f,
        z,
        u,
        exact(p),
        e,
        l,
        growth(3) - 1 as real,
        mean_mass(m, s, f),
        w,
    );
}

} // verus!
