//! The rectified unit-variance moments in double precision, up to rounding.
use vstd::prelude::*;

use crate::binary64::Binary64;
use crate::scalar::Scalar;

verus! {

use crate::binary64::arithmetic::{integer, opposite, product, quotient, square_root, sum};
use crate::binary64::errors::{
    epsilon, exact, least, lemma_epsilon, lemma_exact_opposite, lemma_quotient_error,
    lemma_root_error, size,
};
use crate::laws::accuracy::{
    growth, is_near, lemma_finite_terms, lemma_growth, lemma_near_more, lemma_near_product,
    lemma_near_self, lemma_near_sum, lemma_product_rises, lemma_sizes,
};
use crate::laws::symmetry::{lemma_deviation, lemma_factors_finite, lemma_half, lemma_mirror};
use crate::vector::unit_relu_variance;

/// The variance of a rectified normal with unit variance and mean `a`, in real
/// numbers.
#[verifier::opaque]
pub open spec fn exact_unit(a: real, p: real, f: real) -> real {
    ((a * a) * p) * (1 as real - p) + p + (a * f) * (1 as real - 2 as real * p) - f * f
}

/// The magnitude of [`exact_unit`]: the sum of the magnitudes of its terms for a
/// probability of at most one, each product with the smallest number that has
/// all its digits.
#[verifier::opaque]
pub open spec fn unit_mass(a: real, f: real) -> real {
    ((((a * a + least()) + least()) * 2 as real + least()) + 1 as real) + ((a * f + least()) * (
    3 as real + least()) + least()) + (f * f + least())
}

/// A product, by the number of roundings.
pub proof fn lemma_grown_product(
    a: Binary64,
    b: Binary64,
    x: real,
    y: real,
    s: real,
    t: real,
    j: nat,
    k: nat,
)
    requires
        is_near(a, x, s, growth(j)),
        is_near(b, y, t, growth(k)),
        product(a, b).is_finite(),
    ensures
        is_near(product(a, b), x * y, s * t + least(), growth(j + k + 1)),
{
    lemma_near_product(a, b, x, y, s, t, growth(j), growth(k));
    lemma_growth(j, k);
}

/// A sum, by the number of roundings.
pub proof fn lemma_grown_sum(
    a: Binary64,
    b: Binary64,
    x: real,
    y: real,
    s: real,
    t: real,
    j: nat,
    k: nat,
    m: nat,
)
    requires
        is_near(a, x, s, growth(j)),
        is_near(b, y, t, growth(k)),
        j <= m,
        k <= m,
        sum(a, b).is_finite(),
    ensures
        is_near(sum(a, b), x + y, s + t, growth(m + 1)),
{
    lemma_growth(j, (m - j) as nat);
    lemma_growth(k, (m - k) as nat);
    lemma_near_more(a, x, s, growth(j), growth(m));
    lemma_near_more(b, y, t, growth(k), growth(m));
    lemma_near_sum(a, b, x, y, s, t, growth(m));
}

/// The opposite of a near number.
proof fn lemma_near_opposite(c: Binary64, x: real, m: real, e: real)
    requires
        is_near(c, x, m, e),
    ensures
        is_near(opposite(c), -x, m, e),
{
    reveal(is_near);
    lemma_exact_opposite(c);
    lemma_mirror(c);
}

/// A number by no roundings at all.
pub proof fn lemma_grown_self(c: Binary64)
    requires
        c.is_finite(),
    ensures
        is_near(c, exact(c), size(exact(c)), growth(0)),
{
    lemma_near_self(c);
}

/// One and two.
proof fn lemma_one_two()
    ensures
        is_near(integer(1), 1 as real, 1 as real, growth(0)),
        is_near(integer(2), 2 as real, 2 as real, growth(0)),
{
    reveal(exact);
    lemma_half();
    lemma_grown_self(integer(1));
    vstd::arithmetic::power2::lemma2_to64();
    crate::binary64::bounds::lemma_integer_bounds(2, 1, 1);
    crate::binary64::bounds::lemma_power_units(integer(2), 1);
    crate::laws::double::lemma_small_integers();
    crate::binary64::rounding::p_add(1, crate::binary64::UNIT as int);
    crate::binary64::rounding::p_pos(crate::binary64::UNIT as int);
    let u = crate::binary64::rounding::p(crate::binary64::UNIT as int) as real;
    let w = integer(2).value() as real;
    assert(w == 2 as real * u);
    assert(w / u == 2 as real) by (nonlinear_arith)
        requires
            w == 2 as real * u,
            u > 0 as real,
    ;
    lemma_grown_self(integer(2));
}

/// The first term and the probability: `a^2 p (1 - p) + p`.
proof fn lemma_near_spread(alpha: Binary64, p: Binary64, a: real, x: real, s: real)
    requires
        is_near(alpha, a, s, growth(1)),
        is_near(p, x, 1 as real, growth(1)),
        alpha.s_mul(alpha).s_mul(p).s_mul(Binary64::s_int(1).s_sub(p)).s_add(p).is_finite(),
    ensures
        is_near(
            alpha.s_mul(alpha).s_mul(p).s_mul(Binary64::s_int(1).s_sub(p)).s_add(p),
            ((a * a) * x) * (1 as real - x) + x,
            (((s * s + least()) + least()) * 2 as real + least()) + 1 as real,
            growth(9),
        ),
{
    let one = integer(1);
    let l = least();
    lemma_one_two();
    let square = product(alpha, alpha);
    let share = product(square, p);
    let rest = sum(one, opposite(p));
    let both = product(share, rest);
    lemma_finite_terms(both, p);
    lemma_factors_finite(share, rest);
    lemma_factors_finite(square, p);
    lemma_grown_product(alpha, alpha, a, a, s, s, 1, 1);
    lemma_grown_product(square, p, a * a, x, s * s + l, 1 as real, 3, 1);
    assert((s * s + l) * 1 as real == s * s + l) by (nonlinear_arith);
    lemma_near_opposite(p, x, 1 as real, growth(1));
    lemma_grown_sum(one, opposite(p), 1 as real, -x, 1 as real, 1 as real, 0, 1, 1);
    assert(1 as real + -x == 1 as real - x);
    assert(1 as real + 1 as real == 2 as real);
    lemma_grown_product(
        share,
        rest,
        (a * a) * x,
        1 as real - x,
        (s * s + l) + l,
        2 as real,
        5,
        2,
    );
    lemma_grown_sum(
        both,
        p,
        ((a * a) * x) * (1 as real - x),
        x,
        ((s * s + l) + l) * 2 as real + l,
        1 as real,
        8,
        1,
        8,
    );
}

/// The term `a f (1 - 2 p)`.
proof fn lemma_near_skew(
    alpha: Binary64,
    p: Binary64,
    phi: Binary64,
    a: real,
    x: real,
    f: real,
    s: real,
    t: real,
)
    requires
        is_near(alpha, a, s, growth(1)),
        is_near(p, x, 1 as real, growth(1)),
        is_near(phi, f, t, growth(1)),
        alpha.s_mul(phi).s_mul(
            Binary64::s_int(1).s_sub(Binary64::s_int(2).s_mul(p)),
        ).is_finite(),
    ensures
        is_near(
            alpha.s_mul(phi).s_mul(Binary64::s_int(1).s_sub(Binary64::s_int(2).s_mul(p))),
            (a * f) * (1 as real - 2 as real * x),
            (s * t + least()) * (3 as real + least()) + least(),
            growth(8),
        ),
{
    let (one, two) = (integer(1), integer(2));
    let l = least();
    lemma_one_two();
    let slope = product(alpha, phi);
    let twice = product(two, p);
    let rest = sum(one, opposite(twice));
    lemma_factors_finite(slope, rest);
    lemma_finite_terms(one, opposite(twice));
    lemma_mirror(twice);
    lemma_grown_product(alpha, phi, a, f, s, t, 1, 1);
    lemma_grown_product(two, p, 2 as real, x, 2 as real, 1 as real, 0, 1);
    assert(2 as real * 1 as real == 2 as real);
    let y = 2 as real * x;
    lemma_near_opposite(twice, y, 2 as real + l, growth(2));
    lemma_grown_sum(one, opposite(twice), 1 as real, -y, 1 as real, 2 as real + l, 0, 2, 2);
    assert(1 as real + -y == 1 as real - y);
    assert(1 as real + (2 as real + l) == 3 as real + l);
    lemma_grown_product(
        slope,
        rest,
        a * f,
        1 as real - y,
        s * t + l,
        3 as real + l,
        3,
        3,
    );
    lemma_growth(7, 1);
    lemma_near_more(
        product(slope, rest),
        (a * f) * (1 as real - y),
        (s * t + l) * (3 as real + l) + l,
        growth(7),
        growth(8),
    );
}

/// The variance of a rectified normal with unit variance.
pub proof fn lemma_near_unit(
    alpha: Binary64,
    p: Binary64,
    phi: Binary64,
    a: real,
    x: real,
    f: real,
    s: real,
    t: real,
)
    requires
        is_near(alpha, a, s, growth(1)),
        is_near(p, x, 1 as real, growth(1)),
        is_near(phi, f, t, growth(1)),
        unit_relu_variance(alpha, p, phi).is_finite(),
    ensures
        is_near(
            unit_relu_variance(alpha, p, phi),
            exact_unit(a, x, f),
            unit_mass(s, t),
            growth(11),
        ),
{
    reveal(exact_unit);
    reveal(unit_mass);
    let l = least();
    let first = alpha.s_mul(alpha).s_mul(p).s_mul(Binary64::s_int(1).s_sub(p)).s_add(p);
    let second = alpha.s_mul(phi).s_mul(Binary64::s_int(1).s_sub(Binary64::s_int(2).s_mul(p)));
    let third = product(phi, phi);
    lemma_finite_terms(sum(first, second), opposite(third));
    lemma_finite_terms(first, second);
    lemma_mirror(third);
    lemma_near_spread(alpha, p, a, x, s);
    lemma_near_skew(alpha, p, phi, a, x, f, s, t);
    lemma_grown_product(phi, phi, f, f, t, t, 1, 1);
    lemma_near_opposite(third, f * f, t * t + l, growth(3));
    let (m1, m2) = (
        (((s * s + l) + l) * 2 as real + l) + 1 as real,
        (s * t + l) * (3 as real + l) + l,
    );
    let (x1, x2) = (
        ((a * a) * x) * (1 as real - x) + x,
        (a * f) * (1 as real - 2 as real * x),
    );
    lemma_grown_sum(first, second, x1, x2, m1, m2, 9, 8, 9);
    let ff = f * f;
    lemma_grown_sum(
        sum(first, second),
        opposite(third),
        x1 + x2,
        -ff,
        m1 + m2,
        t * t + l,
        10,
        3,
        10,
    );
    assert(x1 + x2 + -ff == exact_unit(a, x, f));
    assert(m1 + m2 + (t * t + l) == unit_mass(s, t));
}

/// The square of a near number, in real numbers.
pub proof fn lemma_near_square(c: Binary64, x: real, m: real, e: real)
    requires
        is_near(c, x, m, e),
    ensures
        size(exact(c) * exact(c) - x * x) <= (e * e - 1 as real) * (m * m),
{
    reveal(is_near);
    let u = exact(c);
    let one = 1 as real;
    lemma_sizes(u - x, x);
    lemma_sizes(u - x, 2 as real * x);
    let d = u - x;
    let y = d + 2 as real * x;
    assert(u * u - x * x == d * y) by (nonlinear_arith)
        requires
            d == u - x,
            y == d + 2 as real * x,
    ;
    lemma_sizes(d, y);
    assert(size(2 as real * x) == 2 as real * size(x));
    assert((e - one) * m + 2 as real * m == (e + one) * m) by (nonlinear_arith)
        requires
            one == 1 as real,
    ;
    assert(size(y) >= 0 as real);
    lemma_product_rises(size(d), (e - one) * m, size(y), (e + one) * m);
    assert(((e - one) * m) * ((e + one) * m) == (e * e - one) * (m * m)) by (nonlinear_arith)
        requires
            one == 1 as real,
    ;
}

/// In real numbers the second moments of the two sides make that of the input.
pub proof fn lemma_exact_second_moments(a: real, p: real, f: real, s: real)
    ensures
        (s * s) * exact_unit(a, p, f) + (s * s) * exact_unit(-a, 1 as real - p, f) + ((a * s) * p
            + s * f) * ((a * s) * p + s * f) + ((-(a * s)) * (1 as real - p) + s * f) * ((-(a * s))
            * (1 as real - p) + s * f) == (a * s) * (a * s) + s * s,
{
    reveal(exact_unit);
    let one = 1 as real;
    let q = one - p;
    let (b, c, g, r) = (a * a, a * f, f * f, p * q);
    // The variances.
    assert((-a) * (-a) == b && (-a) * f == -c) by (nonlinear_arith)
        requires
            b == a * a,
            c == a * f,
    ;
    assert((b * p) * q == b * r) by (nonlinear_arith)
        requires
            r == p * q,
    ;
    assert((b * q) * p == b * r) by (nonlinear_arith)
        requires
            r == p * q,
    ;
    let k = one - 2 as real * p;
    assert(one - 2 as real * q == -k);
    assert((-c) * (-k) == c * k) by (nonlinear_arith);
    assert(one - q == p);
    let total = exact_unit(a, p, f) + exact_unit(-a, q, f);
    assert(total == 2 as real * (b * r) + one + 2 as real * (c * k) - 2 as real * g);
    // The means.
    let (m, n) = (a * p + f, f - a * q);
    assert((a * s) * p + s * f == s * m) by (nonlinear_arith)
        requires
            m == a * p + f,
    ;
    assert((-(a * s)) * q + s * f == s * n) by (nonlinear_arith)
        requires
            n == f - a * q,
    ;
    assert((s * m) * (s * m) == (s * s) * (m * m)) by (nonlinear_arith);
    assert((s * n) * (s * n) == (s * s) * (n * n)) by (nonlinear_arith);
    assert((a * s) * (a * s) == (s * s) * (a * a)) by (nonlinear_arith);
    assert(m * m == b * (p * p) + 2 as real * (c * p) + g) by (nonlinear_arith)
        requires
            m == a * p + f,
            b == a * a,
            c == a * f,
            g == f * f,
    ;
    assert(n * n == b * (q * q) - 2 as real * (c * q) + g) by (nonlinear_arith)
        requires
            n == f - a * q,
            b == a * a,
            c == a * f,
            g == f * f,
    ;
    assert(p * p + q * q == one - 2 as real * r) by (nonlinear_arith)
        requires
            q == one - p,
            r == p * q,
            one == 1 as real,
    ;
    let (pp, qq) = (p * p, q * q);
    assert(b * pp + b * qq == b * (pp + qq)) by (nonlinear_arith);
    assert(b * (one - 2 as real * r) == b - 2 as real * (b * r)) by (nonlinear_arith)
        requires
            one == 1 as real,
    ;
    assert(c * p - c * q == -(c * k)) by (nonlinear_arith)
        requires
            q == one - p,
            k == one - 2 as real * p,
            one == 1 as real,
    ;
    assert(total + m * m + n * n == b + one);
    // Both, times the variance.
    let (ss, mm, nn) = (s * s, m * m, n * n);
    let (u, v) = (exact_unit(a, p, f), exact_unit(-a, q, f));
    assert(ss * u + ss * v + ss * mm + ss * nn == ss * (u + v + mm + nn)) by (nonlinear_arith);
    assert(ss * (b + one) == ss * b + ss) by (nonlinear_arith)
        requires
            one == 1 as real,
    ;
}

/// What a near number promises.
pub proof fn lemma_near_bound(c: Binary64, x: real, m: real, e: real)
    requires
        is_near(c, x, m, e),
    ensures
        size(exact(c) - x) <= (e - 1 as real) * m,
{
    reveal(is_near);
}

/// A probability, and one less its reflection.
pub proof fn lemma_near_probability(f: Binary64, g: Binary64)
    requires
        f.is_finite(),
        g.is_finite(),
        0 as real <= exact(f) <= 1 as real,
        size(exact(f) + exact(g) - 1 as real) <= epsilon(),
    ensures
        is_near(f, exact(f), 1 as real, growth(1)),
        is_near(g, 1 as real - exact(f), 1 as real, growth(1)),
{
    reveal(is_near);
    lemma_epsilon();
    lemma_growth(0, 1);
    let q = 1 as real + epsilon();
    assert(growth(0) == 1 as real);
    assert(1 as real * q == q) by (nonlinear_arith);
    assert(growth(1) == q);
    let e = epsilon();
    assert((q - 1 as real) * 1 as real == e) by (nonlinear_arith)
        requires
            q == 1 as real + e,
    ;
}

/// The ratio of mean to deviation, on both sides.
pub proof fn lemma_near_ratio(mu: Binary64, sigma: Binary64)
    requires
        mu.is_finite(),
        sigma.is_finite(),
        sigma.code() > 0,
        !sigma.negative(),
        quotient(mu, sigma).is_finite(),
    ensures
        exact(sigma) > 0 as real,
        ({
            let a = exact(mu) / exact(sigma);
            &&& is_near(quotient(mu, sigma), a, size(a) + least(), growth(1))
            &&& is_near(opposite(quotient(mu, sigma)), -a, size(-a) + least(), growth(1))
            &&& a * exact(sigma) == exact(mu)
        }),
{
    lemma_quotient_error(mu, sigma);
    lemma_epsilon();
    lemma_growth(0, 1);
    let (m, s) = (exact(mu), exact(sigma));
    let a = m / s;
    let alpha = quotient(mu, sigma);
    assert(a * s == m) by (nonlinear_arith)
        requires
            a == m / s,
            s > 0 as real,
    ;
    assert(is_near(alpha, a, size(a) + least(), growth(1))) by {
        reveal(is_near);
        let q = 1 as real + epsilon();
        assert(growth(0) == 1 as real);
        assert(1 as real * q == q) by (nonlinear_arith);
        assert(growth(1) == q);
        assert(q - 1 as real == epsilon());
    }
    lemma_near_opposite(alpha, a, size(a) + least(), growth(1));
}

/// The variance is near the square of the deviation.
pub proof fn lemma_near_variance(v: Binary64)
    requires
        v.is_finite(),
        v.code() > 0,
        !v.negative(),
    ensures
        ({
            let s = exact(square_root(v));
            is_near(v, s * s, s * s, growth(2))
        }),
{
    lemma_deviation(v);
    lemma_root_error(v);
    lemma_growth(0, 1);
    lemma_growth(1, 1);
    reveal(is_near);
    let q = 1 as real + epsilon();
    assert(growth(0) == 1 as real);
    assert(1 as real * q == q) by (nonlinear_arith);
    assert(growth(1) == q);
    assert(growth(2) == growth(1) * q);
    let s = exact(square_root(v));
    assert(s * s >= 0 as real) by (nonlinear_arith);
}

} // verus!
