//! Rectified means are not negative in double precision.
use vstd::prelude::*;

use crate::binary64::series::HALVINGS;
use crate::binary64::{Binary64, UNIT};
use crate::scalar::Scalar;

verus! {

use crate::binary64::arithmetic::{integer, opposite, product, quotient, square_root, sum};
use crate::binary64::bounds::{
    lemma_integer_bounds, lemma_nearest_rises, lemma_product_within, lemma_quotient_within,
    lemma_within_more, within,
};
use crate::binary64::compare::{law_order_of_values, lemma_units_grow, precedes};
use crate::binary64::errors::{
    epsilon, exact, least, lemma_product_error, lemma_quotient_error, size,
};
use crate::binary64::rounding::{nearest, p, p_pos};
use crate::binary64::series::exponential;
use crate::binary64::{lemma_decoded, lemma_encoded};
use crate::gaussian::{clamped, density, distribution, series_from};
use crate::laws::double::lemma_small_integers;
use crate::laws::finite::{lemma_small_powers, lemma_some_units, lemma_zero_value};
use crate::laws::mills::series_below;
use crate::laws::normal::{lemma_exact_integer, lemma_not_negative, lemma_tiny};
use crate::laws::partial::lemma_series_bound;
use crate::laws::ratio::{
    argument, denominator, is_moderate, lemma_density_product, lemma_mills, lemma_moderate,
    lemma_peak, peak_root,
};
use crate::laws::symmetry::{
    lemma_exact_order, lemma_half, lemma_half_side, lemma_mirror, lemma_mirrored_sides,
    lemma_mirrored_values, lemma_scaled,
};
use crate::scalar::half;

/// The density times one more than the argument times the series is more than
/// half the argument.
pub proof fn lemma_tail_below(x: Binary64)
    requires
        is_moderate(x),
    ensures
        ({
            let (r, f, s) = (exact(x), exact(density(x)), exact(series_from(x, x, x, 1)));
            &&& density(x).is_finite()
            &&& within(density(x), -1)
            &&& !density(x).negative()
            &&& f >= 0 as real
            &&& series_from(x, x, x, 1).is_finite()
            &&& s >= r
            &&& 1000 as real * r <= 1999 as real * (f * (1 as real + r * s))
            &&& f * (1 as real + r * s) >= 24 as real / 100 as real
        }),
{
    lemma_tiny();
    lemma_moderate(x);
    lemma_mills(x);
    lemma_density_product(x);
    lemma_peak();
    lemma_series_bound(x);
    lemma_half();
    let (r, f, s, e) = (
        exact(x),
        exact(density(x)),
        exact(series_from(x, x, x, 1)),
        epsilon(),
    );
    let (k, d) = (exact(peak_root()), exact(denominator(x)));
    let h = series_below(r * r);
    let g = 1 as real + r * s;
    assert(0 as real <= f <= 1 as real) by {
        lemma_small_integers();
        lemma_exact_order(density(x), integer(0));
        lemma_exact_order(integer(1), density(x));
        lemma_decoded(density(x));
    }
    // f k r d is r, up to rounding.
    assert(f * (k * (r * d)) == r * (f * (d * k))) by (nonlinear_arith);
    let c = 1 as real - 10 as real * e;
    lemma_scaled(r, c, f * (d * k));
    assert(r * (1 as real - 10 as real * e) == r - 10 as real * (r * e)) by (nonlinear_arith);
    assert(r * e <= 2 as real * e) by (nonlinear_arith)
        requires
            r <= 2 as real,
            e > 0 as real,
    ;
    let m = k * (r * d);
    lemma_scaled(f, 1000 as real * m, 1998 as real * h);
    assert(f * (1000 as real * m) == 1000 as real * (f * m)) by (nonlinear_arith);
    assert(f * (1998 as real * h) == 1998 as real * (f * h)) by (nonlinear_arith);
    let b = 400000 as real * e;
    lemma_scaled(f, h, g + b);
    assert(f * (g + b) == f * g + f * b) by (nonlinear_arith);
    assert(f * b <= b) by (nonlinear_arith)
        requires
            f <= 1 as real,
            b >= 0 as real,
    ;
}

/// A product of smaller factors is not larger.
proof fn lemma_product_order(a: Binary64, b: Binary64, c: Binary64, d: Binary64)
    requires
        a.is_finite(),
        b.is_finite(),
        c.is_finite(),
        d.is_finite(),
        a.value() >= 0,
        b.value() >= 0,
        !c.negative(),
        !d.negative(),
        exact(a) * exact(b) <= exact(c) * exact(d),
    ensures
        product(a, b).code() <= product(c, d).code(),
{
    reveal(exact);
    let u = p(UNIT as int);
    p_pos(UNIT as int);
    let (ra, rb, rc, rd, ru) = (
        a.value() as real,
        b.value() as real,
        c.value() as real,
        d.value() as real,
        u as real,
    );
    let (xa, xb, xc, xd) = (ra / ru, rb / ru, rc / ru, rd / ru);
    lemma_times_unit(ra, ru);
    lemma_times_unit(rb, ru);
    lemma_times_unit(rc, ru);
    lemma_times_unit(rd, ru);
    assert((xa * ru) * (xb * ru) == (xa * xb) * (ru * ru)) by (nonlinear_arith);
    assert((xc * ru) * (xd * ru) == (xc * xd) * (ru * ru)) by (nonlinear_arith);
    let uu = ru * ru;
    let (m, n) = (xa * xb, xc * xd);
    assert(uu > 0 as real) by (nonlinear_arith)
        requires
            uu == ru * ru,
            ru > 0 as real,
    ;
    assert(m * uu <= n * uu) by (nonlinear_arith)
        requires
            m <= n,
            uu > 0 as real,
    ;
    let (i, j) = (a.value() * b.value(), c.value() * d.value());
    lemma_cast(a.value(), b.value());
    lemma_cast(c.value(), d.value());
    assert(i <= j);
    let den = u as nat;
    let (x, y) = (a.units() * b.units(), c.units() * d.units());
    assert(x == i) by {
        lemma_plain(a);
        lemma_plain(b);
    }
    assert(y == j);
    lemma_nearest_rises(x, y, den);
    lemma_encoded(a.negative() != b.negative(), nearest(x, den));
    lemma_encoded(c.negative() != d.negative(), nearest(y, den));
}

/// A number that is not negative is its magnitude.
proof fn lemma_plain(a: Binary64)
    requires
        a.value() >= 0,
    ensures
        a.value() == a.units(),
{
}

/// The product of whole numbers as real numbers.
proof fn lemma_cast(a: int, b: int)
    ensures
        (a * b) as real == (a as real) * (b as real),
{
    assert((a * b) as real == (a as real) * (b as real)) by (nonlinear_arith);
}

/// A ratio times its denominator.
proof fn lemma_times_unit(a: real, u: real)
    requires
        u > 0 as real,
    ensures
        (a / u) * u == a,
{
    let q = a / u;
    assert(q * u == a) by (nonlinear_arith)
        requires
            q == a / u,
            u > 0 as real,
    ;
}

/// A sum of a number that is not negative and a smaller one is not negative.
proof fn lemma_sum_not_negative(a: Binary64, b: Binary64)
    requires
        a.is_finite(),
        b.is_finite(),
        !b.negative(),
        a.code() <= b.code(),
    ensures
        !precedes(sum(a, b), integer(0)),
{
    lemma_small_integers();
    lemma_decoded(a);
    lemma_decoded(b);
    if a.code() < b.code() {
        lemma_units_grow(a, b);
    }
    let v = a.value() + b.value();
    assert(v >= 0);
    lemma_encoded(false, nearest(v as nat, 1));
    lemma_encoded(a.negative() && b.negative(), 0);
}

/// The probability on the far side of zero.
proof fn lemma_probability_below(x: Binary64, phi: Binary64)
    requires
        x.is_finite(),
        phi.is_finite(),
        exact(phi) >= 0 as real,
        series_from(x, x, x, 1).is_finite(),
        exact(series_from(x, x, x, 1)) >= 0 as real,
        product(phi, series_from(x, x, x, 1)).is_finite(),
    ensures
        ({
            let (q, f, s) = (
                exact(distribution(opposite(x), phi)),
                exact(phi),
                exact(series_from(x, x, x, 1)),
            );
            &&& distribution(opposite(x), phi).is_finite()
            &&& 0 as real <= q
            &&& 100 as real * q <= 51 as real
            &&& q <= 1 as real / 2 as real + 3 as real * epsilon()
            &&& q == 0 as real || q <= 1 as real / 2 as real - f * s + 4 as real * epsilon()
        }),
{
    lemma_tiny();
    let a = opposite(x);
    let u = product(phi, series_from(x, x, x, 1));
    let t = product(phi, series_from(a, a, a, 1));
    lemma_mirror(x);
    lemma_mirrored_sides(x, phi, u, t);
    lemma_mirrored_values(u, t);
    crate::laws::symmetry::lemma_distribution_form(a, phi, t);
    lemma_half_side(t);
    lemma_product_error(phi, series_from(x, x, x, 1));
    let (f, s, e, l) = (exact(phi), exact(series_from(x, x, x, 1)), epsilon(), least());
    let m = f * s;
    lemma_not_negative(f, s);
    let v = exact(u);
    let y = 1 as real / 2 as real - v;
    let q = exact(distribution(a, phi));
    let em = e * m;
    assert(e * (m + l) == em + e * l) by (nonlinear_arith)
        requires
            em == e * m,
    ;
    assert(e * l <= e) by (nonlinear_arith)
        requires
            l <= 1 as real,
            e > 0 as real,
    ;
    assert(e * l >= 0 as real) by {
        lemma_not_negative(e, l);
    }
    assert(em <= m / 1000 as real) by (nonlinear_arith)
        requires
            em == e * m,
            1000 as real * e <= 1 as real,
            m >= 0 as real,
    ;
    // At most one half and a rounding, as nothing negative is added.
    assert(v >= m - em - e * l);
    if y >= 0 as real {
        assert(y <= 1 as real);
        let ey = e * y;
        assert(ey <= y / 1000 as real) by (nonlinear_arith)
            requires
                ey == e * y,
                1000 as real * e <= 1 as real,
                y >= 0 as real,
        ;
        assert(ey <= e) by (nonlinear_arith)
            requires
                ey == e * y,
                y <= 1 as real,
                e > 0 as real,
        ;
        assert(m <= 1 as real);
        assert(em <= e) by (nonlinear_arith)
            requires
                em == e * m,
                m <= 1 as real,
                e > 0 as real,
        ;
    }
}

/// The mean over the deviation, from the rounded ratio.
proof fn lemma_ratio_above(m: real, s: real, x: real, e: real, l: real)
    requires
        s > 0 as real,
        m >= 0 as real,
        size(x - m / s) <= e * (size(m / s) + l),
        (0 as real) < e,
        1000000 as real * e <= 1 as real,
        (0 as real) < l <= e,
    ensures
        1000 as real * m <= s * (1001 as real * x + e),
        x >= 0 as real ==> m <= s * (x + 3 as real * (e * x) + 3 as real * e),
{
    let r = m / s;
    lemma_times_unit(m, s);
    assert(r >= 0 as real) by (nonlinear_arith)
        requires
            r * s == m,
            m >= 0 as real,
            s > 0 as real,
    ;
    let er = e * r;
    assert(e * (r + l) == er + e * l) by (nonlinear_arith)
        requires
            er == e * r,
    ;
    assert(e * l <= e / 1000000 as real) by (nonlinear_arith)
        requires
            l <= e,
            1000000 as real * e <= 1 as real,
            e > 0 as real,
    ;
    assert(er <= r / 1000000 as real) by (nonlinear_arith)
        requires
            er == e * r,
            1000000 as real * e <= 1 as real,
            r >= 0 as real,
    ;
    assert(1000 as real * r <= 1001 as real * x + e);
    lemma_scaled(s, 1000 as real * r, 1001 as real * x + e);
    assert(s * (1000 as real * r) == 1000 as real * (r * s)) by (nonlinear_arith);
    if x >= 0 as real {
        assert(r <= 2 as real * x + e);
        assert(er <= 2 as real * (e * x) + e * e) by (nonlinear_arith)
            requires
                er == e * r,
                r <= 2 as real * x + e,
                e > 0 as real,
        ;
        assert(e * e <= e) by (nonlinear_arith)
            requires
                0 as real <= e <= 1 as real,
        ;
        lemma_not_negative(e, x);
        lemma_scaled(s, r, x + 3 as real * (e * x) + 3 as real * e);
        assert(s * r == r * s) by (nonlinear_arith);
    }
}

/// Within two deviations below zero the negative part of the mean is the
/// smaller one, from one half of a deviation on.
proof fn lemma_moderate_side(x: Binary64, m: real, s: real)
    requires
        is_moderate(x),
        s > 0 as real,
        m >= 0 as real,
        size(exact(x) - m / s) <= epsilon() * (size(m / s) + least()),
    ensures
        ({
            let phi = density(x);
            let q = distribution(opposite(x), phi);
            &&& phi.is_finite()
            &&& !phi.negative()
            &&& q.is_finite()
            &&& exact(q) >= 0 as real
            &&& m * exact(q) <= s * exact(phi)
        }),
{
    lemma_tiny();
    lemma_moderate(x);
    lemma_tail_below(x);
    lemma_series_bound(x);
    let phi = density(x);
    let series = series_from(x, x, x, 1);
    lemma_product_within(phi, series, -1, 202);
    lemma_probability_below(x, phi);
    let (r, f, t, e) = (exact(x), exact(phi), exact(series), epsilon());
    lemma_ratio_above(m, s, r, e, least());
    let q = exact(distribution(opposite(x), phi));
    let b = r + 3 as real * (e * r) + 3 as real * e;
    assert(e * r <= 2 as real * e) by (nonlinear_arith)
        requires
            r <= 2 as real,
            e > 0 as real,
    ;
    lemma_not_negative(e, r);
    let d = b - r;
    assert(0 as real <= d <= 9 as real * e);
    // b q <= f
    assert(b * q <= f) by {
        if q != 0 as real {
            let c = 1 as real / 2 as real - f * t + 4 as real * e;
            assert(b * q == r * q + d * q) by (nonlinear_arith)
                requires
                    d == b - r,
            ;
            assert(d * q <= 9 as real * e) by (nonlinear_arith)
                requires
                    0 as real <= d <= 9 as real * e,
                    0 as real <= q <= 1 as real,
            ;
            lemma_scaled(r, q, c);
            assert(r * (1 as real / 2 as real - f * t + 4 as real * e) == r / 2 as real - f * (r * t)
                + 4 as real * (r * e)) by (nonlinear_arith);
            assert(r * e == e * r) by (nonlinear_arith);
            assert(f * (1 as real + r * t) == f + f * (r * t)) by (nonlinear_arith);
        } else {
            assert(b * q == 0 as real) by (nonlinear_arith)
                requires
                    q == 0 as real,
            ;
        }
    }
    assert(m * q <= (s * b) * q) by (nonlinear_arith)
        requires
            m <= s * b,
            q >= 0 as real,
    ;
    assert((s * b) * q == s * (b * q)) by (nonlinear_arith);
    lemma_scaled(s, b * q, f);
}

/// The bound of the exponential near zero.
proof fn lemma_exp_above_near(y: real)
    requires
        0 as real <= y,
        8 as real * y <= 1 as real,
    ensures
        100 as real * crate::laws::mills::exp_above(y) <= 122 as real,
{
    let y2 = y * y;
    let y3 = y2 * y;
    let y4 = y3 * y;
    let y5 = y4 * y;
    lemma_part(y, y);
    lemma_part(y2, y);
    lemma_part(y3, y);
    lemma_part(y4, y);
    reveal(crate::laws::mills::exp_above);
}

/// An eighth, at most.
proof fn lemma_part(a: real, y: real)
    requires
        a >= 0 as real,
        0 as real <= y,
        8 as real * y <= 1 as real,
    ensures
        0 as real <= a * y,
        8 as real * (a * y) <= a,
{
    assert(0 as real <= a * y && 8 as real * (a * y) <= a) by (nonlinear_arith)
        requires
            a >= 0 as real,
            0 as real <= y,
            8 as real * y <= 1 as real,
    ;
}

/// The exponential in the density near zero.
proof fn lemma_near_exponential(x: Binary64)
    requires
        within(x, -1),
        !x.negative(),
    ensures
        exponential(argument(x)).is_finite(),
        within(exponential(argument(x)), 2),
        !exponential(argument(x)).negative(),
        10 as real * exact(exponential(argument(x))) >= 8 as real,
        exact(exponential(argument(x))) <= 4 as real,
{
    lemma_tiny();
    lemma_half();
    lemma_small_integers();
    lemma_small_powers();
    lemma_integer_bounds(1, 0, 0);
    lemma_integer_bounds(2, 1, 1);
    lemma_integer_bounds(4, 2, 2);
    lemma_exact_integer(4);
    lemma_quotient_within(integer(1), integer(2), 0, 1);
    let h = half::<Binary64>();
    lemma_mirror(h);
    let g = opposite(h);
    let u = product(g, x);
    lemma_product_within(g, x, -1, -1);
    let a = argument(x);
    lemma_product_within(u, x, -2, -1);
    let den = p(UNIT as int) as nat;
    lemma_encoded(g.negative() != x.negative(), nearest(g.units() * x.units(), den));
    lemma_encoded(u.negative() != x.negative(), nearest(u.units() * x.units(), den));
    lemma_decoded(a);
    lemma_mirror(a);
    let y = opposite(a);
    lemma_within_more(y, -3, 0);
    let e = epsilon();
    assert(8 as real * exact(y) <= 1 as real && exact(y) >= 0 as real) by {
        lemma_eighth(y);
    }
    if precedes(a, integer(0)) {
        crate::laws::normal::lemma_rising_low(y, HALVINGS as nat);
        lemma_exp_above_near(exact(y));
        let big = crate::binary64::series::rising(y, HALVINGS as nat);
        let g = quotient(integer(1), big);
        lemma_quotient_within(integer(1), big, 0, 0);
        lemma_some_units(big);
        lemma_encoded(false, nearest(integer(1).units() * den, big.units()));
        lemma_quotient_error(integer(1), big);
        lemma_exact_order(big, integer(1));
        lemma_decoded(big);
        let (r, q) = (exact(big), 1 as real / exact(big));
        assert(q * r == 1 as real) by (nonlinear_arith)
            requires
                q == 1 as real / r,
                r >= 1 as real,
        ;
        assert(10 as real * q >= 81 as real / 10 as real) by (nonlinear_arith)
            requires
                q * r == 1 as real,
                100 as real * r <= 123 as real,
                r >= 1 as real,
        ;
        assert(q <= 1 as real) by (nonlinear_arith)
            requires
                q * r == 1 as real,
                r >= 1 as real,
        ;
        lemma_scaled(e, size(q) + least(), 2 as real);
        lemma_within_more(g, 0, 2);
    } else {
        assert(a.code() == 0);
        lemma_zero_value(a);
        crate::laws::normal::lemma_rising_low(a, HALVINGS as nat);
        crate::laws::normal::lemma_exp_above_small(exact(a));
        let big = crate::binary64::series::rising(a, HALVINGS as nat);
        lemma_exact_order(big, integer(1));
        lemma_exact_order(integer(4), big);
        lemma_decoded(big);
        lemma_decoded(integer(4));
    }
}

/// At most an eighth.
proof fn lemma_eighth(y: Binary64)
    requires
        within(y, -3),
        y.value() >= 0,
    ensures
        8 as real * exact(y) <= 1 as real,
        exact(y) >= 0 as real,
{
    lemma_half();
    lemma_small_integers();
    lemma_small_powers();
    lemma_integer_bounds(8, 3, 3);
    lemma_exact_integer(8);
    lemma_exact_order(y, integer(0));
    law_order_of_values(y, integer(0));
    lemma_zero_value(integer(0));
    // Eight times the number is at most one, and the product is exact.
    let eight = integer(8);
    lemma_product_within(y, eight, -3, 3);
    reveal(exact);
    crate::binary64::bounds::lemma_power_units(y, -3);
    let (u, c) = (p(UNIT as int), p(UNIT - 3));
    crate::binary64::rounding::p_add(3, UNIT - 3);
    p_pos(UNIT as int);
    assert(y.value() == y.units());
    let (ry, ru) = (y.value() as real, u as real);
    assert(8 as real * ry <= ru);
    assert(8 as real * (ry / ru) <= 1 as real) by (nonlinear_arith)
        requires
            8 as real * ry <= ru,
            ru > 0 as real,
    ;
}

/// Within half of a deviation below zero.
proof fn lemma_near_side(x: Binary64, m: real, s: real)
    requires
        within(x, -1),
        !x.negative(),
        s > 0 as real,
        m >= 0 as real,
        size(exact(x) - m / s) <= epsilon() * (size(m / s) + least()),
    ensures
        ({
            let phi = density(x);
            let q = distribution(opposite(x), phi);
            &&& phi.is_finite()
            &&& !phi.negative()
            &&& q.is_finite()
            &&& exact(q) >= 0 as real
            &&& m * exact(q) <= s * exact(phi)
        }),
{
    lemma_tiny();
    lemma_half();
    lemma_small_integers();
    let (e, l) = (epsilon(), least());
    let phi = density(x);
    lemma_near_density(x);
    let f = exact(phi);
    // The series.
    lemma_within_more(x, -1, 1);
    lemma_within_more(x, -1, 3);
    lemma_decoded(x);
    crate::laws::partial::lemma_series_rises(x, x, x, 1);
    let series = series_from(x, x, x, 1);
    lemma_exact_order(series, integer(0));
    law_order_of_values(series, integer(0));
    lemma_zero_value(integer(0));
    lemma_product_within(phi, series, 1, 202);
    lemma_probability_below(x, phi);
    let (r, q) = (exact(x), exact(distribution(opposite(x), phi)));
    assert(2 as real * r <= 1 as real) by {
        lemma_small_powers();
        lemma_integer_bounds(1, 0, 0);
        lemma_integer_bounds(2, 1, 1);
        crate::laws::signs::lemma_half_beyond();
        lemma_exact_order(half::<Binary64>(), x);
    }
    lemma_ratio_above(m, s, r, e, l);
    let w = s * (1001 as real * r + e);
    assert(s * (1001 as real * r + e) <= s * 501 as real) by {
        lemma_scaled(s, 1001 as real * r + e, 501 as real);
    }
    assert(1000 as real * m <= 501 as real * s);
    assert(m * q <= s * f) by (nonlinear_arith)
        requires
            1000 as real * m <= 501 as real * s,
            m >= 0 as real,
            s > 0 as real,
            0 as real <= q,
            100 as real * q <= 51 as real,
            100 as real * f >= 30 as real,
    ;
}

/// The density is finite and not negative.
pub proof fn lemma_density_sign(a: Binary64)
    requires
        within(a, 3),
    ensures
        density(a).is_finite(),
        !density(a).negative(),
        within(density(a), 23),
{
    lemma_half();
    lemma_small_integers();
    lemma_small_powers();
    lemma_peak();
    lemma_integer_bounds(1, 0, 0);
    lemma_integer_bounds(2, 1, 1);
    lemma_quotient_within(integer(1), integer(2), 0, 1);
    let h = half::<Binary64>();
    lemma_mirror(h);
    let g = opposite(h);
    let x = product(g, a);
    let y = product(x, a);
    lemma_product_within(g, a, -1, 3);
    lemma_product_within(x, a, 2, 3);
    lemma_within_more(y, 5, 10);
    let den = p(UNIT as int) as nat;
    lemma_encoded(g.negative() != a.negative(), nearest(g.units() * a.units(), den));
    lemma_encoded(x.negative() != a.negative(), nearest(x.units() * a.units(), den));
    assert(y.negative());
    crate::laws::finite::lemma_exponential_range(y);
    let e = exponential(y);
    let k = peak_root();
    lemma_quotient_within(e, k, 24, 1);
    lemma_some_units(k);
    lemma_encoded(e.negative() != k.negative(), nearest(e.units() * den, k.units()));
    assert(!e.negative()) by {
        lemma_decoded(y);
        if precedes(y, integer(0)) {
            crate::laws::finite::lemma_exponential_below(y);
        } else {
            lemma_zero_value(y);
            lemma_within_more(y, 5, 10);
            crate::laws::finite::lemma_rising(y, HALVINGS as nat, 10);
        }
    }
}

/// The mean with a mean that is not negative.
proof fn lemma_mean_above(mu: Binary64, f: Binary64, s: Binary64)
    requires
        mu.is_finite(),
        mu.value() >= 0,
        f.is_undefined() || (f.is_finite() && f.value() >= 0),
        s.is_finite(),
        !s.negative(),
    ensures
        !precedes(sum(product(mu, f), s), integer(0)),
{
    lemma_small_integers();
    if f.is_finite() {
        let x = product(mu, f);
        let n = nearest(mu.units() * f.units(), p(UNIT as int) as nat);
        lemma_encoded(mu.negative() != f.negative(), n);
        lemma_decoded(mu);
        lemma_decoded(f);
        lemma_decoded(s);
        if x.is_finite() {
            crate::laws::finite::lemma_product_sign(mu, f);
            let v = x.value() + s.value();
            lemma_encoded(false, nearest(v as nat, 1));
            lemma_encoded(x.negative() && s.negative(), 0);
        } else if x.negative() {
            if mu.code() == 0 {
                crate::laws::double::lemma_times_zero(f, mu);
                crate::laws::double::law_double_commutes();
                reveal(crate::laws::arithmetic::multiplication_commutes);
                assert(mu.s_mul(f) == f.s_mul(mu));
            }
            if f.code() == 0 {
                crate::laws::double::lemma_times_zero(mu, f);
            }
            if mu.negative() && mu.code() > 0 {
                lemma_some_units(mu);
            }
            if f.negative() && f.code() > 0 {
                lemma_some_units(f);
            }
        }
    }
}

/// A probability is undefined or a number from zero to one.
proof fn lemma_probability(a: Binary64, phi: Binary64)
    ensures
        ({
            let f = distribution(a, phi);
            f.is_undefined() || (f.is_finite() && f.value() >= 0)
        }),
{
    let t = product(phi, series_from(a, a, a, 1));
    crate::laws::symmetry::lemma_distribution_form(a, phi, t);
    lemma_clamped_number(sum(half::<Binary64>(), t));
}

/// What is clamped is undefined or a number from zero to one.
proof fn lemma_clamped_number(d: Binary64)
    ensures
        ({
            let f = clamped(d, integer(0), integer(1));
            f.is_undefined() || (f.is_finite() && f.value() >= 0)
        }),
{
    let f = clamped(d, integer(0), integer(1));
    lemma_small_integers();
    lemma_zero_value(integer(0));
    if !d.is_undefined() {
        crate::laws::symmetry::lemma_clamped(d, 0 as real);
        lemma_half();
        lemma_exact_order(f, integer(0));
        law_order_of_values(f, integer(0));
    }
}

/// The mean with a negative mean within two deviations.
proof fn lemma_mean_below(mu: Binary64, v: Binary64)
    requires
        mu.is_finite(),
        mu.negative(),
        v.is_finite(),
        v.code() > 0,
        !v.negative(),
        !precedes(quotient(mu, square_root(v)), integer(-2)),
    ensures
        ({
            let sigma = square_root(v);
            let a = quotient(mu, sigma);
            let phi = density(a);
            !precedes(sum(product(mu, distribution(a, phi)), product(sigma, phi)), integer(0))
        }),
{
    lemma_half();
    let sigma = square_root(v);
    crate::laws::symmetry::lemma_deviation(v);
    let m = opposite(mu);
    lemma_mirror(mu);
    crate::laws::symmetry::lemma_opposite_ratio(mu, sigma);
    let a = quotient(mu, sigma);
    let x = quotient(m, sigma);
    lemma_mirror(a);
    lemma_decoded(a);
    lemma_mirror(x);
    lemma_decoded(x);
    lemma_decoded(opposite(x));
    assert(a == opposite(x));
    let n = nearest(m.units() * p(UNIT as int) as nat, sigma.units());
    lemma_some_units(sigma);
    lemma_encoded(false, n);
    lemma_encoded(true, n);
    assert(!x.negative());
    lemma_small_integers();
    lemma_small_powers();
    lemma_integer_bounds(2, 1, 1);
    crate::laws::symmetry::lemma_opposite_integers(2);
    assert(within(x, 1));
    lemma_quotient_error(m, sigma);
    let (rm, rs) = (exact(m), exact(sigma));
    lemma_exact_order(m, integer(0));
    law_order_of_values(m, integer(0));
    lemma_zero_value(integer(0));
    assert(rm >= 0 as real);
    crate::laws::symmetry::lemma_even_density(x);
    let phi = density(x);
    let q = distribution(a, phi);
    if within(x, -1) {
        lemma_near_side(x, rm, rs);
    } else {
        lemma_moderate_side(x, rm, rs);
    }
    lemma_within_more(x, 1, 3);
    lemma_density_sign(x);
    lemma_deviation_within(v);
    lemma_product_within(sigma, phi, 512, 23);
    lemma_exact_order(q, integer(0));
    law_order_of_values(q, integer(0));
    lemma_product_order(m, q, sigma, phi);
    let den = p(UNIT as int) as nat;
    lemma_encoded(mu.negative() != q.negative(), nearest(mu.units() * q.units(), den));
    lemma_encoded(m.negative() != q.negative(), nearest(m.units() * q.units(), den));
    lemma_encoded(sigma.negative() != phi.negative(), nearest(sigma.units() * phi.units(), den));
    lemma_sum_not_negative(product(mu, q), product(sigma, phi));
}

/// A deviation is at most `2^512`.
proof fn lemma_deviation_within(v: Binary64)
    requires
        v.is_finite(),
        v.code() > 0,
        !v.negative(),
    ensures
        within(square_root(v), 512),
{
    let n = v.units() * p(UNIT as int) as nat;
    p_pos(UNIT as int);
    crate::binary64::bounds::lemma_finite_units(v);
    crate::binary64::rounding::p_add(UNIT + 512, UNIT + 512);
    crate::binary64::rounding::p_add(UNIT + 1024, UNIT as int);
    let (a, b, c) = (p(UNIT + 1024), p(UNIT as int), v.units());
    assert(c * b <= a * b) by (nonlinear_arith)
        requires
            c <= a,
            b > 0,
    ;
    crate::binary64::bounds::lemma_root_at_most(n, UNIT + 512);
    lemma_encoded(false, crate::binary64::rounding::nearest_root(n));
}

/// In double precision the rectified mean of a vector's entry is not negative,
/// for every finite mean and every variance that is not.
pub proof fn law_double_vector_relu_mean_not_negative(mu: Binary64, v: Binary64)
    requires
        mu.is_finite(),
        v.is_finite(),
        !precedes(v, integer(0)),
    ensures
        !precedes(crate::vector::relu_mean(mu, v), integer(0)),
{
    lemma_small_integers();
    lemma_decoded(v);
    lemma_decoded(mu);
    if v.code() > 0 {
        let sigma = square_root(v);
        crate::laws::symmetry::lemma_deviation(v);
        crate::laws::symmetry::lemma_opposite_ratio(mu, sigma);
        let a = quotient(mu, sigma);
        crate::laws::symmetry::lemma_opposite_integers(2);
        crate::laws::symmetry::lemma_opposite_integers(8);
        crate::laws::symmetry::lemma_integer_order();
        lemma_small_powers();
        lemma_integer_bounds(2, 1, 1);
        lemma_integer_bounds(8, 3, 3);
        lemma_mirror(a);
        lemma_decoded(a);
        lemma_deviation_within(v);
        lemma_far_ratio(mu, sigma, a);
        let phi = density(a);
        if integer(8).s_le(a) || a.s_le(integer(-8)) {
        } else if precedes(a, integer(-2)) {
            let t = opposite(a);
            crate::laws::signs::lemma_density_beyond(a);
            crate::laws::signs::lemma_tail_moments(t, phi);
            let m = crate::gaussian::tail_mean(t, phi);
            lemma_encoded(
                sigma.negative() != m.negative(),
                nearest(sigma.units() * m.units(), p(UNIT as int) as nat),
            );
        } else if mu.negative() && mu.code() > 0 {
            lemma_mean_below(mu, v);
        } else {
            assert(within(a, 3));
            lemma_density_sign(a);
            lemma_probability(a, phi);
            lemma_product_within(sigma, phi, 512, 23);
            lemma_encoded(
                sigma.negative() != phi.negative(),
                nearest(sigma.units() * phi.units(), p(UNIT as int) as nat),
            );
            if mu.negative() {
                lemma_zero_value(mu);
            }
            lemma_mean_above(mu, distribution(a, phi), product(sigma, phi));
        }
    }
}

/// The ratio has the sign of the mean.
proof fn lemma_far_ratio(mu: Binary64, sigma: Binary64, a: Binary64)
    requires
        mu.is_finite(),
        sigma.is_finite(),
        sigma.code() > 0,
        !sigma.negative(),
        a == quotient(mu, sigma),
    ensures
        a.negative() == mu.negative(),
{
    lemma_encoded(
        mu.negative() != sigma.negative(),
        nearest(mu.units() * p(UNIT as int) as nat, sigma.units()),
    );
}

/// The density up to two deviations, and the probability beyond.
pub proof fn lemma_side_facts(x: Binary64)
    requires
        within(x, 1),
        !x.negative(),
    ensures
        ({
            let phi = density(x);
            let (r, f, q) = (exact(x), exact(phi), exact(distribution(opposite(x), phi)));
            &&& phi.is_finite()
            &&& !phi.negative()
            &&& within(phi, 1)
            &&& distribution(opposite(x), phi).is_finite()
            &&& 0 as real <= r <= 2 as real
            &&& 0 as real <= f <= 2 as real
            &&& 0 as real <= q
            &&& q <= 1 as real / 2 as real + 3 as real * epsilon()
            &&& 10000 as real * (r * q) <= 10000 as real * f - 1 as real
        }),
{
    lemma_tiny();
    lemma_half();
    lemma_small_integers();
    lemma_small_powers();
    lemma_integer_bounds(2, 1, 1);
    lemma_exact_integer(2);
    lemma_decoded(x);
    let phi = density(x);
    let series = series_from(x, x, x, 1);
    let (r, e) = (exact(x), epsilon());
    lemma_exact_order(x, integer(0));
    lemma_exact_order(integer(2), x);
    lemma_decoded(integer(2));
    if within(x, -1) {
        lemma_near_density(x);
        lemma_within_more(x, -1, 3);
        crate::laws::partial::lemma_series_rises(x, x, x, 1);
        lemma_exact_order(series, integer(0));
        law_order_of_values(series, integer(0));
        lemma_zero_value(integer(0));
        lemma_product_within(phi, series, 1, 202);
        lemma_probability_below(x, phi);
        lemma_integer_bounds(1, 0, 0);
        crate::laws::signs::lemma_half_beyond();
        lemma_exact_order(half::<Binary64>(), x);
        let q = exact(distribution(opposite(x), phi));
        assert(100 as real * (r * q) <= 26 as real) by (nonlinear_arith)
            requires
                2 as real * r <= 1 as real,
                100 as real * q <= 51 as real,
                0 as real <= r,
                0 as real <= q,
        ;
    } else {
        assert(is_moderate(x));
        lemma_moderate(x);
        lemma_tail_below(x);
        lemma_series_bound(x);
        lemma_mills(x);
        lemma_density_product(x);
        lemma_peak();
        lemma_product_within(phi, series, -1, 202);
        lemma_probability_below(x, phi);
        lemma_within_more(phi, -1, 1);
        let (f, t) = (exact(phi), exact(series));
        let (d, k) = (exact(denominator(x)), exact(peak_root()));
        lemma_exact_order(integer(2), phi);
        lemma_decoded(phi);
        assert(f * (d * k) <= 30 as real * f) by (nonlinear_arith)
            requires
                f >= 0 as real,
                0 as real <= d <= 10 as real,
                0 as real <= k <= 3 as real,
        ;
        let q = exact(distribution(opposite(x), phi));
        if q == 0 as real {
            assert(r * q == 0 as real) by (nonlinear_arith)
                requires
                    q == 0 as real,
            ;
        } else {
            let c = 1 as real / 2 as real - f * t + 4 as real * e;
            lemma_scaled(r, q, c);
            assert(r * (1 as real / 2 as real - f * t + 4 as real * e) == r / 2 as real - f * (r * t)
                + 4 as real * (r * e)) by (nonlinear_arith);
            assert(r * e <= 2 as real * e) by (nonlinear_arith)
                requires
                    r <= 2 as real,
                    e > 0 as real,
            ;
            assert(f * (1 as real + r * t) == f + f * (r * t)) by (nonlinear_arith);
        }
    }
}

/// The density near zero.
proof fn lemma_near_density(x: Binary64)
    requires
        within(x, -1),
        !x.negative(),
    ensures
        density(x).is_finite(),
        !density(x).negative(),
        within(density(x), 1),
        100 as real * exact(density(x)) >= 30 as real,
        exact(density(x)) <= 2 as real,
{
    lemma_tiny();
    lemma_near_exponential(x);
    lemma_peak();
    lemma_small_powers();
    let (e, l) = (epsilon(), least());
    let (g, k) = (exponential(argument(x)), peak_root());
    let phi = density(x);
    assert(phi == quotient(g, k));
    lemma_quotient_within(g, k, 2, 1);
    lemma_some_units(k);
    lemma_encoded(false, nearest(g.units() * p(UNIT as int) as nat, k.units()));
    lemma_quotient_error(g, k);
    let (a, b, f) = (exact(g), exact(k), exact(phi));
    let c = a / b;
    assert(c * b == a) by (nonlinear_arith)
        requires
            c == a / b,
            b > 0 as real,
    ;
    assert(100 as real * c >= 31 as real) by (nonlinear_arith)
        requires
            c * b == a,
            10 as real * a >= 8 as real,
            (0 as real) < b,
            10000 as real * b <= 25067 as real,
    ;
    assert(c <= 4 as real) by (nonlinear_arith)
        requires
            c * b == a,
            a <= 4 as real,
            b >= 1 as real,
    ;
    lemma_scaled(e, size(c) + l, 5 as real);
    lemma_integer_bounds(2, 1, 1);
    lemma_exact_integer(2);
    lemma_exact_order(integer(2), phi);
    lemma_decoded(phi);
    lemma_decoded(integer(2));
}

} // verus!
