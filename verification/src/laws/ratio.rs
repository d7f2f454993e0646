//! The density and the tail of the normal distribution near zero.
use vstd::prelude::*;

use crate::binary64::series::HALVINGS;
use crate::binary64::{Binary64, UNIT};
use crate::scalar::Scalar;

verus! {

use crate::binary64::arithmetic::{integer, opposite, product, quotient, square_root};
use crate::binary64::bounds::{
    beyond, lemma_beyond_less, lemma_integer_bounds, lemma_product_beyond, lemma_product_within,
    lemma_quotient_within, lemma_root_beyond, lemma_root_within, lemma_within_more, within,
};
use crate::binary64::compare::precedes;
use crate::binary64::errors::{
    epsilon, exact, least, lemma_exact_opposite, lemma_product_error, lemma_quotient_error,
    lemma_root_error, size,
};
use crate::binary64::rounding::{p, p_add, p_pos, p_values};
use crate::binary64::series::{circle, exponential, rising};
use crate::binary64::{lemma_decoded, lemma_encoded};
use crate::gaussian::density;
use crate::laws::accuracy::lemma_sizes;
use crate::laws::double::lemma_small_integers;
use crate::laws::finite::{lemma_circle, lemma_constants, lemma_small_powers, lemma_some_units};
use crate::laws::mills::{exp_above, lemma_lower_range, lemma_upper_range, series_below};
use crate::laws::normal::{
    lemma_exact_integer, lemma_exp_above_small, lemma_not_negative, lemma_rising_high,
    lemma_rising_low, lemma_tiny,
};
use crate::laws::symmetry::{lemma_exact_order, lemma_half, lemma_mirror, lemma_scaled};
use crate::scalar::half;

/// The argument of the exponential in the density.
pub open spec fn argument(x: Binary64) -> Binary64 {
    product(product(opposite(half::<Binary64>()), x), x)
}

/// Numbers from one half to two.
pub open spec fn is_moderate(x: Binary64) -> bool {
    within(x, 1) && beyond(x, -1)
}

/// What a moderate number stands for.
pub proof fn lemma_moderate(x: Binary64)
    requires
        is_moderate(x),
    ensures
        1 as real <= 2 as real * exact(x),
        exact(x) <= 2 as real,
{
    lemma_half();
    lemma_small_integers();
    lemma_small_powers();
    lemma_integer_bounds(2, 1, 1);
    lemma_exact_integer(2);
    lemma_exact_order(integer(2), x);
    lemma_exact_order(x, half::<Binary64>());
    crate::laws::signs::lemma_half_beyond();
    lemma_integer_bounds(1, 0, 0);
    lemma_quotient_within(integer(1), integer(2), 0, 1);
    lemma_decoded(x);
}

/// The argument is minus half the square, up to rounding.
pub proof fn lemma_argument(x: Binary64)
    requires
        is_moderate(x),
    ensures
        ({
            let (a, w) = (argument(x), exact(x) * exact(x));
            &&& within(a, 1)
            &&& precedes(a, integer(0))
            &&& opposite(a).value() >= 0
            &&& within(opposite(a), 1)
            &&& size(exact(opposite(a)) - w / 2 as real) <= 3 as real * (epsilon() * w)
            &&& 1 as real <= 4 as real * w
            &&& w <= 4 as real
        }),
{
    lemma_moderate(x);
    lemma_tiny();
    lemma_half();
    lemma_constants();
    lemma_small_integers();
    lemma_small_powers();
    let h = half::<Binary64>();
    lemma_mirror(h);
    lemma_exact_opposite(h);
    let g = opposite(h);
    let u = product(g, x);
    lemma_integer_bounds(1, 0, 0);
    lemma_integer_bounds(2, 1, 1);
    lemma_quotient_within(integer(1), integer(2), 0, 1);
    lemma_product_within(g, x, -1, 1);
    lemma_product_error(g, x);
    let a = argument(x);
    lemma_product_within(u, x, 0, 1);
    lemma_product_error(u, x);
    lemma_mirror(a);
    lemma_exact_opposite(a);
    lemma_decoded(a);
    let (r, e, l) = (exact(x), epsilon(), least());
    let w = r * r;
    assert(1 as real <= 4 as real * w && w <= 4 as real) by (nonlinear_arith)
        requires
            w == r * r,
            1 as real <= 2 as real * r,
            r <= 2 as real,
    ;
    let k = exact(u);
    let m = r / 2 as real;
    assert(exact(g) * r == -m) by (nonlinear_arith)
        requires
            exact(g) == -(1 as real / 2 as real),
            m == r / 2 as real,
    ;
    // |k + m| <= e (m + l)
    let d = k + m;
    assert(size(d) <= e * (m + l));
    lemma_scaled(e, m + l, r);
    assert(size(d) <= e * r);
    assert(k * r == d * r - w / 2 as real) by (nonlinear_arith)
        requires
            d == k + m,
            m == r / 2 as real,
            w == r * r,
    ;
    lemma_sizes(d, r);
    assert(size(d) * r <= e * w) by (nonlinear_arith)
        requires
            size(d) <= e * r,
            r >= 0 as real,
            w == r * r,
    ;
    let ew = e * w;
    assert(ew <= w / 8 as real) by (nonlinear_arith)
        requires
            ew == e * w,
            8 as real * e <= 1 as real,
            w >= 0 as real,
    ;
    assert(size(k * r) <= w - l) by {
        assert(size(d * r) <= ew);
        assert(size(k * r) <= w / 2 as real + ew);
    }
    lemma_scaled(e, size(k * r) + l, w);
    let b = exact(a);
    assert(size(b - k * r) <= ew);
    assert(size(b + w / 2 as real) <= 2 as real * ew);
    assert(b < 0 as real);
    lemma_exact_order(a, integer(0));
    crate::binary64::compare::law_order_of_values(a, integer(0));
    crate::laws::finite::lemma_zero_value(integer(0));
}

/// The circle constant to seven places.
pub proof fn lemma_circle_value()
    ensures
        31415926 as real <= 10000000 as real * exact(circle()),
        10000000 as real * exact(circle()) <= 31415927 as real,
        circle().is_finite(),
{
    let c = exact(circle());
    reveal(exact);
    lemma_decoded(circle());
    p_values();
    p_add(1023, 51);
    vstd::arithmetic::power2::lemma2_to64();
    vstd::arithmetic::power2::lemma2_to64_rest();
    let m = p(1023);
    p_pos(1023);
    let d = circle().digits();
    assert(circle().scale() == 1023);
    assert(circle().units() == d * m);
    let (rd, rm) = (d as real, m as real);
    assert((d * m) as real == rd * rm) by (nonlinear_arith)
        requires
            rd == d as real,
            rm == m as real,
    ;
    let n = p(51);
    let rn = n as real;
    assert((m * n) as real == rm * rn) by (nonlinear_arith)
        requires
            rm == m as real,
            rn == n as real,
    ;
    assert(c == (rd * rm) / (rm * rn));
    assert(c * rn == rd) by (nonlinear_arith)
        requires
            c == (rd * rm) / (rm * rn),
            rm > 0 as real,
            rn > 0 as real,
    ;
    assert(n == 0x8_0000_0000_0000);
    assert(d == 0x19_21fb_5444_2d18);
    assert(c * 0x8_0000_0000_0000 as real == 0x19_21fb_5444_2d18 as real) by (nonlinear_arith)
        requires
            c * rn == rd,
            rn == 0x8_0000_0000_0000 as real,
            rd == 0x19_21fb_5444_2d18 as real,
    ;
}

/// The root of twice the circle constant.
pub proof fn lemma_peak()
    ensures
        ({
            let k = square_root(product(integer(2), circle()));
            &&& k.is_finite()
            &&& k.code() > 0
            &&& beyond(k, 1)
            &&& within(k, 2)
            &&& 2506627 as real <= 1000000 as real * exact(k)
            &&& 10000 as real * exact(k) <= 25067 as real
        }),
{
    lemma_tiny();
    lemma_small_powers();
    lemma_integer_bounds(2, 1, 1);
    lemma_exact_integer(2);
    lemma_circle();
    lemma_product_within(integer(2), circle(), 1, 2);
    lemma_product_beyond(integer(2), circle(), 1, 1);
    let v = product(integer(2), circle());
    lemma_root_beyond(v, 1);
    lemma_within_more(v, 3, 4);
    lemma_root_within(v, 2);
    lemma_root_error(v);
    lemma_product_error(integer(2), circle());
    let c = exact(circle());
    assert(31415926 as real <= 10000000 as real * c <= 31415927 as real) by {
        lemma_circle_value();
    }
    let (e, l) = (epsilon(), least());
    let t = exact(v);
    assert(exact(integer(2)) * c == 2 as real * c);
    lemma_scaled(e, size(2 as real * c) + l, 8 as real);
    let s = exact(square_root(v));
    let ss = s * s;
    let q = (1 as real + e) * (1 as real + e) - 1 as real;
    assert(q == 2 as real * e + e * e) by (nonlinear_arith)
        requires
            q == (1 as real + e) * (1 as real + e) - 1 as real,
    ;
    assert(e * e <= e) by (nonlinear_arith)
        requires
            0 as real <= e <= 1 as real,
    ;
    assert(ss >= 0 as real) by (nonlinear_arith)
        requires
            ss == s * s,
    ;
    assert(q * ss <= 3 as real * (e * ss)) by (nonlinear_arith)
        requires
            q <= 3 as real * e,
            ss >= 0 as real,
    ;
    assert(e * ss <= ss / 1000000000 as real) by (nonlinear_arith)
        requires
            1000000000 as real * e <= 1 as real,
            ss >= 0 as real,
    ;
    assert(s > 0 as real) by {
        lemma_half();
        lemma_exact_order(integer(0), square_root(v));
        lemma_small_integers();
        lemma_decoded(square_root(v));
    }
    assert(62831 as real <= 10000 as real * ss);
    assert(10000 as real * ss <= 62833 as real);
    assert(62831840 as real <= 10000000 as real * ss);
    assert(10000 as real * s <= 25067 as real) by (nonlinear_arith)
        requires
            ss == s * s,
            10000 as real * ss <= 62833 as real,
            s > 0 as real,
    ;
    assert(2506627 as real <= 1000000 as real * s) by (nonlinear_arith)
        requires
            ss == s * s,
            62831840 as real <= 10000000 as real * ss,
            s > 0 as real,
    ;
}

/// The rising exponential in the density.
pub open spec fn denominator(x: Binary64) -> Binary64 {
    rising(opposite(argument(x)), HALVINGS as nat)
}

/// The root of twice the circle constant.
pub open spec fn peak_root() -> Binary64 {
    square_root(product(integer(2), circle()))
}

/// A quotient of positive numbers times its denominator.
pub proof fn lemma_quotient_times(n: real, d: real, q: real, e: real, l: real)
    requires
        d > 0 as real,
        size(q - n / d) <= e * (size(n / d) + l),
        n >= 0 as real,
        e > 0 as real,
    ensures
        size(q * d - n) <= e * (n + l * d),
{
    let r = n / d;
    assert(r * d == n) by (nonlinear_arith)
        requires
            r == n / d,
            d > 0 as real,
    ;
    assert(r >= 0 as real) by (nonlinear_arith)
        requires
            r * d == n,
            n >= 0 as real,
            d > 0 as real,
    ;
    let z = q - r;
    assert(z * d == q * d - r * d) by (nonlinear_arith)
        requires
            z == q - r,
    ;
    lemma_sizes(z, d);
    let b = r + l;
    assert(size(z) * d <= (e * b) * d) by (nonlinear_arith)
        requires
            size(z) <= e * b,
            d > 0 as real,
    ;
    assert((e * (r + l)) * d == e * (r * d + l * d)) by (nonlinear_arith);
}

/// The density times its denominator is one, up to rounding.
pub proof fn lemma_density_product(x: Binary64)
    requires
        is_moderate(x),
        denominator(x).is_finite(),
        beyond(denominator(x), 0),
        exact(denominator(x)) <= 10 as real,
    ensures
        ({
            let (f, r, k) = (exact(density(x)), exact(denominator(x)), exact(peak_root()));
            &&& density(x).is_finite()
            &&& within(density(x), -1)
            &&& !density(x).negative()
            &&& 1 as real <= r
            &&& f * (r * k) >= 1 as real - 10 as real * epsilon()
            &&& f * (r * k) <= 1 as real + 10 as real * epsilon()
        }),
{
    lemma_tiny();
    lemma_argument(x);
    lemma_peak();
    lemma_half();
    lemma_small_integers();
    lemma_small_powers();
    lemma_integer_bounds(1, 0, 0);
    let (one, big, root) = (integer(1), denominator(x), peak_root());
    let inverse = quotient(one, big);
    assert(exponential(argument(x)) == inverse);
    lemma_quotient_within(one, big, 0, 0);
    lemma_some_units(big);
    lemma_encoded(false, crate::binary64::rounding::nearest(one.units() * p(UNIT as int) as nat, big.units()));
    lemma_quotient_error(one, big);
    lemma_quotient_within(inverse, root, 0, 1);
    lemma_some_units(root);
    lemma_encoded(
        false,
        crate::binary64::rounding::nearest(inverse.units() * p(UNIT as int) as nat, root.units()),
    );
    lemma_quotient_error(inverse, root);
    assert(density(x) == quotient(inverse, root));
    let (f, g, r, k) = (exact(density(x)), exact(inverse), exact(big), exact(root));
    let (e, l) = (epsilon(), least());
    lemma_exact_order(big, one);
    lemma_decoded(big);
    assert(r >= 1 as real);
    lemma_quotient_times(1 as real, r, g, e, l);
    lemma_exact_order(inverse, integer(0));
    lemma_decoded(inverse);
    assert(g >= 0 as real);
    lemma_quotient_times(g, k, f, e, l);
    // r g is one, k f is g.
    assert(l * r <= 10 as real * e) by (nonlinear_arith)
        requires
            l <= e,
            l > 0 as real,
            0 as real <= r <= 10 as real,
            e > 0 as real,
    ;
    lemma_scaled(e, 1 as real + l * r, 2 as real);
    let a = g * r;
    assert(size(a - 1 as real) <= 2 as real * e);
    let b = f * k;
    assert(l * k <= 10 as real * e) by (nonlinear_arith)
        requires
            l <= e,
            l > 0 as real,
            0 as real <= k <= 10 as real,
            e > 0 as real,
    ;
    let d = b - g;
    assert(size(d) <= e * (g + l * k));
    lemma_sizes(d, r);
    assert(size(d) * r <= (e * (g + l * k)) * r) by (nonlinear_arith)
        requires
            size(d) <= e * (g + l * k),
            r >= 0 as real,
    ;
    assert((e * (g + l * k)) * r == e * (g * r + (l * k) * r)) by (nonlinear_arith);
    let c = l * k;
    lemma_not_negative(l, k);
    assert(c * r <= 1 as real) by (nonlinear_arith)
        requires
            0 as real <= c <= 10 as real * e,
            100 as real * e <= 1 as real,
            0 as real <= r <= 10 as real,
    ;
    lemma_scaled(e, a + c * r, 3 as real);
    assert(d * r == b * r - a) by (nonlinear_arith)
        requires
            d == b - g,
            a == g * r,
    ;
    assert(f * (r * k) == b * r) by (nonlinear_arith)
        requires
            b == f * k,
    ;
}

/// A square bounds its root from above.
proof fn lemma_root_above(x: real, c: real)
    ensures
        (2 as real * c) * x <= x * x + c * c,
{
    let d = x - c;
    assert(d * d >= 0 as real) by (nonlinear_arith);
    assert(d * d == x * x - (2 as real * c) * x + c * c) by (nonlinear_arith)
        requires
            d == x - c,
    ;
}

/// One more power, of a number that is hardly smaller.
proof fn lemma_power_step(a: real, b: real, w: real, z: real, c: real, d: real)
    requires
        a >= (1 as real - c) * b,
        w >= (1 as real - d) * z,
        b >= 0 as real,
        z >= 0 as real,
        0 as real <= c <= 1 as real,
        0 as real <= d <= 1 as real,
    ensures
        a * w >= (1 as real - (c + d)) * (b * z),
        b * z >= 0 as real,
{
    let (p, q) = ((1 as real - c) * b, (1 as real - d) * z);
    lemma_not_negative(1 as real - c, b);
    lemma_not_negative(1 as real - d, z);
    assert(a * w >= p * q) by (nonlinear_arith)
        requires
            a >= p,
            w >= q,
            p >= 0 as real,
            q >= 0 as real,
    ;
    lemma_not_negative(b, z);
    let m = b * z;
    let k = (1 as real - c) * (1 as real - d);
    assert(p * q == k * m) by (nonlinear_arith)
        requires
            p == (1 as real - c) * b,
            q == (1 as real - d) * z,
            m == b * z,
            k == (1 as real - c) * (1 as real - d),
    ;
    assert(k >= 1 as real - (c + d)) by (nonlinear_arith)
        requires
            k == (1 as real - c) * (1 as real - d),
            c >= 0 as real,
            d >= 0 as real,
    ;
    let h = 1 as real - (c + d);
    assert(k * m >= h * m) by (nonlinear_arith)
        requires
            k >= h,
            m >= 0 as real,
    ;
}

/// The lower bound of the series hardly falls where its argument hardly falls.
pub proof fn lemma_series_scaled(w: real, z: real, d: real)
    requires
        w >= (1 as real - d) * z,
        z >= 0 as real,
        0 as real <= d,
        8 as real * d <= 1 as real,
    ensures
        series_below(w) >= (1 as real - 8 as real * d) * series_below(z),
        series_below(z) >= 1 as real,
{
    let z2 = z * z;
    let z3 = z2 * z;
    let z4 = z3 * z;
    let z5 = z4 * z;
    let z6 = z5 * z;
    let z7 = z6 * z;
    let z8 = z7 * z;
    let w2 = w * w;
    let w3 = w2 * w;
    let w4 = w3 * w;
    let w5 = w4 * w;
    let w6 = w5 * w;
    let w7 = w6 * w;
    let w8 = w7 * w;
    lemma_power_step(w, z, w, z, d, d);
    lemma_power_step(w2, z2, w, z, 2 as real * d, d);
    lemma_power_step(w3, z3, w, z, 3 as real * d, d);
    lemma_power_step(w4, z4, w, z, 4 as real * d, d);
    lemma_power_step(w5, z5, w, z, 5 as real * d, d);
    lemma_power_step(w6, z6, w, z, 6 as real * d, d);
    lemma_power_step(w7, z7, w, z, 7 as real * d, d);
    let h = 1 as real - 8 as real * d;
    lemma_less_factor(h, 1 as real - d, z);
    lemma_less_factor(h, 1 as real - (d + d), z2);
    lemma_less_factor(h, 1 as real - (2 as real * d + d), z3);
    lemma_less_factor(h, 1 as real - (3 as real * d + d), z4);
    lemma_less_factor(h, 1 as real - (4 as real * d + d), z5);
    lemma_less_factor(h, 1 as real - (5 as real * d + d), z6);
    lemma_less_factor(h, 1 as real - (6 as real * d + d), z7);
    reveal(series_below);
    lemma_part_scaled(h, z2, 3 as real);
    lemma_part_scaled(h, z3, 15 as real);
    lemma_part_scaled(h, z4, 105 as real);
    lemma_part_scaled(h, z5, 945 as real);
    lemma_part_scaled(h, z6, 10395 as real);
    lemma_part_scaled(h, z7, 135135 as real);
    lemma_part_scaled(h, z8, 2027025 as real);
    lemma_sum_scaled(
        h,
        z,
        z2 / 3 as real,
        z3 / 15 as real,
        z4 / 105 as real,
        z5 / 945 as real,
        z6 / 10395 as real,
        z7 / 135135 as real,
        z8 / 2027025 as real,
    );
}

/// A smaller factor of a number that is not negative.
proof fn lemma_less_factor(a: real, b: real, z: real)
    requires
        a <= b,
        z >= 0 as real,
    ensures
        a * z <= b * z,
{
    assert(a * z <= b * z) by (nonlinear_arith)
        requires
            a <= b,
            z >= 0 as real,
    ;
}

/// A part of a multiple.
proof fn lemma_part_scaled(h: real, a: real, n: real)
    requires
        n > 0 as real,
    ensures
        h * (a / n) == (h * a) / n,
{
    assert(h * (a / n) == (h * a) / n) by (nonlinear_arith)
        requires
            n > 0 as real,
    ;
}

/// A factor of one and eight terms.
proof fn lemma_sum_scaled(
    h: real,
    a: real,
    b: real,
    c: real,
    d: real,
    e: real,
    f: real,
    g: real,
    i: real,
)
    ensures
        h * (1 as real + a + b + c + d + e + f + g + i) == h + h * a + h * b + h * c + h * d + h * e + h
            * f + h * g + h * i,
{
    assert(h * (1 as real + a + b + c + d + e + f + g + i) == h + h * a + h * b + h * c + h * d + h * e
        + h * f + h * g + h * i) by (nonlinear_arith);
}

/// The errors of the bound, put together.
proof fn lemma_bound_total(
    k: real,
    x: real,
    r: real,
    b: real,
    h: real,
    t: real,
    d: real,
    e: real,
)
    requires
        0 as real <= k,
        10000 as real * k <= 25067 as real,
        0 as real <= x <= 2 as real,
        25067 as real * (x * b) <= 19960 as real * h,
        0 as real <= b,
        r <= b + 60000 as real * e,
        t >= (1 as real - 8 as real * d) * h,
        0 as real <= d <= 50 as real * e,
        h >= 1 as real,
        (0 as real) < e,
        1000000000000 as real * e <= 1 as real,
    ensures
        1000 as real * (k * (x * r)) <= 1998 as real * t,
{
    let m = x * b;
    lemma_not_negative(x, b);
    let c = 60000 as real * e;
    lemma_scaled(x, r, b + c);
    assert(x * (b + c) == m + x * c) by (nonlinear_arith)
        requires
            m == x * b,
    ;
    assert(x * c <= 2 as real * c) by (nonlinear_arith)
        requires
            x <= 2 as real,
            c >= 0 as real,
    ;
    lemma_scaled(k, x * r, m + 2 as real * c);
    let n = m + 2 as real * c;
    assert(10000 as real * (k * n) <= 25067 as real * n) by (nonlinear_arith)
        requires
            10000 as real * k <= 25067 as real,
            n >= 0 as real,
    ;
    let g = d * h;
    assert((1 as real - 8 as real * d) * h == h - 8 as real * g) by (nonlinear_arith)
        requires
            g == d * h,
    ;
    assert(g <= 50 as real * (e * h)) by (nonlinear_arith)
        requires
            g == d * h,
            d <= 50 as real * e,
            h >= 0 as real,
    ;
    assert(e * h <= h / 1000000000000 as real) by (nonlinear_arith)
        requires
            1000000000000 as real * e <= 1 as real,
            h >= 0 as real,
    ;
}

/// `sqrt(2 pi) x R` is less than `2 (1 + x S)` by a thousandth, for the
/// denominator `R` of the density.
pub proof fn lemma_mills(x: Binary64)
    requires
        is_moderate(x),
    ensures
        denominator(x).is_finite(),
        beyond(denominator(x), 0),
        exact(denominator(x)) <= 10 as real,
        1000 as real * (exact(peak_root()) * (exact(x) * exact(denominator(x)))) <= 1998 as real
            * series_below(exact(x) * exact(x)),
{
    lemma_argument(x);
    lemma_tiny();
    let ew = epsilon() * (exact(x) * exact(x));
    lemma_not_negative(epsilon(), exact(x) * exact(x));
    lemma_mills_at(x, opposite(argument(x)));
}

/// The same for an argument of the exponential that is close to half the
/// square.
pub proof fn lemma_mills_at(x: Binary64, y: Binary64)
    requires
        is_moderate(x),
        within(y, 2),
        y.value() >= 0,
        size(exact(y) - (exact(x) * exact(x)) / 2 as real) <= 12 as real * (epsilon() * (exact(x)
            * exact(x))),
    ensures
        rising(y, HALVINGS as nat).is_finite(),
        beyond(rising(y, HALVINGS as nat), 0),
        exact(rising(y, HALVINGS as nat)) <= 10 as real,
        1000 as real * (exact(peak_root()) * (exact(x) * exact(rising(y, HALVINGS as nat))))
            <= 1998 as real * series_below(exact(x) * exact(x)),
{
    lemma_small_integers();
    lemma_small_powers();
    lemma_integer_bounds(2, 1, 1);
    lemma_decoded(y);
    if y.negative() && y.code() > 0 {
        lemma_some_units(y);
    }
    if precedes(integer(2), y) {
        lemma_mills_over(x, y);
    } else if precedes(integer(1), y) {
        lemma_mills_high(x, y);
    } else {
        lemma_mills_low(x, y);
    }
}

/// The bound of the exponential at one half.
proof fn lemma_exp_above_middle(z: real)
    requires
        0 as real <= z,
        10000 as real * z <= 5001 as real,
    ensures
        10000 as real * exp_above(z) <= 16490 as real,
{
    let z2 = z * z;
    let z3 = z2 * z;
    let z4 = z3 * z;
    let z5 = z4 * z;
    lemma_half_part(z, z);
    lemma_half_part(z2, z);
    lemma_half_part(z3, z);
    lemma_half_part(z4, z);
    reveal(exp_above);
}

/// Hardly more than half.
proof fn lemma_half_part(a: real, z: real)
    requires
        a >= 0 as real,
        0 as real <= z,
        10000 as real * z <= 5001 as real,
    ensures
        0 as real <= a * z,
        10000 as real * (a * z) <= 5001 as real * a,
{
    assert(0 as real <= a * z && 10000 as real * (a * z) <= 5001 as real * a) by (nonlinear_arith)
        requires
            a >= 0 as real,
            0 as real <= z,
            10000 as real * z <= 5001 as real,
    ;
}

/// The bound of the exponential at one.
proof fn lemma_exp_above_end(u: real)
    requires
        0 as real <= u <= 1 as real,
    ensures
        10000 as real * exp_above(u) <= 27190 as real,
{
    let u2 = u * u;
    let u3 = u2 * u;
    let u4 = u3 * u;
    let u5 = u4 * u;
    crate::laws::normal::lemma_at_most_one(u, u);
    crate::laws::normal::lemma_at_most_one(u2, u);
    crate::laws::normal::lemma_at_most_one(u3, u);
    crate::laws::normal::lemma_at_most_one(u4, u);
    reveal(exp_above);
}

/// The square of a number of at least one.
proof fn lemma_squared_bound(k: Binary64, c: real)
    requires
        beyond(k, 0),
        10000 as real * exact(k) <= c,
        c <= 30000 as real,
    ensures
        product(k, k).is_finite(),
        beyond(product(k, k), 0),
        100000000 as real * exact(product(k, k)) <= c * c + 1000 as real,
{
    lemma_tiny();
    lemma_half();
    lemma_small_integers();
    lemma_small_powers();
    lemma_integer_bounds(4, 2, 2);
    lemma_exact_integer(4);
    lemma_exact_order(integer(4), k);
    lemma_exact_order(k, integer(1));
    lemma_decoded(k);
    lemma_decoded(integer(4));
    lemma_product_within(k, k, 2, 2);
    lemma_product_beyond(k, k, 0, 0);
    lemma_product_error(k, k);
    let (r, e) = (exact(k), epsilon());
    let rr = r * r;
    let b = 10000 as real * r;
    assert(b * b <= c * c) by (nonlinear_arith)
        requires
            0 as real <= b <= c,
    ;
    assert(b * b == 100000000 as real * rr) by (nonlinear_arith)
        requires
            b == 10000 as real * r,
            rr == r * r,
    ;
    assert(0 as real <= rr <= 9 as real) by (nonlinear_arith)
        requires
            rr == r * r,
            0 as real <= r <= 3 as real,
    ;
    lemma_scaled(e, size(rr) + least(), 10 as real);
}

/// The lower bound of the series at four.
proof fn lemma_series_at_end(w: real, e: real)
    requires
        w >= 4 as real - 96 as real * e,
        (0 as real) < e,
        1000000000 as real * e <= 1 as real,
    ensures
        100 as real * series_below(w) >= 1866 as real,
{
    let d = 24 as real * e;
    assert((1 as real - d) * 4 as real == 4 as real - 96 as real * e);
    lemma_series_scaled(w, 4 as real, d);
    let s = series_below(4 as real);
    assert(1000 as real * s >= 18669 as real && s <= 20 as real) by {
        reveal(series_below);
    }
    let h = 1 as real - 8 as real * d;
    assert(h * s == s - (8 as real * d) * s) by (nonlinear_arith)
        requires
            h == 1 as real - 8 as real * d,
    ;
    assert((8 as real * d) * s <= 160 as real * d) by (nonlinear_arith)
        requires
            s <= 20 as real,
            d >= 0 as real,
    ;
}

/// The same for an argument just above two.
proof fn lemma_mills_over(x: Binary64, y: Binary64)
    requires
        is_moderate(x),
        within(y, 2),
        y.value() >= 0,
        precedes(integer(2), y),
        size(exact(y) - (exact(x) * exact(x)) / 2 as real) <= 12 as real * (epsilon() * (exact(x)
            * exact(x))),
    ensures
        rising(y, HALVINGS as nat).is_finite(),
        beyond(rising(y, HALVINGS as nat), 0),
        exact(rising(y, HALVINGS as nat)) <= 10 as real,
        1000 as real * (exact(peak_root()) * (exact(x) * exact(rising(y, HALVINGS as nat))))
            <= 1998 as real * series_below(exact(x) * exact(x)),
{
    lemma_tiny();
    lemma_moderate(x);
    lemma_peak();
    lemma_half();
    lemma_small_integers();
    lemma_small_powers();
    lemma_integer_bounds(1, 0, 0);
    lemma_integer_bounds(2, 1, 1);
    lemma_exact_integer(2);
    lemma_decoded(y);
    let (e, r, v) = (epsilon(), exact(x), exact(y));
    let w = r * r;
    assert(0 as real <= w <= 4 as real) by (nonlinear_arith)
        requires
            w == r * r,
            0 as real <= r <= 2 as real,
    ;
    let ew = e * w;
    assert(0 as real <= ew <= 4 as real * e) by (nonlinear_arith)
        requires
            ew == e * w,
            0 as real <= w <= 4 as real,
            e > 0 as real,
    ;
    lemma_exact_order(integer(2), y);
    assert(v <= 2 as real + 48 as real * e);
    assert(w >= 4 as real - 96 as real * e);
    // Two halvings.
    let part = quotient(y, integer(2));
    lemma_quotient_within(y, integer(2), 2, 1);
    lemma_beyond_less(integer(2), 1, 0);
    crate::laws::finite::lemma_quotient_sign(y, integer(2));
    lemma_quotient_error(y, integer(2));
    lemma_scaled(e, size(v / 2 as real) + least(), 2 as real);
    let u = exact(part);
    assert(u <= 1 as real + 30 as real * e);
    if precedes(integer(1), part) {
        lemma_exact_order(integer(1), part);
        let quarter = quotient(part, integer(2));
        lemma_quotient_within(part, integer(2), 1, 1);
        crate::laws::finite::lemma_quotient_sign(part, integer(2));
        lemma_quotient_error(part, integer(2));
        lemma_scaled(e, size(u / 2 as real) + least(), 2 as real);
        let z = exact(quarter);
        assert(10000 as real * z <= 5001 as real);
        lemma_rising_low(quarter, (HALVINGS - 2) as nat);
        lemma_exp_above_middle(z);
        let k = rising(quarter, (HALVINGS - 2) as nat);
        lemma_squared_bound(k, 16491 as real);
        let k2 = product(k, k);
        lemma_squared_bound(k2, 27197 as real);
        assert(rising(part, (HALVINGS - 1) as nat) == k2);
        assert(rising(y, HALVINGS as nat) == product(k2, k2));
    } else {
        lemma_exact_order(integer(1), part);
        lemma_decoded(part);
        if part.negative() && part.code() > 0 {
            lemma_some_units(part);
        }
        lemma_rising_low(part, (HALVINGS - 1) as nat);
        lemma_exp_above_end(u);
        let k = rising(part, (HALVINGS - 1) as nat);
        lemma_squared_bound(k, 27197 as real);
        assert(rising(y, HALVINGS as nat) == product(k, k));
    }
    let big = exact(rising(y, HALVINGS as nat));
    assert(1000 as real * big <= 7400 as real);
    lemma_series_at_end(w, e);
    let k = exact(peak_root());
    lemma_exact_order(rising(y, HALVINGS as nat), integer(1));
    lemma_decoded(rising(y, HALVINGS as nat));
    assert(1000000 as real * (k * (r * big)) <= 37110000 as real) by (nonlinear_arith)
        requires
            0 as real <= k,
            10000 as real * k <= 25067 as real,
            0 as real <= r <= 2 as real,
            0 as real <= big,
            1000 as real * big <= 7400 as real,
    ;
}

/// The same up to a square of two.
proof fn lemma_mills_low(x: Binary64, y: Binary64)
    requires
        is_moderate(x),
        within(y, 1),
        y.value() >= 0,
        !precedes(integer(1), y),
        size(exact(y) - (exact(x) * exact(x)) / 2 as real) <= 12 as real * (epsilon() * (exact(x)
            * exact(x))),
    ensures
        rising(y, HALVINGS as nat).is_finite(),
        beyond(rising(y, HALVINGS as nat), 0),
        exact(rising(y, HALVINGS as nat)) <= 10 as real,
        1000 as real * (exact(peak_root()) * (exact(x) * exact(rising(y, HALVINGS as nat))))
            <= 1998 as real * series_below(exact(x) * exact(x)),
{
    lemma_tiny();
    lemma_moderate(x);
    lemma_peak();
    lemma_small_integers();
    lemma_decoded(y);
    if y.negative() && y.code() > 0 {
        lemma_some_units(y);
    }
    assert(within(y, 0));
    lemma_rising_low(y, HALVINGS as nat);
    let (e, r, v) = (epsilon(), exact(x), exact(y));
    let w = r * r;
    lemma_exp_above_small(v);
    lemma_low_reals(r, w, v, e);
    lemma_bound_total(
        exact(peak_root()),
        r,
        exact(rising(y, HALVINGS as nat)),
        exp_above(v),
        series_below(2 as real * v),
        series_below(w),
        24 as real * e,
        e,
    );
}

/// The bound up to a square of two, in real numbers.
proof fn lemma_low_reals(r: real, w: real, v: real, e: real)
    requires
        w == r * r,
        0 as real <= r <= 2 as real,
        0 as real <= v <= 1 as real,
        size(v - w / 2 as real) <= 12 as real * (e * w),
        (0 as real) < e,
        1000000000000 as real * e <= 1 as real,
    ensures
        25067 as real * (r * exp_above(v)) <= 19960 as real * series_below(2 as real * v),
        series_below(w) >= (1 as real - 8 as real * (24 as real * e)) * series_below(2 as real * v),
        series_below(2 as real * v) >= 1 as real,
{
    assert(0 as real <= w <= 4 as real) by (nonlinear_arith)
        requires
            w == r * r,
            0 as real <= r <= 2 as real,
    ;
    let ew = e * w;
    assert(0 as real <= ew <= 4 as real * e) by (nonlinear_arith)
        requires
            ew == e * w,
            0 as real <= w <= 4 as real,
            e > 0 as real,
    ;
    lemma_exp_above_small(v);
    lemma_lower_range(v);
    let b = exp_above(v);
    // The root is at most (2 v + 1.4401) / 2.4.
    lemma_root_above(r, 6 as real / 5 as real);
    let a = 20000 as real * v + 14401 as real;
    assert(24000 as real * r <= a);
    let m = r * b;
    assert(24000 as real * m <= a * b) by (nonlinear_arith)
        requires
            m == r * b,
            24000 as real * r <= a,
            b >= 0 as real,
    ;
    let d = 24 as real * e;
    lemma_hardly_smaller(2 as real * v, w, d, e, 24 as real);
    lemma_series_scaled(w, 2 as real * v, d);
}

/// What is hardly larger, the other way round.
pub proof fn lemma_hardly_smaller(q: real, w: real, d: real, e: real, c: real)
    requires
        q <= w + c * (e * w),
        d == c * e,
        0 as real <= d <= 1 as real,
        w >= 0 as real,
    ensures
        w >= (1 as real - d) * q,
{
    assert(c * (e * w) == d * w) by (nonlinear_arith)
        requires
            d == c * e,
    ;
    let h = 1 as real - d;
    lemma_scaled(h, q, w + d * w);
    assert((1 as real - d) * (w + d * w) == w - d * (d * w)) by (nonlinear_arith);
    lemma_not_negative(d, w);
    lemma_not_negative(d, d * w);
}

/// The same beyond a square of two.
proof fn lemma_mills_high(x: Binary64, y: Binary64)
    requires
        is_moderate(x),
        within(y, 1),
        y.value() >= 0,
        precedes(integer(1), y),
        size(exact(y) - (exact(x) * exact(x)) / 2 as real) <= 12 as real * (epsilon() * (exact(x)
            * exact(x))),
    ensures
        rising(y, HALVINGS as nat).is_finite(),
        beyond(rising(y, HALVINGS as nat), 0),
        exact(rising(y, HALVINGS as nat)) <= 10 as real,
        1000 as real * (exact(peak_root()) * (exact(x) * exact(rising(y, HALVINGS as nat))))
            <= 1998 as real * series_below(exact(x) * exact(x)),
{
    lemma_tiny();
    lemma_moderate(x);
    lemma_argument(x);
    lemma_peak();
    lemma_half();
    let (e, r) = (epsilon(), exact(x));
    let w = r * r;
    let v = exact(y);
    let ew = e * w;
    assert(ew <= 4 as real * e) by (nonlinear_arith)
        requires
            ew == e * w,
            w <= 4 as real,
            e > 0 as real,
    ;
    let (k, big) = (exact(peak_root()), exact(rising(y, HALVINGS as nat)));
    lemma_exact_order(integer(1), y);
    lemma_rising_high(y, HALVINGS as nat);
    let z = exact(quotient(y, integer(2)));
    lemma_exp_above_small(z);
    lemma_upper_range(z);
    let c = exp_above(z);
    let b = c * c;
    assert(0 as real <= b <= 9 as real) by (nonlinear_arith)
        requires
            b == c * c,
            1 as real <= c <= 3 as real,
    ;
    // x is at most (4 z + 3.4001) / 3.6876.
    lemma_root_above(r, 18438 as real / 10000 as real);
    let q = 18438 as real / 10000 as real;
    assert(q * q <= 34 as real / 10 as real) by (nonlinear_arith)
        requires
            q == 18438 as real / 10000 as real,
    ;
    let a = 40000 as real * z + 34001 as real;
    assert(36876 as real * r <= a);
    let m = r * b;
    assert(36876 as real * m <= a * b) by (nonlinear_arith)
        requires
            m == r * b,
            36876 as real * r <= a,
            b >= 0 as real,
    ;
    let u = 4 as real * z;
    assert(w >= 9 as real / 10 as real);
    assert(8 as real * e <= 9 as real * ew) by (nonlinear_arith)
        requires
            ew == e * w,
            w >= 9 as real / 10 as real,
            e > 0 as real,
    ;
    assert(u <= w + 33 as real * ew);
    let f = 33 as real * e;
    lemma_hardly_smaller(u, w, f, e, 33 as real);
    lemma_series_scaled(w, u, f);
    lemma_bound_total(k, r, big, b, series_below(u), series_below(w), f, e);
}

} // verus!
