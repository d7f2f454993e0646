//! The unit variance of the rectifier is at most one, up to rounding.
use vstd::prelude::*;

use crate::binary64::Binary64;
use crate::scalar::Scalar;

verus! {

use crate::binary64::arithmetic::{integer, opposite, product, sum};
use crate::binary64::bounds::{
    lemma_integer_bounds, lemma_product_within, lemma_sum_within, lemma_within_more, within,
};
use crate::binary64::errors::{epsilon, exact, least, lemma_exact_opposite, lemma_product_error, size};
use crate::binary64::rounding::p;
use crate::binary64::lemma_decoded;
use crate::gaussian::{density, distribution};
use crate::laws::accuracy::{growth, is_near, lemma_growth};
use crate::laws::double::lemma_small_integers;
use crate::laws::finite::lemma_small_powers;
use crate::laws::means::lemma_side_facts;
use crate::laws::normal::{lemma_not_negative, lemma_tiny};
use crate::laws::symmetry::{lemma_exact_order, lemma_half, lemma_mirror, lemma_scaled, lemma_sides};
use crate::laws::unit::{exact_unit, lemma_near_bound, lemma_near_unit, unit_mass};
use crate::vector::unit_relu_variance;

/// A few roundings hardly magnify.
proof fn lemma_growth_small(k: nat)
    requires
        k <= 100,
    ensures
        growth(k) <= 1 as real + (2 * k) as real * epsilon(),
        growth(k) >= 1 as real,
    decreases k,
{
    lemma_tiny();
    lemma_growth(k, 0);
    let e = epsilon();
    if k == 0 {
        assert(0 as real * e == 0 as real);
    } else {
        lemma_growth_small((k - 1) as nat);
        let (g, c) = (growth((k - 1) as nat), (2 * (k - 1)) as real);
        let d = c * e;
        assert(g * (1 as real + e) == g + g * e) by (nonlinear_arith);
        assert(d <= 1 as real) by (nonlinear_arith)
            requires
                d == c * e,
                0 as real <= c <= 200 as real,
                1000 as real * e <= 1 as real,
        ;
        assert(g * e <= 2 as real * e) by (nonlinear_arith)
            requires
                g <= 2 as real,
                e > 0 as real,
        ;
        let c2 = (2 * k) as real;
        assert(c2 * e == c * e + 2 as real * e) by (nonlinear_arith)
            requires
                c2 == c + 2 as real,
        ;
    }
}

/// Above zero the unit variance is at most one.
proof fn lemma_unit_above(x: real, p: real, f: real, d: real)
    requires
        0 as real <= x <= 2 as real,
        0 as real <= p <= 1 as real,
        0 as real <= f <= 2 as real,
        0 as real <= d,
        1 as real / 2 as real - d <= p,
        x * (1 as real - p) <= f,
    ensures
        exact_unit(x, p, f) <= 1 as real + 8 as real * d,
{
    reveal(exact_unit);
    let q = 1 as real - p;
    let w = x * x;
    let k = w * p;
    let s = 1 as real - 2 as real * p;
    let xf = x * f;
    let u = exact_unit(x, p, f);
    let (kq, xs, ff) = (k * q, xf * s, f * f);
    assert(u == kq + p + xs - ff);
    lemma_not_negative(x, f);
    assert(xf <= 4 as real) by (nonlinear_arith)
        requires
            xf == x * f,
            0 as real <= x <= 2 as real,
            0 as real <= f <= 2 as real,
    ;
    assert(xs <= 8 as real * d) by (nonlinear_arith)
        requires
            xs == xf * s,
            0 as real <= xf <= 4 as real,
            s <= 2 as real * d,
            d >= 0 as real,
    ;
    lemma_not_negative(f, f);
    if k <= 1 as real {
        assert(kq <= q) by (nonlinear_arith)
            requires
                kq == k * q,
                k <= 1 as real,
                q >= 0 as real,
        ;
    } else {
        assert(x > 0 as real) by {
            if x == 0 as real {
                assert(k == 0 as real) by (nonlinear_arith)
                    requires
                        k == (x * x) * p,
                        x == 0 as real,
                ;
            }
        }
        // Times x: what is left is f (1 - w q + x f), which is not negative.
        let z = x * q;
        let n = k - 1 as real;
        assert(z * n <= f * n) by (nonlinear_arith)
            requires
                z <= f,
                n >= 0 as real,
        ;
        assert(x * (kq - q) == z * n) by (nonlinear_arith)
            requires
                kq == k * q,
                z == x * q,
                n == k - 1 as real,
        ;
        assert(x * xs == f * (w * s)) by (nonlinear_arith)
            requires
                xs == xf * s,
                xf == x * f,
                w == x * x,
        ;
        assert(w * s == w - 2 as real * k) by (nonlinear_arith)
            requires
                s == 1 as real - 2 as real * p,
                k == w * p,
        ;
        assert(x * ff == f * xf) by (nonlinear_arith)
            requires
                ff == f * f,
                xf == x * f,
        ;
        let r = w - k;
        assert(r == x * z) by (nonlinear_arith)
            requires
                r == w - k,
                w == x * x,
                k == w * p,
                z == x * q,
                q == 1 as real - p,
        ;
        assert(x * z <= xf) by (nonlinear_arith)
            requires
                z <= f,
                x >= 0 as real,
                xf == x * f,
        ;
        // x (u - 1) <= f (n + w s - xf) = f (r - 1 - xf) <= 0
        let b = n + (w - 2 as real * k) - xf;
        assert(b <= 0 as real);
        assert(f * n + f * (w * s) - f * xf == f * b) by (nonlinear_arith)
            requires
                b == n + (w - 2 as real * k) - xf,
                w * s == w - 2 as real * k,
        ;
        assert(f * b <= 0 as real) by (nonlinear_arith)
            requires
                f >= 0 as real,
                b <= 0 as real,
        ;
        let g = u - 1 as real;
        assert(g == (kq - q) + xs - ff);
        assert(x * ((kq - q) + xs - ff) == x * (kq - q) + x * xs - x * ff) by (nonlinear_arith);
        assert(x * g <= 0 as real);
        assert(g <= 0 as real) by (nonlinear_arith)
            requires
                x * g <= 0 as real,
                x > 0 as real,
        ;
    }
}

/// Below zero the unit variance is at most one.
proof fn lemma_unit_below(x: real, p: real, f: real, d: real)
    requires
        0 as real <= x <= 2 as real,
        0 as real <= p <= 1 as real,
        0 as real <= f <= 2 as real,
        0 as real <= d,
        p <= 1 as real / 2 as real + d,
        x * p <= f,
    ensures
        exact_unit(-x, p, f) <= 1 as real + 8 as real * d,
{
    reveal(exact_unit);
    let q = 1 as real - p;
    let w = x * x;
    let k = w * p;
    let s = 1 as real - 2 as real * p;
    let xf = x * f;
    let u = exact_unit(-x, p, f);
    let (kq, xs, ff) = (k * q, xf * s, f * f);
    assert((-x) * (-x) == w && (-x) * f == -xf && (-xf) * s == -xs) by (nonlinear_arith)
        requires
            w == x * x,
            xf == x * f,
            xs == xf * s,
    ;
    assert(u == kq + p - xs - ff);
    lemma_not_negative(x, f);
    assert(xf <= 4 as real) by (nonlinear_arith)
        requires
            xf == x * f,
            0 as real <= x <= 2 as real,
            0 as real <= f <= 2 as real,
    ;
    assert(-xs <= 8 as real * d) by (nonlinear_arith)
        requires
            xs == xf * s,
            0 as real <= xf <= 4 as real,
            -s <= 2 as real * d,
            d >= 0 as real,
    ;
    lemma_not_negative(f, f);
    if k <= 1 as real {
        assert(kq <= q) by (nonlinear_arith)
            requires
                kq == k * q,
                k <= 1 as real,
                q >= 0 as real,
        ;
    } else {
        let z = x * p;
        assert(k == x * z) by (nonlinear_arith)
            requires
                k == w * p,
                w == x * x,
                z == x * p,
        ;
        assert(k <= xf) by (nonlinear_arith)
            requires
                k == x * z,
                z <= f,
                x >= 0 as real,
                xf == x * f,
        ;
        assert(kq <= xf * q) by (nonlinear_arith)
            requires
                kq == k * q,
                k <= xf,
                q >= 0 as real,
        ;
        assert(xf * q - xs == xf * p) by (nonlinear_arith)
            requires
                xs == xf * s,
                s == 1 as real - 2 as real * p,
                q == 1 as real - p,
        ;
        assert(xf * p == z * f) by (nonlinear_arith)
            requires
                xf == x * f,
                z == x * p,
        ;
        assert(z * f <= ff) by (nonlinear_arith)
            requires
                z <= f,
                f >= 0 as real,
                ff == f * f,
        ;
    }
}

/// A number stands for itself, with room.
proof fn lemma_near_exact(c: Binary64, m: real)
    requires
        c.is_finite(),
        size(exact(c)) <= m,
    ensures
        is_near(c, exact(c), m, growth(1)),
{
    reveal(is_near);
    lemma_growth(0, 1);
    let d = growth(1) - 1 as real;
    lemma_not_negative(d, m);
}

/// The magnitude of the unit variance within two deviations.
proof fn lemma_unit_mass_small()
    ensures
        0 as real <= unit_mass(2 as real, 2 as real) <= 30 as real,
{
    reveal(unit_mass);
    lemma_tiny();
    let l = least();
    let (a, b) = (2 as real * 2 as real + l, 3 as real + l);
    assert(0 as real <= a * b <= 16 as real) by (nonlinear_arith)
        requires
            0 as real <= a <= 41 as real / 10 as real,
            0 as real <= b <= 31 as real / 10 as real,
    ;
}

/// The computed unit variance is finite.
proof fn lemma_unit_finite(alpha: Binary64, f: Binary64, phi: Binary64)
    requires
        within(alpha, 1),
        within(f, 0),
        within(phi, 1),
    ensures
        unit_relu_variance(alpha, f, phi).is_finite(),
{
    lemma_small_integers();
    lemma_small_powers();
    lemma_integer_bounds(1, 0, 0);
    lemma_integer_bounds(2, 1, 1);
    let (one, two) = (integer(1), integer(2));
    lemma_mirror(f);
    lemma_sum_within(one, opposite(f), 0);
    let rest = sum(one, opposite(f));
    let square = product(alpha, alpha);
    lemma_product_within(alpha, alpha, 1, 1);
    lemma_product_within(square, f, 2, 0);
    lemma_product_within(product(square, f), rest, 2, 1);
    let first = product(product(square, f), rest);
    lemma_within_more(f, 0, 3);
    lemma_sum_within(first, f, 3);
    lemma_product_within(two, f, 1, 0);
    let twice = product(two, f);
    lemma_mirror(twice);
    lemma_within_more(one, 0, 1);
    lemma_sum_within(one, opposite(twice), 1);
    let skew = sum(one, opposite(twice));
    lemma_product_within(alpha, phi, 1, 1);
    lemma_product_within(product(alpha, phi), skew, 2, 2);
    let second = product(product(alpha, phi), skew);
    lemma_sum_within(sum(first, f), second, 4);
    let square2 = product(phi, phi);
    lemma_product_within(phi, phi, 1, 1);
    lemma_mirror(square2);
    lemma_within_more(square2, 2, 5);
    lemma_sum_within(sum(sum(first, f), second), opposite(square2), 5);
}

/// The computed unit variance is at most one, up to rounding.
proof fn lemma_unit_at_most(alpha: Binary64, f: Binary64, phi: Binary64, a: real, d: real)
    requires
        within(alpha, 1),
        f.is_finite(),
        within(phi, 1),
        phi.is_finite(),
        a == exact(alpha),
        size(a) <= 2 as real,
        0 as real <= exact(f) <= 1 as real,
        0 as real <= exact(phi) <= 2 as real,
        exact_unit(a, exact(f), exact(phi)) <= 1 as real + 8 as real * d,
        0 as real <= d <= 5 as real * epsilon(),
    ensures
        unit_relu_variance(alpha, f, phi).is_finite(),
        exact(unit_relu_variance(alpha, f, phi)) <= 1 as real + 800 as real * epsilon(),
{
    lemma_tiny();
    lemma_half();
    lemma_small_integers();
    lemma_exact_order(integer(1), f);
    lemma_exact_order(f, integer(0));
    lemma_decoded(f);
    assert(within(f, 0));
    lemma_unit_finite(alpha, f, phi);
    lemma_near_exact(alpha, 2 as real);
    lemma_near_exact(f, 1 as real);
    lemma_near_exact(phi, 2 as real);
    lemma_near_unit(alpha, f, phi, a, exact(f), exact(phi), 2 as real, 2 as real);
    let u = unit_relu_variance(alpha, f, phi);
    let m = unit_mass(2 as real, 2 as real);
    lemma_near_bound(u, exact_unit(a, exact(f), exact(phi)), m, growth(11));
    lemma_unit_mass_small();
    lemma_growth_small(11);
    let (g, e) = (growth(11) - 1 as real, epsilon());
    assert(g * m <= 660 as real * e) by (nonlinear_arith)
        requires
            0 as real <= g <= 22 as real * e,
            0 as real <= m <= 30 as real,
    ;
}

/// The unit variance on both sides of zero.
pub proof fn lemma_unit_sides(x: Binary64)
    requires
        within(x, 1),
        !x.negative(),
    ensures
        ({
            let phi = density(x);
            let (u, v) = (
                unit_relu_variance(x, distribution(x, phi), phi),
                unit_relu_variance(opposite(x), distribution(opposite(x), phi), phi),
            );
            &&& u.is_finite()
            &&& v.is_finite()
            &&& exact(u) <= 1 as real + 800 as real * epsilon()
            &&& exact(v) <= 1 as real + 800 as real * epsilon()
        }),
{
    lemma_tiny();
    lemma_side_facts(x);
    let phi = density(x);
    lemma_mirror(x);
    lemma_exact_opposite(x);
    crate::laws::symmetry::lemma_double_opposite(x);
    lemma_sides(opposite(x), phi);
    let (f, g) = (distribution(x, phi), distribution(opposite(x), phi));
    let (r, e) = (exact(x), epsilon());
    let (p, q) = (exact(f), exact(g));
    // One less the probability is that of the other side, up to rounding.
    let c = 1 as real - p;
    assert(c <= q + e);
    lemma_scaled(r, c, q + e);
    assert(r * (q + e) == r * q + r * e) by (nonlinear_arith);
    assert(r * e <= 2 as real * e) by (nonlinear_arith)
        requires
            r <= 2 as real,
            e > 0 as real,
    ;
    let d = 4 as real * e;
    lemma_unit_above(r, p, exact(phi), d);
    lemma_unit_below(r, q, exact(phi), d);
    lemma_unit_at_most(x, f, phi, r, d);
    lemma_unit_at_most(opposite(x), g, phi, -r, d);
}

/// A variance and what rounding may add to it.
#[verifier::opaque]
pub open spec fn variance_bound(w: real) -> real {
    w + 900 as real * (epsilon() * (w + least()))
}

/// Rounding adds, if little.
pub proof fn lemma_variance_bound(w: real)
    requires
        w >= 0 as real,
    ensures
        variance_bound(w) >= w,
        variance_bound(w) >= epsilon() * least(),
{
    reveal(variance_bound);
    lemma_tiny();
    let (e, l) = (epsilon(), least());
    assert(e * (w + l) == e * w + e * l) by (nonlinear_arith);
    lemma_not_negative(e, w);
    lemma_not_negative(e, l);
}

/// What rounds from a number that is not positive.
pub proof fn lemma_rounded_down(x: real, m: real, e: real, l: real)
    requires
        size(x - m) <= e * (size(m) + l),
        m <= 0 as real,
        (0 as real) < e,
        e <= 1 as real,
    ensures
        x <= e * l,
{
    let n = -m;
    assert(e * (n + l) == e * n + e * l) by (nonlinear_arith);
    assert(e * n <= n) by (nonlinear_arith)
        requires
            e <= 1 as real,
            n >= 0 as real,
    ;
    assert(size(m) == n);
}

/// A variance times what is at most one, up to rounding.
pub proof fn lemma_variance_at_most(v: Binary64, u: Binary64)
    requires
        v.is_finite(),
        u.is_finite(),
        exact(v) >= 0 as real,
        exact(u) <= 1 as real + 800 as real * epsilon(),
        exact(u) >= 0 as real,
        product(v, u).is_finite(),
    ensures
        exact(product(v, u)) <= variance_bound(exact(v)),
{
    reveal(variance_bound);
    lemma_tiny();
    lemma_product_error(v, u);
    let (w, t, e, l) = (exact(v), exact(u), epsilon(), least());
    let m = w * t;
    lemma_not_negative(w, t);
    let c = 1 as real + 800 as real * e;
    lemma_scaled(w, t, c);
    assert(w * (1 as real + 800 as real * e) == w + 800 as real * (e * w)) by (nonlinear_arith);
    let ew = e * w;
    assert(0 as real <= ew && ew <= w / 1000 as real) by (nonlinear_arith)
        requires
            ew == e * w,
            (0 as real) < e,
            1000 as real * e <= 1 as real,
            w >= 0 as real,
    ;
    lemma_scaled(e, m + l, 2 as real * w + l);
    assert(e * (2 as real * w + l) == 2 as real * ew + e * l) by (nonlinear_arith)
        requires
            ew == e * w,
    ;
    assert(e * (w + l) == ew + e * l) by (nonlinear_arith)
        requires
            ew == e * w,
    ;
    lemma_not_negative(e, l);
}

/// What is at most one and not negative.
pub proof fn lemma_small_unit(u: Binary64)
    requires
        within(u, -2),
        u.value() >= 0,
    ensures
        0 as real <= exact(u) <= 1 as real,
{
    lemma_half();
    lemma_small_integers();
    lemma_decoded(u);
    lemma_exact_order(u, integer(0));
    lemma_exact_order(integer(1), u);
    crate::binary64::compare::law_order_of_values(u, integer(0));
    crate::laws::finite::lemma_zero_value(integer(0));
}

} // verus!
