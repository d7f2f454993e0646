//! Bounds of rounding errors, in real numbers.
use vstd::arithmetic::div_mod::lemma_fundamental_div_mod_converse;
use vstd::prelude::*;

use crate::binary64::rounding::{INFINITE_CODE, ORDER};
use crate::binary64::{Binary64, UNIT};

verus! {

use crate::binary64::arithmetic::{opposite, product, quotient, square_root, sum};
use crate::binary64::bounds::{lemma_nearest_parts, lemma_root_parts, lemma_root_spread_range};
use crate::binary64::rounding::{
    nearest, nearest_root, p, p_add, p_pos, p_values, root_spread, root_steps, spread,
};
use crate::binary64::{encoded, lemma_decoded, lemma_encoded};

/// The magnitude of a real number.
pub open spec fn size(x: real) -> real {
    if x < 0 as real {
        -x
    } else {
        x
    }
}

/// The real number that `x` stands for.
#[verifier::opaque]
pub open spec fn exact(x: Binary64) -> real {
    x.value() as real / p(UNIT as int) as real
}

/// The relative error of a rounding, `2^-53`.
pub open spec fn epsilon() -> real {
    1 as real / p(53) as real
}

/// The smallest number with all its digits, `2^-1022`.
pub open spec fn least() -> real {
    p(52) as real / p(UNIT as int) as real
}

/// The units of a number with digits `d` at scale `s`.
pub proof fn lemma_placed(negative: bool, s: int, d: int)
    requires
        s >= 0,
        0 <= d <= p(53),
        s > 0 ==> d >= p(52),
        s * ORDER + d < INFINITE_CODE,
    ensures
        s * ORDER + d >= 0,
        encoded(negative, (s * ORDER + d) as nat).units() == d * p(s),
{
    let o = ORDER as int;
    assert(s * o >= 0) by (nonlinear_arith)
        requires
            s >= 0,
            o > 0,
    ;
    let c = (s * o + d) as nat;
    let x = encoded(negative, c);
    lemma_encoded(negative, c);
    lemma_decoded(x);
    p_values();
    if d == p(53) {
        assert(c == (s + 2) * o + 0) by (nonlinear_arith)
            requires
                c == s * o + d,
                d == 2 * o,
        ;
        lemma_fundamental_div_mod_converse(c as int, o, s + 2, 0);
        p_add(s, 1);
        p_add(s, 53);
        p_add(52, s + 1);
        assert(x.units() == d * p(s)) by (nonlinear_arith)
            requires
                x.units() == o * p(s + 1),
                p(s + 1) == p(s) * 2,
                d == 2 * o,
        ;
    } else if s > 0 || d >= o {
        assert(c == (s + 1) * o + (d - o)) by (nonlinear_arith)
            requires
                c == s * o + d,
        ;
        lemma_fundamental_div_mod_converse(c as int, o, s + 1, d - o);
        assert(o <= c) by (nonlinear_arith)
            requires
                c == (s + 1) * o + (d - o),
                d >= o,
                s >= 0,
                o > 0,
        ;
    }
}

/// How far a rounded fraction is from the fraction.
pub proof fn lemma_nearest_error(negative: bool, n: nat, den: nat)
    requires
        den > 0,
        encoded(negative, nearest(n, den)).is_finite(),
    ensures
        ({
            let d = encoded(negative, nearest(n, den)).units() * den - n;
            &&& -(n + p(52) * den) <= p(53) * d <= n + p(52) * den
            &&& den == 1 ==> -n <= p(53) * d <= n
        }),
{
    lemma_nearest_parts(n, den);
    p_values();
    let s = spread(n, den) as int;
    let u = den * p(s);
    let d = n as int / u;
    let r = n as int % u;
    let c = nearest(n, den);
    lemma_encoded(negative, c);
    let q = c - s * ORDER;
    lemma_placed(negative, s, q);
    let x = encoded(negative, c);
    assert(x.units() * den == q * u) by (nonlinear_arith)
        requires
            x.units() == q * p(s),
            u == den * p(s),
    ;
    let e = x.units() * den - n;
    assert(-u <= 2 * e <= u) by (nonlinear_arith)
        requires
            e == q * u - n,
            n == d * u + r,
            0 <= r < u,
            q == d || q == d + 1,
            q == d ==> 2 * r <= u,
            q == d + 1 ==> 2 * r >= u,
    ;
    if s > 0 {
        assert(p(52) * u <= n) by (nonlinear_arith)
            requires
                n == d * u + r,
                r >= 0,
                d >= p(52),
                u > 0,
        ;
    } else {
        assert(u == den);
        if den == 1 {
            assert(r == 0);
            assert(e == 0) by (nonlinear_arith)
                requires
                    e == q * u - n,
                    n == d * u + r,
                    q == d,
                    r == 0,
            ;
        }
    }
    assert(p(52) * den >= 0) by (nonlinear_arith)
        requires
            p(52) > 0,
            den > 0,
    ;
}

/// Powers of two as real numbers.
proof fn lemma_real_powers()
    ensures
        p(UNIT as int) as real > 0 as real,
        p(53) as real > 0 as real,
        p(52) as real > 0 as real,
        epsilon() > 0 as real,
        epsilon() <= 1 as real,
        least() > 0 as real,
{
    p_pos(UNIT as int);
    p_values();
    let u = p(UNIT as int) as real;
    assert(p(52) as real / u > 0 as real) by (nonlinear_arith)
        requires
            u > 0 as real,
            p(52) as real > 0 as real,
    ;
    let k = p(53) as real;
    assert((0 as real) < 1 as real / k <= 1 as real) by (nonlinear_arith)
        requires
            k >= 1 as real,
    ;
}

/// The relative error is positive and at most one.
pub proof fn lemma_epsilon()
    ensures
        (0 as real) < epsilon() <= 1 as real,
        least() > 0 as real,
{
    lemma_real_powers();
}

/// A bound on whole numbers as one on real numbers.
proof fn lemma_sum_bound(v: int, w: int)
    requires
        -w <= p(53) * (v - w) <= w || w <= p(53) * (v - w) <= -w,
    ensures
        size(v as real / p(UNIT as int) as real - w as real / p(UNIT as int) as real) <= epsilon()
            * size(w as real / p(UNIT as int) as real),
{
    lemma_real_powers();
    let u = p(UNIT as int) as real;
    let k = p(53) as real;
    let d = v - w;
    assert((p(53) * d) as real == k * d as real) by (nonlinear_arith)
        requires
            k == p(53) as real,
    ;
    let x = v as real / u;
    let y = w as real / u;
    assert(x * u == v as real && y * u == w as real) by (nonlinear_arith)
        requires
            u > 0 as real,
            x == v as real / u,
            y == w as real / u,
    ;
    let z = x - y;
    assert(z * u == d as real) by (nonlinear_arith)
        requires
            x * u == v as real,
            y * u == w as real,
            z == x - y,
            d as real == v as real - w as real,
    ;
    assert(k * size(d as real) <= size(w as real)) by {
        if d < 0 {
            assert(k * (-(d as real)) == -(k * d as real)) by (nonlinear_arith);
        }
    }
    assert(size(w as real) == size(y) * u && size(d as real) == size(z) * u) by (nonlinear_arith)
        requires
            y * u == w as real,
            z * u == d as real,
            u > 0 as real,
            size(w as real) == if (w as real) < 0 as real { -(w as real) } else { w as real },
            size(d as real) == if (d as real) < 0 as real { -(d as real) } else { d as real },
            size(y) == if y < 0 as real { -y } else { y },
            size(z) == if z < 0 as real { -z } else { z },
    ;
    let e = epsilon();
    let a = size(z);
    let b = size(y);
    assert(k * (a * u) == (k * a) * u) by (nonlinear_arith);
    assert(k * a <= b) by (nonlinear_arith)
        requires
            (k * a) * u <= b * u,
            u > 0 as real,
    ;
    assert(e * k == 1 as real) by (nonlinear_arith)
        requires
            e == 1 as real / k,
            k > 0 as real,
    ;
    assert(e * (k * a) == (e * k) * a) by (nonlinear_arith);
    assert((e * k) * a == a) by (nonlinear_arith)
        requires
            e * k == 1 as real,
    ;
    assert(e * (k * a) <= e * b) by (nonlinear_arith)
        requires
            k * a <= b,
            e > 0 as real,
    ;
}

/// Fractions add up.
proof fn lemma_over_unit(a: int, b: int)
    ensures
        (a + b) as real / p(UNIT as int) as real == a as real / p(UNIT as int) as real + b as real
            / p(UNIT as int) as real,
{
    lemma_real_powers();
    let u = p(UNIT as int) as real;
    let x = a as real;
    let y = b as real;
    assert((x + y) / u == x / u + y / u) by (nonlinear_arith)
        requires
            u > 0 as real,
    ;
}

/// The error of a sum.
pub proof fn lemma_sum_error(a: Binary64, b: Binary64)
    requires
        a.is_finite(),
        b.is_finite(),
        sum(a, b).is_finite(),
    ensures
        size(exact(sum(a, b)) - (exact(a) + exact(b))) <= epsilon() * size(exact(a) + exact(b)),
{
    reveal(exact);
    let v = a.value() + b.value();
    lemma_over_unit(a.value(), b.value());
    p_values();
    let c = sum(a, b);
    if v == 0 {
        lemma_encoded(a.negative() && b.negative(), 0);
        lemma_decoded(c);
        assert(c.units() == 0) by (nonlinear_arith)
            requires
                c.units() == c.digits() * p(c.scale()),
                c.digits() == 0,
        ;
    } else {
        let n = (if v < 0 {
            -v
        } else {
            v
        }) as nat;
        lemma_nearest_error(v < 0, n, 1);
        lemma_encoded(v < 0, nearest(n, 1));
        assert(c.units() * 1 == c.units());
        if v < 0 {
            assert(p(53) * (c.value() - v) == -(p(53) * (c.units() - n))) by (nonlinear_arith)
                requires
                    c.value() == -c.units(),
                    v == -n,
            ;
        }
    }
    lemma_sum_bound(c.value(), v);
}

/// The error of a product, which may lose digits to underflow.
pub proof fn lemma_product_error(a: Binary64, b: Binary64)
    requires
        a.is_finite(),
        b.is_finite(),
        product(a, b).is_finite(),
    ensures
        size(exact(product(a, b)) - exact(a) * exact(b)) <= epsilon() * (size(
            exact(a) * exact(b),
        ) + least()),
{
    reveal(exact);
    lemma_real_powers();
    p_values();
    let c = product(a, b);
    let den = p(UNIT as int) as nat;
    let n = a.units() * b.units();
    let negative = a.negative() != b.negative();
    lemma_encoded(negative, nearest(n, den));
    lemma_nearest_error(negative, n, den);
    // In whole numbers, with signs.
    let w = a.value() * b.value();
    let d = c.value() * den - w;
    assert((negative ==> w == -n) && (!negative ==> w == n)) by {
        let x = a.units() as int;
        let y = b.units() as int;
        assert((-x) * y == -(x * y) && x * (-y) == -(x * y) && (-x) * (-y) == x * y)
            by (nonlinear_arith);
    }
    let e = c.units() * den - n;
    assert(d == if negative { -e } else { e }) by {
        if negative {
            assert((-(c.units() as int)) * den == -(c.units() * den)) by (nonlinear_arith);
        }
    }
    if negative {
        assert(p(53) * (-e) == -(p(53) * e)) by (nonlinear_arith);
    }
    assert(-(n + p(52) * den) <= p(53) * d <= n + p(52) * den);
    // In real numbers.
    let u = den as real;
    let k = p(53) as real;
    let q = p(52) as real;
    let xa = exact(a);
    let xb = exact(b);
    let xc = exact(c);
    assert(xa * u == a.value() as real && xb * u == b.value() as real && xc * u == c.value() as real)
        by (nonlinear_arith)
        requires
            u > 0 as real,
            xa == a.value() as real / u,
            xb == b.value() as real / u,
            xc == c.value() as real / u,
    ;
    lemma_cast_product(a.value(), b.value());
    lemma_cast_product(c.value(), den as int);
    lemma_cast_product(p(53), d);
    lemma_cast_product(p(52), den as int);
    let z = xc - xa * xb;
    let m = xa * xb;
    assert((xa * xb) * (u * u) == (xa * u) * (xb * u)) by (nonlinear_arith);
    assert((xc - xa * xb) * (u * u) == (xc * u) * u - (xa * xb) * (u * u)) by (nonlinear_arith);
    assert(d as real == z * (u * u) && w as real == m * (u * u));
    let uu = u * u;
    assert(uu > 0 as real) by (nonlinear_arith)
        requires
            uu == u * u,
            u > 0 as real,
    ;
    assert(n as real == size(w as real));
    let l = least();
    assert(l * u == q) by (nonlinear_arith)
        requires
            l == q / u,
            u > 0 as real,
    ;
    assert(size(w as real) == size(m) * uu && size(d as real) == size(z) * uu) by (nonlinear_arith)
        requires
            d as real == z * uu,
            w as real == m * uu,
            uu > 0 as real,
            size(w as real) == if (w as real) < 0 as real { -(w as real) } else { w as real },
            size(d as real) == if (d as real) < 0 as real { -(d as real) } else { d as real },
            size(m) == if m < 0 as real { -m } else { m },
            size(z) == if z < 0 as real { -z } else { z },
    ;
    assert(k * size(d as real) <= n as real + q * u) by {
        if d < 0 {
            assert(k * (-(d as real)) == -(k * d as real)) by (nonlinear_arith);
        }
    }
    assert(q * u == l * uu) by (nonlinear_arith)
        requires
            l * u == q,
            uu == u * u,
    ;
    let f = epsilon();
    let s = size(z);
    let t = size(m);
    assert(k * s <= t + l) by (nonlinear_arith)
        requires
            k * (s * uu) <= t * uu + l * uu,
            uu > 0 as real,
    ;
    assert(f * k == 1 as real) by (nonlinear_arith)
        requires
            f == 1 as real / k,
            k > 0 as real,
    ;
    assert(s == f * (k * s)) by (nonlinear_arith)
        requires
            f * k == 1 as real,
    ;
    assert(f * (k * s) <= f * (t + l)) by (nonlinear_arith)
        requires
            k * s <= t + l,
            f > 0 as real,
    ;
}

/// The product of whole numbers as real numbers.
proof fn lemma_cast_product(a: int, b: int)
    ensures
        (a * b) as real == (a as real) * (b as real),
{
    assert((a * b) as real == (a as real) * (b as real)) by (nonlinear_arith);
}

/// The opposite stands for the opposite.
pub proof fn lemma_exact_opposite(x: Binary64)
    ensures
        exact(opposite(x)) == -exact(x),
{
    reveal(exact);
    lemma_decoded(x);
    lemma_decoded(opposite(x));
    lemma_real_powers();
    let v = x.value() as real;
    let u = p(UNIT as int) as real;
    assert((-v) / u == -(v / u)) by (nonlinear_arith)
        requires
            u > 0 as real,
    ;
    assert(opposite(x).value() == -x.value());
}

/// What has code zero stands for zero.
pub proof fn lemma_exact_zero(x: Binary64)
    requires
        x.code() == 0,
    ensures
        exact(x) == 0 as real,
{
    reveal(exact);
    lemma_decoded(x);
    lemma_real_powers();
    let u = p(UNIT as int) as real;
    assert(x.units() == 0) by (nonlinear_arith)
        requires
            x.units() == x.digits() * p(x.scale()),
            x.digits() == 0,
    ;
    assert(0 as real / u == 0 as real) by (nonlinear_arith)
        requires
            u > 0 as real,
    ;
}

/// The error of a quotient, which may lose digits to underflow.
pub proof fn lemma_quotient_error(a: Binary64, b: Binary64)
    requires
        a.is_finite(),
        b.is_finite(),
        b.code() > 0,
        !b.negative(),
        quotient(a, b).is_finite(),
    ensures
        exact(b) > 0 as real,
        size(exact(quotient(a, b)) - exact(a) / exact(b)) <= epsilon() * (size(
            exact(a) / exact(b),
        ) + least()),
{
    reveal(exact);
    lemma_real_powers();
    p_values();
    let zero = Binary64 { bits: 0 };
    lemma_exact_zero(zero);
    crate::binary64::compare::lemma_units_grow(zero, b);
    let c = quotient(a, b);
    let u = p(UNIT as int);
    let den = b.units();
    let n = a.units() * u as nat;
    let negative = a.negative();
    lemma_encoded(negative, nearest(n, den));
    lemma_nearest_error(negative, n, den);
    // In whole numbers, with signs.
    let w = a.value() * u;
    let d = c.value() * den - w;
    let e = c.units() * den - n;
    if negative {
        assert((-(a.units() as int)) * u == -(a.units() * u)) by (nonlinear_arith);
        assert((-(c.units() as int)) * den == -(c.units() * den)) by (nonlinear_arith);
        assert(p(53) * (-e) == -(p(53) * e)) by (nonlinear_arith);
    }
    assert(-(n + p(52) * den) <= p(53) * d <= n + p(52) * den);
    // In real numbers.
    lemma_cast_product(a.value(), u);
    lemma_cast_product(a.units() as int, u);
    lemma_cast_product(c.value(), den as int);
    lemma_cast_product(p(53), d);
    lemma_cast_product(p(52), den as int);
    let (ru, rd) = (u as real, den as real);
    let (ra, rc) = (a.value() as real, c.value() as real);
    assert(rd / ru > 0 as real) by (nonlinear_arith)
        requires
            rd > 0 as real,
            ru > 0 as real,
    ;
    lemma_ratio(ra, rd, ru);
    let y = ra / rd;
    let x = rc / ru;
    let z = x - y;
    let uu = ru * rd;
    assert(uu > 0 as real) by (nonlinear_arith)
        requires
            uu == ru * rd,
            ru > 0 as real,
            rd > 0 as real,
    ;
    assert(x * ru == rc) by (nonlinear_arith)
        requires
            x == rc / ru,
            ru > 0 as real,
    ;
    assert(y * rd == ra) by (nonlinear_arith)
        requires
            y == ra / rd,
            rd > 0 as real,
    ;
    assert(x * (ru * rd) == (x * ru) * rd) by (nonlinear_arith);
    assert(y * (ru * rd) == (y * rd) * ru) by (nonlinear_arith);
    assert((x - y) * uu == x * uu - y * uu) by (nonlinear_arith);
    assert(d as real == z * uu && w as real == y * uu);
    let (k, q, l) = (p(53) as real, p(52) as real, least());
    assert(l * ru == q) by (nonlinear_arith)
        requires
            l == q / ru,
            ru > 0 as real,
    ;
    assert(l * (ru * rd) == (l * ru) * rd) by (nonlinear_arith);
    lemma_sized(z, uu);
    lemma_sized(y, uu);
    assert(k * size(d as real) <= n as real + q * rd) by {
        if d < 0 {
            assert(k * (-(d as real)) == -(k * d as real)) by (nonlinear_arith);
        }
    }
    assert(n as real == size(w as real)) by {
        let t = a.units() as real;
        assert(t * ru >= 0 as real) by (nonlinear_arith)
            requires
                t >= 0 as real,
                ru > 0 as real,
        ;
        if negative {
            assert((-t) * ru == -(t * ru)) by (nonlinear_arith);
        }
    }
    let (s, t) = (size(z), size(y));
    assert(k * (s * uu) == (k * s) * uu) by (nonlinear_arith);
    assert((t + l) * uu == t * uu + l * uu) by (nonlinear_arith);
    assert(k * s <= t + l) by (nonlinear_arith)
        requires
            (k * s) * uu <= (t + l) * uu,
            uu > 0 as real,
    ;
    let f = epsilon();
    assert(f * k == 1 as real) by (nonlinear_arith)
        requires
            f == 1 as real / k,
            k > 0 as real,
    ;
    assert(f * (k * s) == (f * k) * s) by (nonlinear_arith);
    assert((f * k) * s == s) by (nonlinear_arith)
        requires
            f * k == 1 as real,
    ;
    assert(f * (k * s) <= f * (t + l)) by (nonlinear_arith)
        requires
            k * s <= t + l,
            f > 0 as real,
    ;
}

/// The size of a multiple.
proof fn lemma_sized(x: real, c: real)
    requires
        c > 0 as real,
    ensures
        size(x * c) == size(x) * c,
{
    assert(x < 0 as real ==> x * c < 0 as real) by (nonlinear_arith)
        requires
            c > 0 as real,
    ;
    assert(x >= 0 as real ==> x * c >= 0 as real) by (nonlinear_arith)
        requires
            c > 0 as real,
    ;
    assert((-x) * c == -(x * c)) by (nonlinear_arith);
}

/// A ratio does not depend on the unit.
proof fn lemma_ratio(a: real, b: real, u: real)
    requires
        b > 0 as real,
        u > 0 as real,
    ensures
        (a / u) / (b / u) == a / b,
{
    let (x, y, z) = (a / u, b / u, a / b);
    assert(x * u == a) by (nonlinear_arith)
        requires
            x == a / u,
            u > 0 as real,
    ;
    assert(y * u == b) by (nonlinear_arith)
        requires
            y == b / u,
            u > 0 as real,
    ;
    assert(y > 0 as real) by (nonlinear_arith)
        requires
            y == b / u,
            b > 0 as real,
            u > 0 as real,
    ;
    assert(z * b == a) by (nonlinear_arith)
        requires
            z == a / b,
            b > 0 as real,
    ;
    assert(z * (y * u) == (z * y) * u) by (nonlinear_arith);
    assert(x == z * y) by (nonlinear_arith)
        requires
            x * u == (z * y) * u,
            u > 0 as real,
    ;
    assert(x / y == z) by (nonlinear_arith)
        requires
            x == z * y,
            y > 0 as real,
    ;
}

/// How far the square of a rounded root is from the number.
proof fn lemma_root_units(v: Binary64)
    requires
        v.is_finite(),
        v.code() > 0,
        !v.negative(),
        square_root(v).is_finite(),
    ensures
        ({
            let s = square_root(v).units() as int;
            let n = v.units() * p(UNIT as int);
            // 2^106 |n - s^2| <= (2^54 + 1) s^2
            &&& -((p(54) + 1) * (s * s)) <= p(106) * (n - s * s) <= (p(54) + 1) * (s * s)
            &&& s > 0
        }),
{
    let zero = Binary64 { bits: 0 };
    lemma_exact_zero(zero);
    lemma_decoded(zero);
    assert(zero.units() == 0) by (nonlinear_arith)
        requires
            zero.units() == zero.digits() * p(zero.scale()),
            zero.digits() == 0,
    ;
    crate::binary64::compare::lemma_units_grow(zero, v);
    p_pos(UNIT as int);
    let n = v.units() * p(UNIT as int) as nat;
    lemma_root_parts(n);
    p_values();
    p_add(53, 1);
    p_add(53, 53);
    p_add(537, 537);
    let k = root_spread(n, 1) as int;
    let u = p(k);
    let d = root_steps(n, u) as int;
    let c = nearest_root(n);
    let q = c - k * ORDER;
    lemma_encoded(false, c);
    // The root has all its digits.
    assert(k > 0) by {
        assert(n >= p(537) * p(537)) by (nonlinear_arith)
            requires
                n == v.units() * p(UNIT as int),
                v.units() >= 1,
                p(UNIT as int) == p(537) * p(537),
        ;
        if k == 0 {
            crate::binary64::rounding::p_mono(53, 537);
            lemma_root_spread_range(n, 1);
            assert(1 * p(53) == p(53));
            assert(p(53) * p(53) <= p(537) * p(537)) by (nonlinear_arith)
                requires
                    0 < p(53) <= p(537),
            ;
        }
    }
    lemma_placed(false, k, q);
    let s = q * u;
    assert(square_root(v).units() == s);
    // Twice the root is within a step of twice the rounded root.
    let middle = (2 * d + 1) * u;
    assert(q == d ==> 4 * n <= middle * middle);
    assert(q == d + 1 ==> 4 * n >= middle * middle);
    let (low, high) = (2 * s - u, 2 * s + u);
    assert(low * low <= 4 * n <= high * high && 0 <= low) by {
        let (x, y) = (d * u, (d + 1) * u);
        assert(y == x + u) by (nonlinear_arith)
            requires
                x == d * u,
                y == (d + 1) * u,
        ;
        assert(middle == 2 * x + u) by (nonlinear_arith)
            requires
                x == d * u,
                middle == (2 * d + 1) * u,
        ;
        assert(x >= u) by (nonlinear_arith)
            requires
                x == d * u,
                d >= 1,
                u > 0,
        ;
        assert((2 * x) * (2 * x) == 4 * (x * x)) by (nonlinear_arith);
        assert((2 * y) * (2 * y) == 4 * (y * y)) by (nonlinear_arith);
        if q == d {
            assert(s == x);
            lemma_square_order(2 * x - u, 2 * x);
        } else {
            assert(s == y);
            lemma_square_order(2 * y, 2 * y + u);
        }
    }
    let t = s * u;
    assert(high * high == 4 * (s * s) + 4 * t + u * u && low * low == 4 * (s * s) - 4 * t + u * u)
        by (nonlinear_arith)
        requires
            high == 2 * s + u,
            low == 2 * s - u,
            t == s * u,
    ;
    // A step is a small part of the rounded root.
    let o = p(52);
    assert(o * u <= s) by (nonlinear_arith)
        requires
            s == q * u,
            q >= o,
            u > 0,
    ;
    assert(o * t <= s * s) by (nonlinear_arith)
        requires
            o * u <= s,
            t == s * u,
            s >= 0,
    ;
    assert((o * o) * (u * u) <= s * s) by (nonlinear_arith)
        requires
            0 <= o * u <= s,
    ;
    let ss = s * s;
    let uu = u * u;
    // |4 n - 4 s^2| <= 4 t + u^2
    let e = n - ss;
    assert(-(4 * t + uu) <= 4 * e <= 4 * t + uu);
    p_add(52, 52);
    p_add(104, 2);
    assert(p(2) == 4 && p(54) == 4 * o && p(106) == 4 * (o * o)) by {
        vstd::arithmetic::power2::lemma2_to64();
        p_add(52, 2);
    }
    assert(uu >= 0) by (nonlinear_arith)
        requires
            uu == u * u,
    ;
    assert((o * o) * (4 * e) <= (4 * o + 1) * ss && -((4 * o + 1) * ss) <= (o * o) * (4 * e)) by {
        let top = 4 * t + uu;
        assert((o * o) * (4 * e) <= (o * o) * top && -((o * o) * top) <= (o * o) * (4 * e))
            by (nonlinear_arith)
            requires
                -top <= 4 * e <= top,
                o > 0,
        ;
        assert((o * o) * top == 4 * (o * (o * t)) + (o * o) * uu) by (nonlinear_arith)
            requires
                top == 4 * t + uu,
        ;
        assert(o * (o * t) <= o * ss) by (nonlinear_arith)
            requires
                o * t <= ss,
                o > 0,
        ;
        assert((4 * o + 1) * ss == 4 * (o * ss) + ss) by (nonlinear_arith);
    }
    assert((4 * (o * o)) * e == (o * o) * (4 * e)) by (nonlinear_arith);
    assert(s > 0) by (nonlinear_arith)
        requires
            s == q * u,
            q >= o,
            o > 0,
            u > 0,
    ;
}

/// Squares of numbers that are not negative rise.
proof fn lemma_square_order(a: int, b: int)
    requires
        0 <= a <= b,
    ensures
        a * a <= b * b,
{
    assert(a * a <= b * b) by (nonlinear_arith)
        requires
            0 <= a <= b,
    ;
}

/// The square of a rounded root.
pub proof fn lemma_root_error(v: Binary64)
    requires
        v.is_finite(),
        v.code() > 0,
        !v.negative(),
        square_root(v).is_finite(),
    ensures
        size(exact(v) - exact(square_root(v)) * exact(square_root(v))) <= ((1 as real + epsilon())
            * (1 as real + epsilon()) - 1 as real) * (exact(square_root(v)) * exact(
            square_root(v),
        )),
{
    reveal(exact);
    lemma_root_units(v);
    lemma_real_powers();
    let root = square_root(v);
    lemma_encoded(false, nearest_root(v.units() * p(UNIT as int) as nat));
    let s = root.units() as int;
    let u = p(UNIT as int);
    let n = v.units() * u;
    p_add(53, 53);
    p_add(53, 1);
    p_values();
    let (ru, rs, rv, k) = (u as real, s as real, v.units() as real, p(53) as real);
    lemma_cast_product(s, s);
    lemma_cast_product(v.units() as int, u);
    lemma_cast_product(p(106), n - s * s);
    lemma_cast_product(p(54) + 1, s * s);
    lemma_cast_product(p(53), p(53));
    let (x, y) = (rs / ru, rv / ru);
    assert(x * ru == rs) by (nonlinear_arith)
        requires
            x == rs / ru,
            ru > 0 as real,
    ;
    assert(y * ru == rv) by (nonlinear_arith)
        requires
            y == rv / ru,
            ru > 0 as real,
    ;
    let c = ru * ru;
    assert(c > 0 as real) by (nonlinear_arith)
        requires
            c == ru * ru,
            ru > 0 as real,
    ;
    assert((x * x) * (ru * ru) == (x * ru) * (x * ru)) by (nonlinear_arith);
    assert(y * (ru * ru) == (y * ru) * ru) by (nonlinear_arith);
    let (m, z) = (x * x, y - x * x);
    assert(m * c == rs * rs);
    assert((y - m) * c == y * c - m * c) by (nonlinear_arith);
    let d = (n - s * s) as real;
    assert(d == z * c);
    lemma_sized(z, c);
    let kk = k * k;
    assert(kk > 0 as real) by (nonlinear_arith)
        requires
            kk == k * k,
            k > 0 as real,
    ;
    let b = 2 as real * k + 1 as real;
    assert(p(54) == 2 * p(53)) by (nonlinear_arith)
        requires
            p(54) == p(53) * p(1),
            p(1) == 2,
    ;
    assert(p(106) as real == kk);
    assert((p(54) + 1) as real == b);
    assert((s * s) as real == rs * rs);
    assert((p(106) * (n - s * s)) as real == kk * d);
    let (g, w) = (p(54) + 1, s * s);
    lemma_cast_product(g, w);
    let (rg, rw) = (g as real, w as real);
    assert(rg == b && rw == rs * rs);
    assert(rg * rw == b * (rs * rs)) by (nonlinear_arith)
        requires
            rg == b,
            rw == rs * rs,
    ;
    assert(-(g * w) <= p(106) * (n - w) <= g * w);
    assert(-(b * (rs * rs)) <= kk * d <= b * (rs * rs));
    assert(kk * (-d) == -(kk * d)) by (nonlinear_arith);
    assert(kk * size(d) <= b * (rs * rs));
    let t = size(z);
    assert(kk * (t * c) == (kk * t) * c) by (nonlinear_arith);
    assert(b * (m * c) == (b * m) * c) by (nonlinear_arith);
    assert(kk * t <= b * m) by (nonlinear_arith)
        requires
            (kk * t) * c <= (b * m) * c,
            c > 0 as real,
    ;
    let e = epsilon();
    assert(e * k == 1 as real) by (nonlinear_arith)
        requires
            e == 1 as real / k,
            k > 0 as real,
    ;
    let ee = e * e;
    assert(ee > 0 as real) by (nonlinear_arith)
        requires
            ee == e * e,
            e > 0 as real,
    ;
    assert((e * e) * (k * k) == (e * k) * (e * k)) by (nonlinear_arith);
    assert(ee * kk == 1 as real);
    assert(ee * (kk * t) == (ee * kk) * t) by (nonlinear_arith);
    assert((ee * kk) * t == t) by (nonlinear_arith)
        requires
            ee * kk == 1 as real,
    ;
    assert(ee * (kk * t) <= ee * (b * m)) by (nonlinear_arith)
        requires
            kk * t <= b * m,
            ee > 0 as real,
    ;
    assert(ee * (b * m) == (ee * b) * m) by (nonlinear_arith);
    assert((e * e) * (2 as real * k + 1 as real) == 2 as real * (e * (e * k)) + e * e)
        by (nonlinear_arith);
    assert(e * (e * k) == e) by (nonlinear_arith)
        requires
            e * k == 1 as real,
    ;
    assert((1 as real + e) * (1 as real + e) == 1 as real + 2 as real * e + e * e)
        by (nonlinear_arith);
}

} // verus!
