//! Operands times a power of two give results times a power of two.
use vstd::arithmetic::div_mod::{lemma_fundamental_div_mod, lemma_fundamental_div_mod_converse};
use vstd::prelude::*;

use crate::binary64::rounding::{INFINITE_CODE, ORDER};
use crate::binary64::{Binary64, UNIT};

verus! {

use crate::binary64::arithmetic::{
    lemma_exact, lemma_nearest_zero, opposite, product, quotient, square_root, sum,
};
use crate::binary64::bounds::{
    lemma_nearest_at_most, lemma_root_parts, lemma_root_spread_range, lemma_spread_range,
};
use crate::binary64::compare::{equal, law_order_of_values, precedes};
use crate::binary64::rounding::{
    is_root_steps, last_place, length, lemma_length, lemma_root_spread_unique,
    lemma_root_steps_unique, lemma_spread_unique, nearest, nearest_root, p, p_add, p_mono, p_pos,
    p_values, root_spread, root_steps, spread,
};
use crate::binary64::{encoded, lemma_decoded, lemma_encoded};

/// Whether `y` is `2^k x`, and both are finite.
pub open spec fn is_shifted(x: Binary64, y: Binary64, k: int) -> bool {
    &&& x.is_finite()
    &&& y.is_finite()
    &&& x.negative() == y.negative()
    &&& y.units() == x.units() * p(k)
}

/// Whether a product keeps all its digits: its factors are finite, and one of
/// them is zero or the product is more than the smallest number with all
/// digits.
pub open spec fn is_clear(a: Binary64, b: Binary64) -> bool {
    &&& a.is_finite()
    &&& b.is_finite()
    &&& a.code() == 0 || b.code() == 0 || product(a, b).code() > ORDER
}

/// A code `k` orders higher stands for `2^k` times the magnitude.
proof fn lemma_higher_code(negative: bool, code: nat, k: int)
    requires
        k >= 0,
        code >= ORDER,
        code + k * ORDER < INFINITE_CODE,
    ensures
        is_shifted(encoded(negative, code), encoded(negative, (code + k * ORDER) as nat), k),
{
    assert(0 <= k * ORDER) by (nonlinear_arith)
        requires
            k >= 0,
    ;
    let c = (code + k * ORDER) as nat;
    lemma_encoded(negative, code);
    lemma_encoded(negative, c);
    let x = encoded(negative, code);
    let y = encoded(negative, c);
    lemma_decoded(x);
    lemma_decoded(y);
    let o = ORDER as int;
    lemma_fundamental_div_mod(code as int, o);
    let q = code as int / o;
    let r = code as int % o;
    assert(c == (q + k) * o + r) by (nonlinear_arith)
        requires
            code == o * q + r,
            c == code + k * o,
    ;
    lemma_fundamental_div_mod_converse(c as int, o, q + k, r);
    assert(y.scale() == x.scale() + k);
    assert(y.digits() == x.digits());
    p_add(x.scale(), k);
    assert(y.units() == x.units() * p(k)) by (nonlinear_arith)
        requires
            y.units() == y.digits() * p(y.scale()),
            x.units() == x.digits() * p(x.scale()),
            y.digits() == x.digits(),
            p(y.scale()) == p(x.scale()) * p(k),
    ;
}

/// A fraction with all its digits, times `2^k`, rounds `k` orders higher.
pub proof fn lemma_nearest_shifted(n: nat, den: nat, k: int)
    requires
        den > 0,
        k >= 0,
        n >= p(52) * den,
    ensures
        nearest((n * p(k)) as nat, den) == nearest(n, den) + k * ORDER,
{
    lemma_spread_range(n, den);
    p_pos(k);
    let s = spread(n, den) as int;
    let m = (n * p(k)) as nat;
    assert(m == n * p(k)) by {
        assert(n * p(k) >= 0) by (nonlinear_arith)
            requires
                n >= 0,
                p(k) > 0,
        ;
    }
    p_add(s + 53, k);
    p_add(s + 52, k);
    p_add(s, k);
    p_values();
    assert(den * p(s + 52) <= n) by {
        if s == 0 {
            assert(den * p(52) == p(52) * den) by (nonlinear_arith);
        }
    }
    assert(den * p(s + k + 52) <= m < den * p(s + k + 53)) by (nonlinear_arith)
        requires
            m == n * p(k),
            den * p(s + 52) <= n < den * p(s + 53),
            p(s + k + 52) == p(s + 52) * p(k),
            p(s + k + 53) == p(s + 53) * p(k),
            p(k) > 0,
    ;
    lemma_spread_unique(m, den, s + k);
    let u = den * p(s);
    let w = den * p(s + k);
    p_pos(s);
    assert(u > 0) by (nonlinear_arith)
        requires
            u == den * p(s),
            den > 0,
            p(s) > 0,
    ;
    assert(w == u * p(k)) by (nonlinear_arith)
        requires
            u == den * p(s),
            w == den * p(s + k),
            p(s + k) == p(s) * p(k),
    ;
    lemma_fundamental_div_mod(n as int, u);
    let d = n as int / u;
    let r = n as int % u;
    let e = r * p(k);
    assert(m == d * w + e && 0 <= e < w) by (nonlinear_arith)
        requires
            m == n * p(k),
            n == u * d + r,
            w == u * p(k),
            e == r * p(k),
            0 <= r < u,
            p(k) > 0,
    ;
    lemma_fundamental_div_mod_converse(m as int, w, d, e);
    assert(2 * e > w <==> 2 * r > u) by (nonlinear_arith)
        requires
            e == r * p(k),
            w == u * p(k),
            p(k) > 0,
    ;
    assert(2 * e == w <==> 2 * r == u) by (nonlinear_arith)
        requires
            e == r * p(k),
            w == u * p(k),
            p(k) > 0,
    ;
    assert((s + k) * ORDER == s * ORDER + k * ORDER) by (nonlinear_arith);
}

/// A common factor of numerator and denominator does not matter.
proof fn lemma_common_factor(n: nat, den: nat, k: nat)
    requires
        den > 0,
        k > 0,
    ensures
        spread(n * k, den * k) == spread(n, den),
        den * k > 0,
    decreases n - den,
{
    p_values();
    assert(den * k > 0) by (nonlinear_arith)
        requires
            den > 0,
            k > 0,
    ;
    assert(n * k < (den * k) * p(53) <==> n < den * p(53)) by (nonlinear_arith)
        requires
            k > 0,
    ;
    if n >= den * p(53) {
        assert(n >= 2 * den) by (nonlinear_arith)
            requires
                n >= den * p(53),
                p(53) >= 2,
        ;
        assert(2 * (den * k) == (2 * den) * k) by (nonlinear_arith);
        lemma_common_factor(n, 2 * den, k);
    }
}

/// A common factor of numerator and denominator does not change the rounding.
pub proof fn lemma_nearest_ratio(n: nat, den: nat, k: nat)
    requires
        den > 0,
        k > 0,
    ensures
        nearest(n * k, den * k) == nearest(n, den),
{
    lemma_common_factor(n, den, k);
    let s = spread(n, den) as int;
    p_pos(s);
    let u = den * p(s);
    let w = (den * k) * p(s);
    assert(u > 0) by (nonlinear_arith)
        requires
            u == den * p(s),
            den > 0,
            p(s) > 0,
    ;
    assert(w == u * k) by (nonlinear_arith)
        requires
            u == den * p(s),
            w == (den * k) * p(s),
    ;
    lemma_fundamental_div_mod(n as int, u);
    let d = n as int / u;
    let r = n as int % u;
    assert(n * k == d * w + r * k && 0 <= r * k < w) by (nonlinear_arith)
        requires
            n == u * d + r,
            w == u * k,
            0 <= r < u,
            k > 0,
    ;
    lemma_fundamental_div_mod_converse((n * k) as int, w, d, r * k);
    assert(2 * (r * k) > w <==> 2 * r > u) by (nonlinear_arith)
        requires
            w == u * k,
            k > 0,
    ;
    assert(2 * (r * k) == w <==> 2 * r == u) by (nonlinear_arith)
        requires
            w == u * k,
            k > 0,
    ;
}

/// Up to 53 digits are kept as they are.
pub proof fn lemma_kept(negative: bool, q: nat, t: int)
    requires
        0 < q < p(53),
        t >= 0,
        encoded(negative, nearest((q * p(t)) as nat, 1)).is_finite(),
    ensures
        encoded(negative, nearest((q * p(t)) as nat, 1)).units() == q * p(t),
{
    p_pos(t);
    p_values();
    let n = q * p(t);
    assert(n > 0) by (nonlinear_arith)
        requires
            n == q * p(t),
            q > 0,
            p(t) > 0,
    ;
    lemma_exact(q, t, n as nat);
    lemma_length(q);
    let l = length(q) as int;
    if l > 53 {
        p_mono(53, l - 1);
    }
    let s = last_place(l, t);
    let c = nearest(n as nat, 1);
    let x = encoded(negative, c);
    lemma_encoded(negative, c);
    lemma_decoded(x);
    let d = q * p(t - s);
    if s >= t {
        assert(s == t);
        assert(q as int / 1 == q && q as int % 1 == 0);
    }
    assert(q * 1 == q);
    assert(c == s * ORDER + d);
    p_add(t - s, s);
    assert(d * p(s) == n) by (nonlinear_arith)
        requires
            d == q * p(t - s),
            n == q * p(t),
            p(t) == p(t - s) * p(s),
    ;
    p_pos(t - s);
    p_add(l, t - s);
    p_add(l - 1, t - s);
    assert(p(l - 1 + t - s) <= d < p(l + t - s)) by (nonlinear_arith)
        requires
            d == q * p(t - s),
            p(l - 1) <= q < p(l),
            p(l + t - s) == p(l) * p(t - s),
            p(l - 1 + t - s) == p(l - 1) * p(t - s),
            p(t - s) > 0,
    ;
    p_mono(l + t - s, 53);
    let o = ORDER as int;
    if s > 0 || d >= ORDER {
        assert(d >= ORDER);
        assert(c == (s + 1) * o + (d - o)) by (nonlinear_arith)
            requires
                c == s * o + d,
        ;
        lemma_fundamental_div_mod_converse(c as int, o, s + 1, d - o);
        assert(o <= c) by (nonlinear_arith)
            requires
                c == (s + 1) * o + (d - o),
                d >= o,
                s >= 0,
                o > 0,
        ;
        assert(x.scale() == s && x.digits() == d);
    } else {
        assert(x.scale() == 0 && x.digits() == d);
    }
}

/// The value of a number times `2^k`.
pub proof fn lemma_value_shifted(a: Binary64, x: Binary64, k: int)
    requires
        is_shifted(a, x, k),
    ensures
        x.value() == a.value() * p(k),
{
    if a.negative() {
        assert(-(a.units() * p(k)) == (-(a.units() as int)) * p(k)) by (nonlinear_arith);
    }
}

/// Sums of numbers times `2^k` are the sums times `2^k`, as long as they are
/// finite.
pub proof fn lemma_sum_shifted(a: Binary64, b: Binary64, x: Binary64, y: Binary64, k: int)
    requires
        k >= 0,
        is_shifted(a, x, k),
        is_shifted(b, y, k),
        sum(x, y).is_finite(),
    ensures
        is_shifted(sum(a, b), sum(x, y), k),
{
    p_pos(k);
    p_values();
    lemma_value_shifted(a, x, k);
    lemma_value_shifted(b, y, k);
    let v = a.value() + b.value();
    let w = x.value() + y.value();
    assert(w == v * p(k)) by (nonlinear_arith)
        requires
            v == a.value() + b.value(),
            w == x.value() + y.value(),
            x.value() == a.value() * p(k),
            y.value() == b.value() * p(k),
    ;
    if v == 0 {
        assert(w == 0) by (nonlinear_arith)
            requires
                w == v * p(k),
                v == 0,
        ;
        let negative = a.negative() && b.negative();
        lemma_encoded(negative, 0);
        let z = encoded(negative, 0);
        lemma_decoded(z);
        assert(z.units() == 0) by (nonlinear_arith)
            requires
                z.units() == z.digits() * p(z.scale()),
                z.digits() == 0,
        ;
        assert(0 * p(k) == 0);
    } else {
        let negative = v < 0;
        let n = (if v < 0 {
            -v
        } else {
            v
        }) as nat;
        let m = (n * p(k)) as nat;
        assert(n * p(k) == if w < 0 {
            -w
        } else {
            w
        } && (w < 0 <==> v < 0) && w != 0) by (nonlinear_arith)
            requires
                w == v * p(k),
                p(k) > 0,
                v != 0,
                n == if v < 0 {
                    -v
                } else {
                    v
                },
        ;
        assert(sum(a, b) == encoded(negative, nearest(n, 1)));
        assert(sum(x, y) == encoded(negative, nearest(m, 1)));
        lemma_encoded(negative, nearest(n, 1));
        lemma_encoded(negative, nearest(m, 1));
        if n >= ORDER {
            lemma_nearest_shifted(n, 1, k);
            crate::binary64::bounds::lemma_nearest_at_least(n, 1, 52);
            assert(k * ORDER >= 0) by (nonlinear_arith)
                requires
                    k >= 0,
            ;
            lemma_higher_code(negative, nearest(n, 1), k);
        } else {
            lemma_kept(negative, n, k);
            assert(n * p(0) == n);
            lemma_exact(n, 0, n);
            lemma_length(n);
            let l = length(n) as int;
            if l > 53 {
                p_mono(53, l - 1);
            }
            assert(last_place(l, 0) == 0);
            assert(n as int / 1 == n && n as int % 1 == 0);
            assert(nearest(n, 1) == n);
            lemma_kept(negative, n, 0);
        }
    }
}

/// Products that keep all their digits are scaled with a factor, as long as
/// they are finite; where they are not, they are infinite.
pub proof fn lemma_product_shifted(a: Binary64, x: Binary64, b: Binary64, k: int)
    requires
        k >= 0,
        is_shifted(a, x, k),
        is_clear(a, b),
    ensures
        product(x, b).negative() == product(a, b).negative(),
        !product(x, b).is_undefined(),
        product(x, b).is_finite() ==> is_shifted(product(a, b), product(x, b), k),
        !product(x, b).is_finite() ==> product(a, b).code() > ORDER,
{
    p_pos(k);
    p_pos(UNIT as int);
    p_values();
    let den = p(UNIT as int) as nat;
    let n = a.units() * b.units();
    let m = x.units() * b.units();
    let negative = a.negative() != b.negative();
    assert(m == n * p(k)) by (nonlinear_arith)
        requires
            m == x.units() * b.units(),
            n == a.units() * b.units(),
            x.units() == a.units() * p(k),
    ;
    lemma_encoded(negative, nearest(n, den));
    lemma_encoded(negative, nearest(m, den));
    if a.code() == 0 || b.code() == 0 {
        lemma_decoded(a);
        lemma_decoded(b);
        assert(n == 0) by (nonlinear_arith)
            requires
                n == a.units() * b.units(),
                a.units() == a.digits() * p(a.scale()),
                b.units() == b.digits() * p(b.scale()),
                a.digits() == 0 || b.digits() == 0,
        ;
        assert(0 * p(k) == 0);
        lemma_nearest_zero(den);
        let z = encoded(negative, 0);
        lemma_decoded(z);
        assert(z.units() == 0) by (nonlinear_arith)
            requires
                z.units() == z.digits() * p(z.scale()),
                z.digits() == 0,
        ;
    } else {
        if n < p(52) * den {
            lemma_nearest_at_most(n, den, 52);
        }
        lemma_nearest_shifted(n, den, k);
        assert(k * ORDER >= 0) by (nonlinear_arith)
            requires
                k >= 0,
        ;
        if product(x, b).is_finite() {
            lemma_higher_code(negative, nearest(n, den), k);
        }
    }
}

/// Ratios do not change.
pub proof fn lemma_quotient_shifted(a: Binary64, x: Binary64, b: Binary64, y: Binary64, k: int)
    requires
        k >= 0,
        is_shifted(a, x, k),
        is_shifted(b, y, k),
        b.code() > 0,
    ensures
        y.code() > 0,
        quotient(x, y) == quotient(a, b),
{
    p_pos(k);
    p_pos(UNIT as int);
    let c = p(UNIT as int) as nat;
    let zero = Binary64 { bits: 0 };
    lemma_decoded(zero);
    assert(zero.units() == 0) by (nonlinear_arith)
        requires
            zero.units() == zero.digits() * p(zero.scale()),
            zero.digits() == 0,
    ;
    crate::binary64::compare::lemma_units_grow(zero, b);
    assert(y.units() > 0) by (nonlinear_arith)
        requires
            y.units() == b.units() * p(k),
            b.units() > 0,
            p(k) > 0,
    ;
    lemma_decoded(y);
    if y.code() == 0 {
        assert(y.units() == 0) by (nonlinear_arith)
            requires
                y.units() == y.digits() * p(y.scale()),
                y.digits() == 0,
        ;
    }
    let f = p(k) as nat;
    assert(x.units() * c == (a.units() * c) * f) by (nonlinear_arith)
        requires
            x.units() == a.units() * p(k),
            f == p(k),
    ;
    assert(y.units() == b.units() * f);
    lemma_nearest_ratio(a.units() * c, b.units(), f);
}

/// A root with all its digits, of a number times `4^k`, rounds `k` orders higher.
proof fn lemma_nearest_root_shifted(n: nat, k: int)
    requires
        k >= 0,
        n >= p(52) * p(52),
    ensures
        nearest_root((n * p(2 * k)) as nat) == nearest_root(n) + k * ORDER,
{
    lemma_root_spread_range(n, 1);
    lemma_root_parts(n);
    let s = root_spread(n, 1) as int;
    p_values();
    p_pos(k);
    p_pos(s);
    p_add(k, k);
    p_add(s, k);
    p_add(s + 52, k);
    p_add(s + 53, k);
    let f = p(k);
    let m = (n * p(2 * k)) as nat;
    assert(n * p(2 * k) == (n * f) * f && n * p(2 * k) >= 0) by (nonlinear_arith)
        requires
            p(2 * k) == f * f,
            n >= 0,
    ;
    let low = p(s + 52);
    let high = p(s + 53);
    assert(low * low <= n < high * high);
    p_pos(s + 52);
    p_pos(s + 53);
    assert((low * f) * (low * f) <= m < (high * f) * (high * f)) by (nonlinear_arith)
        requires
            m == (n * f) * f,
            low * low <= n < high * high,
            f > 0,
    {
        assert((low * f) * (low * f) == ((low * low) * f) * f) by (nonlinear_arith);
        assert((high * f) * (high * f) == ((high * high) * f) * f) by (nonlinear_arith);
        assert(((low * low) * f) * f <= (n * f) * f < ((high * high) * f) * f)
            by (nonlinear_arith)
            requires
                low * low <= n < high * high,
                f > 0,
        ;
    }
    assert(1 * p(s + k + 53) == high * f && 1 * p(s + k + 52) == low * f);
    lemma_root_spread_unique(m, 1, s + k);
    let u = p(s);
    let w = p(s + k);
    let d = root_steps(n, u);
    lemma_scaled_square(d as int, u, f, n as int, m as int);
    lemma_scaled_square(d as int + 1, u, f, n as int, m as int);
    assert(w == u * f);
    assert(is_root_steps(m, w, d)) by {
        assert((d * u) * (d * u) <= n < ((d + 1) * u) * ((d + 1) * u));
    }
    p_pos(s + k);
    lemma_root_steps_unique(m, w, d);
    assert(4 * m == ((4 * n) * f) * f) by (nonlinear_arith)
        requires
            m == (n * f) * f,
    ;
    lemma_scaled_square(2 * d as int + 1, u, f, 4 * n as int, 4 * m as int);
    assert((s + k) * ORDER == s * ORDER + k * ORDER) by (nonlinear_arith);
}

/// Comparing a square with a number, both times `f^2`.
proof fn lemma_scaled_square(d: int, u: int, f: int, n: int, m: int)
    requires
        f > 0,
        m == (n * f) * f,
    ensures
        (d * (u * f)) * (d * (u * f)) <= m <==> (d * u) * (d * u) <= n,
        (d * (u * f)) * (d * (u * f)) == m <==> (d * u) * (d * u) == n,
{
    let a = (d * u) * (d * u);
    let b = (d * (u * f)) * (d * (u * f));
    assert(b == (a * f) * f) by (nonlinear_arith)
        requires
            a == (d * u) * (d * u),
            b == (d * (u * f)) * (d * (u * f)),
    ;
    assert((a * f) * f <= (n * f) * f <==> a <= n) by {
        crate::binary64::rounding::lemma_cancel(a * f, n * f, f);
        crate::binary64::rounding::lemma_cancel(a, n, f);
    }
    assert((a * f) * f < (n * f) * f <==> a < n) by {
        crate::binary64::rounding::lemma_cancel(a * f, n * f, f);
        crate::binary64::rounding::lemma_cancel(a, n, f);
    }
}

/// The root of a positive number times `4^k` is the root times `2^k`.
pub proof fn lemma_root_shifted(a: Binary64, x: Binary64, k: int)
    requires
        k >= 0,
        is_shifted(a, x, 2 * k),
        a.code() > 0,
        !a.negative(),
    ensures
        is_shifted(square_root(a), square_root(x), k),
        square_root(a).code() > ORDER,
        !square_root(a).negative(),
{
    p_pos(2 * k);
    p_pos(UNIT as int);
    p_values();
    let c = p(UNIT as int) as nat;
    let zero = Binary64 { bits: 0 };
    lemma_decoded(zero);
    assert(zero.units() == 0) by (nonlinear_arith)
        requires
            zero.units() == zero.digits() * p(zero.scale()),
            zero.digits() == 0,
    ;
    crate::binary64::compare::lemma_units_grow(zero, a);
    let n = a.units() * c;
    let m = x.units() * c;
    assert(m == n * p(2 * k)) by (nonlinear_arith)
        requires
            m == x.units() * c,
            n == a.units() * c,
            x.units() == a.units() * p(2 * k),
    ;
    assert(x.units() > 0) by (nonlinear_arith)
        requires
            x.units() == a.units() * p(2 * k),
            a.units() > 0,
            p(2 * k) > 0,
    ;
    lemma_decoded(x);
    if x.code() == 0 {
        assert(x.units() == 0) by (nonlinear_arith)
            requires
                x.units() == x.digits() * p(x.scale()),
                x.digits() == 0,
        ;
    }
    p_add(537, 537);
    assert(n >= p(537) * p(537)) by (nonlinear_arith)
        requires
            n == a.units() * c,
            a.units() >= 1,
            c == p(537) * p(537),
    ;
    p_mono(52, 537);
    assert(n >= p(52) * p(52)) by (nonlinear_arith)
        requires
            n >= p(537) * p(537),
            p(537) >= p(52),
            p(52) > 0,
    ;
    lemma_nearest_root_shifted(n, k);
    crate::binary64::bounds::lemma_root_at_least(n, 537);
    crate::binary64::bounds::lemma_finite_units(x);
    p_add(UNIT + 512, UNIT + 512);
    p_add(UNIT + 1024, UNIT as int);
    assert(m <= p(UNIT + 512) * p(UNIT + 512)) by (nonlinear_arith)
        requires
            m == x.units() * c,
            x.units() <= p(UNIT + 1024),
            c == p(UNIT as int),
            p(UNIT + 1024) * p(UNIT as int) == p(UNIT + 512) * p(UNIT + 512),
            c > 0,
    ;
    crate::binary64::bounds::lemma_root_at_most(m, UNIT + 512);
    lemma_encoded(false, nearest_root(n));
    lemma_encoded(false, nearest_root(m));
    assert(k * ORDER >= 0) by (nonlinear_arith)
        requires
            k >= 0,
    ;
    lemma_higher_code(false, nearest_root(n), k);
}

/// The opposite of a number times `2^k`.
pub proof fn lemma_opposite_shifted(a: Binary64, x: Binary64, k: int)
    requires
        is_shifted(a, x, k),
    ensures
        is_shifted(opposite(a), opposite(x), k),
{
    lemma_decoded(a);
    lemma_decoded(opposite(a));
    lemma_decoded(x);
    lemma_decoded(opposite(x));
}

/// Numbers times `2^k` are ordered as the numbers are.
pub proof fn lemma_order_shifted(a: Binary64, x: Binary64, b: Binary64, y: Binary64, k: int)
    requires
        is_shifted(a, x, k),
        is_shifted(b, y, k),
    ensures
        precedes(x, y) == precedes(a, b),
        equal(x, y) == equal(a, b),
{
    law_order_of_values(a, b);
    law_order_of_values(x, y);
    p_pos(k);
    let f = p(k);
    lemma_value_shifted(a, x, k);
    lemma_value_shifted(b, y, k);
    crate::binary64::rounding::lemma_cancel(a.value(), b.value(), f);
    crate::binary64::rounding::lemma_cancel(b.value(), a.value(), f);
}

/// Zero times `2^k` is zero.
pub proof fn lemma_zero_shifted(z: Binary64, k: int)
    requires
        z.code() == 0,
    ensures
        is_shifted(z, z, k),
{
    lemma_decoded(z);
    assert(z.units() == 0) by (nonlinear_arith)
        requires
            z.units() == z.digits() * p(z.scale()),
            z.digits() == 0,
    ;
    assert(0 * p(k) == 0);
}

} // verus!
