//! Bounds of results in powers of two.
use vstd::prelude::*;

use crate::binary64::rounding::ORDER;
use crate::binary64::{Binary64, UNIT};

verus! {

use crate::binary64::arithmetic::{integer, product, quotient, square_root, sum};
use crate::binary64::rounding::{
    is_root_steps, lemma_cancel, lemma_squares, nearest, nearest_root, p, p_add, p_mono, p_pos,
    p_values, root_spread, root_steps, spread,
};
use crate::binary64::{encoded, lemma_decoded, lemma_encoded};

/// Whether the magnitude is at most `2^k`.
pub open spec fn within(x: Binary64, k: int) -> bool {
    x.code() <= (1023 + k) * ORDER && x.is_finite()
}

/// Whether the number is at least `2^k`, and finite.
pub open spec fn beyond(x: Binary64, k: int) -> bool {
    &&& x.code() >= (1023 + k) * ORDER
    &&& x.is_finite()
    &&& !x.negative()
}

/// Whether the exponent is one of a number with all its digits.
pub open spec fn is_exponent(k: int) -> bool {
    -1022 <= k <= 1023
}

/// What the spread says of a fraction.
pub proof fn lemma_spread_range(num: nat, den: nat)
    requires
        den > 0,
    ensures
        num < den * p(spread(num, den) as int + 53),
        spread(num, den) > 0 ==> den * p(spread(num, den) as int + 52) <= num,
    decreases num - den,
{
    p_values();
    if num >= den * p(53) {
        assert(num >= 2 * den) by (nonlinear_arith)
            requires
                num >= den * p(53),
                p(53) >= 2,
        ;
        lemma_spread_range(num, 2 * den);
        let s = spread(num, 2 * den) as int;
        p_add(1, s + 53);
        p_add(1, s + 52);
        assert((2 * den) * p(s + 53) == den * p(s + 54)) by (nonlinear_arith)
            requires
                p(s + 54) == 2 * p(s + 53),
        ;
        assert((2 * den) * p(s + 52) == den * p(s + 53)) by (nonlinear_arith)
            requires
                p(s + 53) == 2 * p(s + 52),
        ;
    }
}

/// Digits and rest of a fraction, and how they are rounded.
pub proof fn lemma_nearest_parts(num: nat, den: nat)
    requires
        den > 0,
    ensures
        ({
            let s = spread(num, den) as int;
            let u = den * p(s);
            let d = num as int / u;
            let r = num as int % u;
            &&& u > 0
            &&& num == d * u + r
            &&& 0 <= r < u
            &&& 0 <= d < p(53)
            &&& s > 0 ==> p(52) <= d
            &&& nearest(num, den) == s * ORDER + d || nearest(num, den) == s * ORDER + d + 1
            &&& r == 0 ==> nearest(num, den) == s * ORDER + d
            &&& nearest(num, den) == s * ORDER + d ==> 2 * r <= u
            &&& nearest(num, den) == s * ORDER + d + 1 ==> 2 * r >= u
        }),
{
    lemma_spread_range(num, den);
    let s = spread(num, den) as int;
    p_pos(s);
    p_add(s, 53);
    p_add(s, 52);
    let u = den * p(s);
    assert(u > 0) by (nonlinear_arith)
        requires
            den > 0,
            p(s) > 0,
            u == den * p(s),
    ;
    vstd::arithmetic::div_mod::lemma_fundamental_div_mod(num as int, u);
    let d = num as int / u;
    let r = num as int % u;
    assert(num == d * u + r) by (nonlinear_arith)
        requires
            num == u * d + r,
    ;
    assert(den * p(s + 53) == p(53) * u && den * p(s + 52) == p(52) * u) by (nonlinear_arith)
        requires
            u == den * p(s),
            p(s + 53) == p(s) * p(53),
            p(s + 52) == p(s) * p(52),
    ;
    assert(d < p(53)) by (nonlinear_arith)
        requires
            d * u + r < p(53) * u,
            u > 0,
            r >= 0,
    ;
    assert(d >= 0) by (nonlinear_arith)
        requires
            d * u + r >= 0,
            r < u,
            u > 0,
    ;
    if s > 0 {
        assert(p(52) <= d) by (nonlinear_arith)
            requires
                p(52) * u <= d * u + r,
                r < u,
                u > 0,
        ;
    }
}

/// What is at most `2^j` units does not round beyond them.
pub proof fn lemma_nearest_at_most(num: nat, den: nat, j: int)
    requires
        den > 0,
        j >= 52,
        num <= p(j) * den,
    ensures
        nearest(num, den) <= (j - 51) * ORDER,
{
    lemma_nearest_parts(num, den);
    p_values();
    let s = spread(num, den) as int;
    let u = den * p(s);
    let d = num as int / u;
    let r = num as int % u;
    p_pos(s);
    if s + 52 > j {
        p_mono(j, s + 52);
        p_add(s, 52);
        assert(p(s + 52) > p(j)) by {
            p_pos(j);
        }
        assert(false) by (nonlinear_arith)
            requires
                s > 0 ==> p(52) <= d,
                s > 0,
                num == d * u + r,
                r >= 0,
                u == den * p(s),
                u > 0,
                p(s + 52) == p(s) * p(52),
                p(s + 52) > p(j),
                num <= p(j) * den,
                den > 0,
        ;
    } else if s + 52 == j {
        p_add(s, 52);
        assert(d < p(52) || (d == p(52) && r == 0)) by (nonlinear_arith)
            requires
                num == d * u + r,
                r >= 0,
                u == den * p(s),
                u > 0,
                p(j) == p(s) * p(52),
                num <= p(j) * den,
        ;
        assert(s * ORDER + ORDER == (j - 51) * ORDER) by (nonlinear_arith)
            requires
                s + 52 == j,
        ;
    } else {
        assert((s + 2) * ORDER <= (j - 51) * ORDER) by (nonlinear_arith)
            requires
                s + 2 <= j - 51,
        ;
        assert((s + 2) * ORDER == s * ORDER + 2 * ORDER) by (nonlinear_arith);
    }
}

/// What is at least `2^j` units does not round below them.
pub proof fn lemma_nearest_at_least(num: nat, den: nat, j: int)
    requires
        den > 0,
        j >= 52,
        p(j) * den <= num,
    ensures
        nearest(num, den) >= (j - 51) * ORDER,
{
    lemma_nearest_parts(num, den);
    p_values();
    let s = spread(num, den) as int;
    let u = den * p(s);
    let d = num as int / u;
    let r = num as int % u;
    p_pos(s);
    if s + 53 <= j {
        p_mono(s + 53, j);
        p_add(s, 53);
        assert(false) by (nonlinear_arith)
            requires
                d < p(53),
                num == d * u + r,
                r < u,
                u == den * p(s),
                u > 0,
                p(s + 53) == p(s) * p(53),
                p(s + 53) <= p(j),
                p(j) * den <= num,
                den > 0,
        ;
    }
    if s == 0 {
        assert(p(52) <= d) by (nonlinear_arith)
            requires
                num == d * u + r,
                r < u,
                u == den * p(s),
                p(s) == 1,
                p(52) * den <= num,
                den > 0,
        ;
    }
    assert((j - 51) * ORDER <= s * ORDER + ORDER) by (nonlinear_arith)
        requires
            j - 51 <= s + 1,
    ;
}

/// The units of a number that is at most, or at least, a power of two.
pub proof fn lemma_power_units(x: Binary64, k: int)
    requires
        x.is_finite(),
        is_exponent(k),
    ensures
        within(x, k) <==> x.units() <= p(UNIT + k),
        beyond(x, k) <==> x.units() >= p(UNIT + k) && !x.negative(),
{
    let c = Binary64 { bits: ((1023 + k) * ORDER) as u64 };
    assert(ORDER <= (1023 + k) * ORDER <= 2046 * ORDER) by (nonlinear_arith)
        requires
            -1022 <= k <= 1023,
    ;
    assert(c.code() == (1023 + k) * ORDER);
    assert(c.code() / ORDER as int == 1023 + k && c.code() % ORDER as int == 0) by {
        vstd::arithmetic::div_mod::lemma_fundamental_div_mod_converse(
            c.code(),
            ORDER as int,
            1023 + k,
            0,
        );
    }
    lemma_decoded(c);
    p_values();
    p_add(52, 1022 + k);
    if x.code() < c.code() {
        crate::binary64::compare::lemma_units_grow(x, c);
    } else if x.code() > c.code() {
        crate::binary64::compare::lemma_units_grow(c, x);
    } else {
        lemma_decoded(x);
    }
}

/// What a code bound says once the number has been put together.
proof fn lemma_put_together(negative: bool, code: nat, k: int)
    requires
        is_exponent(k),
    ensures
        code <= (1023 + k) * ORDER ==> within(encoded(negative, code), k),
        code >= (1023 + k) * ORDER && encoded(negative, code).is_finite() && !negative ==> beyond(
            encoded(negative, code),
            k,
        ),
{
    lemma_encoded(negative, code);
    assert((1023 + k) * ORDER <= 2046 * ORDER) by (nonlinear_arith)
        requires
            k <= 1023,
    ;
}

/// Bounds multiply.
pub proof fn lemma_product_within(a: Binary64, b: Binary64, i: int, j: int)
    requires
        is_exponent(i),
        is_exponent(j),
        is_exponent(i + j),
        within(a, i),
        within(b, j),
    ensures
        within(product(a, b), i + j),
{
    lemma_power_units(a, i);
    lemma_power_units(b, j);
    let n = a.units() * b.units();
    p_add(UNIT + i, UNIT + j);
    p_add(UNIT + i + j, UNIT as int);
    p_pos(UNIT as int);
    assert(n <= p(UNIT + i + j) * p(UNIT as int)) by (nonlinear_arith)
        requires
            n == a.units() * b.units(),
            a.units() <= p(UNIT + i),
            b.units() <= p(UNIT + j),
            p(UNIT + i) * p(UNIT + j) == p(UNIT + i + j) * p(UNIT as int),
            p(UNIT + i) > 0,
    ;
    lemma_nearest_at_most(n, p(UNIT as int) as nat, UNIT + i + j);
    lemma_put_together(
        a.negative() != b.negative(),
        nearest(n, p(UNIT as int) as nat),
        i + j,
    );
}

/// A number of bounded size over one of at least some size.
pub proof fn lemma_quotient_within(a: Binary64, b: Binary64, i: int, j: int)
    requires
        is_exponent(i),
        is_exponent(j),
        is_exponent(i - j),
        within(a, i),
        beyond(b, j),
    ensures
        within(quotient(a, b), i - j),
{
    lemma_power_units(a, i);
    lemma_power_units(b, j);
    p_pos(UNIT as int);
    p_pos(UNIT + j);
    p_pos(UNIT + i - j);
    p_add(UNIT + i, UNIT as int);
    p_add(UNIT + i - j, UNIT + j);
    let n = a.units() * p(UNIT as int) as nat;
    assert(n <= p(UNIT + i - j) * b.units()) by (nonlinear_arith)
        requires
            n == a.units() * p(UNIT as int),
            a.units() <= p(UNIT + i),
            b.units() >= p(UNIT + j),
            p(UNIT + i) * p(UNIT as int) == p(UNIT + i - j) * p(UNIT + j),
            p(UNIT as int) > 0,
            p(UNIT + i - j) > 0,
    ;
    assert(b.code() > 0) by {
        assert((1023 + j) * ORDER > 0) by (nonlinear_arith)
            requires
                j >= -1022,
        ;
    }
    lemma_nearest_at_most(n, b.units(), UNIT + i - j);
    lemma_put_together(a.negative() != b.negative(), nearest(n, b.units()), i - j);
}

/// Bounds add up.
pub proof fn lemma_sum_within(a: Binary64, b: Binary64, k: int)
    requires
        is_exponent(k),
        is_exponent(k + 1),
        within(a, k),
        within(b, k),
    ensures
        within(sum(a, b), k + 1),
{
    lemma_power_units(a, k);
    lemma_power_units(b, k);
    p_values();
    p_add(1, UNIT + k);
    let v = a.value() + b.value();
    lemma_put_together(a.negative() && b.negative(), 0, k + 1);
    if v < 0 {
        lemma_nearest_at_most((-v) as nat, 1, UNIT + k + 1);
        lemma_put_together(true, nearest((-v) as nat, 1), k + 1);
    } else if v > 0 {
        lemma_nearest_at_most(v as nat, 1, UNIT + k + 1);
        lemma_put_together(false, nearest(v as nat, 1), k + 1);
    }
    assert(0 <= (1023 + k + 1) * ORDER) by (nonlinear_arith)
        requires
            k >= -1022,
    ;
}

/// Adding a number that is not negative keeps a lower bound.
pub proof fn lemma_sum_beyond(a: Binary64, b: Binary64, k: int)
    requires
        is_exponent(k),
        beyond(a, k),
        b.is_finite(),
        b.value() >= 0,
        sum(a, b).is_finite(),
    ensures
        beyond(sum(a, b), k),
{
    lemma_power_units(a, k);
    p_pos(UNIT + k);
    let v = a.value() + b.value();
    lemma_nearest_at_least(v as nat, 1, UNIT + k);
    lemma_put_together(false, nearest(v as nat, 1), k);
}

/// A whole number between powers of two.
pub proof fn lemma_integer_bounds(n: int, low: int, high: int)
    requires
        0 <= low,
        is_exponent(low),
        is_exponent(high),
        p(low) <= n <= p(high),
        0 <= high,
    ensures
        within(integer(n), high),
        beyond(integer(n), low),
        !integer(n).negative(),
{
    p_pos(UNIT as int);
    p_pos(low);
    p_add(low, UNIT as int);
    p_add(high, UNIT as int);
    let m = n * p(UNIT as int);
    assert(p(UNIT + low) <= m <= p(UNIT + high)) by (nonlinear_arith)
        requires
            m == n * p(UNIT as int),
            p(low) <= n <= p(high),
            p(UNIT + low) == p(low) * p(UNIT as int),
            p(UNIT + high) == p(high) * p(UNIT as int),
            p(UNIT as int) > 0,
    ;
    lemma_nearest_at_most(m as nat, 1, UNIT + high);
    lemma_nearest_at_least(m as nat, 1, UNIT + low);
    lemma_put_together(false, nearest(m as nat, 1), high);
    lemma_put_together(false, nearest(m as nat, 1), low);
}

/// There is a greatest number of steps below a root.
proof fn lemma_root_steps_exist(n: nat, u: int, m: nat) -> (r: nat)
    requires
        u > 0,
        (m * u) * (m * u) <= n,
    ensures
        is_root_steps(n, u, r),
    decreases n - m,
{
    let next = ((m + 1) * u) * ((m + 1) * u);
    if n < next {
        m
    } else {
        assert(next >= m + 1) by (nonlinear_arith)
            requires
                next == ((m + 1) * u) * ((m + 1) * u),
                u >= 1,
        ;
        lemma_root_steps_exist(n, u, m + 1)
    }
}

/// What the spread says of a root.
pub proof fn lemma_root_spread_range(n: nat, d: nat)
    requires
        d > 0,
    ensures
        n < (d * p(root_spread(n, d) as int + 53)) * (d * p(root_spread(n, d) as int + 53)),
        root_spread(n, d) > 0 ==> (d * p(root_spread(n, d) as int + 52)) * (d * p(
            root_spread(n, d) as int + 52,
        )) <= n,
    decreases n - d * d,
{
    p_values();
    if n >= (d * p(53)) * (d * p(53)) {
        assert(n >= (2 * d) * (2 * d) && (2 * d) * (2 * d) > d * d) by (nonlinear_arith)
            requires
                n >= (d * p(53)) * (d * p(53)),
                p(53) >= 2,
                d > 0,
        ;
        lemma_root_spread_range(n, 2 * d);
        let s = root_spread(n, 2 * d) as int;
        p_add(1, s + 53);
        p_add(1, s + 52);
        assert((2 * d) * p(s + 53) == d * p(s + 54)) by (nonlinear_arith)
            requires
                p(s + 54) == 2 * p(s + 53),
        ;
        assert((2 * d) * p(s + 52) == d * p(s + 53)) by (nonlinear_arith)
            requires
                p(s + 53) == 2 * p(s + 52),
        ;
    }
}

/// Digits of a root, and how they are rounded.
pub proof fn lemma_root_parts(n: nat)
    ensures
        ({
            let s = root_spread(n, 1) as int;
            let u = p(s);
            let d = root_steps(n, u) as int;
            &&& u > 0
            &&& (d * u) * (d * u) <= n < ((d + 1) * u) * ((d + 1) * u)
            &&& d < p(53)
            &&& s > 0 ==> p(52) <= d
            &&& nearest_root(n) == s * ORDER + d || nearest_root(n) == s * ORDER + d + 1
            &&& (d * u) * (d * u) == n ==> nearest_root(n) == s * ORDER + d
        }),
{
    lemma_root_spread_range(n, 1);
    let s = root_spread(n, 1) as int;
    let u = p(s);
    p_pos(s);
    p_add(s, 53);
    p_add(s, 52);
    p_values();
    assert((0nat * u) * (0nat * u) <= n) by (nonlinear_arith)
        requires
            n >= 0,
    ;
    let w = lemma_root_steps_exist(n, u, 0);
    let d = root_steps(n, u) as int;
    assert(is_root_steps(n, u, d as nat));
    assert(0 <= d * u && 0 <= (d + 1) * u) by (nonlinear_arith)
        requires
            d >= 0,
            u > 0,
    ;
    lemma_squares(d * u, 1 * p(s + 53));
    lemma_squares(1 * p(s + 52), (d + 1) * u);
    assert(p(s + 53) == p(53) * u && p(s + 52) == p(52) * u) by (nonlinear_arith)
        requires
            p(s + 53) == u * p(53),
            p(s + 52) == u * p(52),
    ;
    lemma_cancel(d, p(53), u);
    if s > 0 {
        lemma_cancel(p(52), d + 1, u);
    }
    if (d * u) * (d * u) == n {
        assert(4 * n < ((2 * d + 1) * u) * ((2 * d + 1) * u)) by (nonlinear_arith)
            requires
                n == (d * u) * (d * u),
                u > 0,
                d >= 0,
        ;
    }
}

/// A root of what is at most a square.
pub proof fn lemma_root_at_most(n: nat, j: int)
    requires
        j >= 52,
        n <= p(j) * p(j),
    ensures
        nearest_root(n) <= (j - 51) * ORDER,
{
    lemma_root_parts(n);
    p_values();
    let s = root_spread(n, 1) as int;
    let u = p(s);
    let d = root_steps(n, u) as int;
    p_pos(s);
    p_pos(j);
    assert(0 <= d * u) by (nonlinear_arith)
        requires
            d >= 0,
            u > 0,
    ;
    lemma_squares(d * u, p(j));
    // d u <= 2^j
    if s + 52 > j {
        p_mono(j, s + 52);
        p_add(s, 52);
        assert(false) by (nonlinear_arith)
            requires
                p(52) <= d,
                d * u <= p(j),
                p(s + 52) == u * p(52),
                2 * p(j) <= p(s + 52),
                p(j) > 0,
                u > 0,
        ;
    } else if s + 52 == j {
        p_add(s, 52);
        assert(d <= p(52)) by (nonlinear_arith)
            requires
                d * u <= p(j),
                p(j) == u * p(52),
                u > 0,
        ;
        if d == p(52) {
            assert(d * u == p(j)) by (nonlinear_arith)
                requires
                    d == p(52),
                    p(j) == u * p(52),
            ;
        }
        assert(s * ORDER + ORDER == (j - 51) * ORDER) by (nonlinear_arith)
            requires
                s + 52 == j,
        ;
    } else {
        assert((s + 2) * ORDER <= (j - 51) * ORDER) by (nonlinear_arith)
            requires
                s + 2 <= j - 51,
        ;
        assert((s + 2) * ORDER == s * ORDER + 2 * ORDER) by (nonlinear_arith);
    }
}

/// A root of what is at least a square.
pub proof fn lemma_root_at_least(n: nat, j: int)
    requires
        j >= 52,
        p(j) * p(j) <= n,
    ensures
        nearest_root(n) >= (j - 51) * ORDER,
{
    lemma_root_parts(n);
    p_values();
    let s = root_spread(n, 1) as int;
    let u = p(s);
    let d = root_steps(n, u) as int;
    p_pos(s);
    p_pos(j);
    assert(0 <= (d + 1) * u) by (nonlinear_arith)
        requires
            d >= 0,
            u > 0,
    ;
    lemma_squares(p(j), (d + 1) * u);
    if s + 53 <= j {
        p_mono(s + 53, j);
        p_add(s, 53);
        assert(false) by (nonlinear_arith)
            requires
                d + 1 <= p(53),
                p(j) < (d + 1) * u,
                p(s + 53) == u * p(53),
                p(s + 53) <= p(j),
                u > 0,
        ;
    }
    if s == 0 {
        assert(p(52) <= d) by (nonlinear_arith)
            requires
                p(j) < (d + 1) * u,
                u == 1,
                p(52) <= p(j),
        ;
    }
    assert((j - 51) * ORDER <= s * ORDER + ORDER) by (nonlinear_arith)
        requires
            j - 51 <= s + 1,
    ;
}

/// The root of a number up to `2^(2 k)`.
pub proof fn lemma_root_within(a: Binary64, k: int)
    requires
        -511 <= k <= 511,
        within(a, 2 * k),
        !a.negative(),
    ensures
        within(square_root(a), k),
        !square_root(a).negative(),
{
    lemma_power_units(a, 2 * k);
    p_pos(UNIT as int);
    p_add(UNIT + k, UNIT + k);
    p_add(UNIT + 2 * k, UNIT as int);
    let n = a.units() * p(UNIT as int) as nat;
    assert(n <= p(UNIT + k) * p(UNIT + k)) by (nonlinear_arith)
        requires
            n == a.units() * p(UNIT as int),
            a.units() <= p(UNIT + 2 * k),
            p(UNIT + 2 * k) * p(UNIT as int) == p(UNIT + k) * p(UNIT + k),
            p(UNIT as int) > 0,
    ;
    lemma_root_at_most(n, UNIT + k);
    lemma_put_together(false, nearest_root(n), k);
    assert(0 <= (1023 + k) * ORDER) by (nonlinear_arith)
        requires
            k >= -1022,
    ;
    lemma_encoded(false, nearest_root(n));
}

/// The root of a number from `2^(2 k)` on.
pub proof fn lemma_root_beyond(a: Binary64, k: int)
    requires
        -511 <= k <= 511,
        beyond(a, 2 * k),
    ensures
        beyond(square_root(a), k),
{
    lemma_power_units(a, 2 * k);
    p_pos(UNIT as int);
    p_pos(UNIT + 2 * k);
    p_add(UNIT + k, UNIT + k);
    p_add(UNIT + 2 * k, UNIT as int);
    let n = a.units() * p(UNIT as int) as nat;
    assert(n >= p(UNIT + k) * p(UNIT + k)) by (nonlinear_arith)
        requires
            n == a.units() * p(UNIT as int),
            a.units() >= p(UNIT + 2 * k),
            p(UNIT + 2 * k) * p(UNIT as int) == p(UNIT + k) * p(UNIT + k),
            p(UNIT as int) > 0,
    ;
    lemma_root_at_least(n, UNIT + k);
    assert(a.code() > 0) by {
        assert((1023 + 2 * k) * ORDER > 0) by (nonlinear_arith)
            requires
                k >= -511,
        ;
    }
    // Any finite number is at most 2^1024, so its root is at most 2^512.
    lemma_finite_units(a);
    p_add(UNIT + 512, UNIT + 512);
    p_add(UNIT + 1024, UNIT as int);
    assert(n <= p(UNIT + 512) * p(UNIT + 512)) by (nonlinear_arith)
        requires
            n == a.units() * p(UNIT as int),
            a.units() <= p(UNIT + 1024),
            p(UNIT + 1024) * p(UNIT as int) == p(UNIT + 512) * p(UNIT + 512),
            p(UNIT as int) > 0,
    ;
    lemma_root_at_most(n, UNIT + 512);
    lemma_put_together(false, nearest_root(n), 512);
    lemma_put_together(false, nearest_root(n), k);
}

/// Every finite number is less than `2^1024`.
pub proof fn lemma_finite_units(a: Binary64)
    requires
        a.is_finite(),
    ensures
        a.units() <= p(UNIT + 1024),
{
    lemma_decoded(a);
    p_values();
    let s = a.scale();
    p_pos(s);
    p_mono(s + 53, UNIT + 1024);
    p_add(s, 53);
    assert(a.units() <= p(s + 53)) by (nonlinear_arith)
        requires
            a.units() == a.digits() * p(s),
            a.digits() < 2 * ORDER,
            p(s + 53) == p(s) * p(53),
            p(53) == 2 * ORDER,
            p(s) > 0,
    ;
}

/// A bound holds for any greater exponent.
pub proof fn lemma_within_more(x: Binary64, i: int, j: int)
    requires
        within(x, i),
        i <= j,
    ensures
        within(x, j),
{
    assert((1023 + i) * ORDER <= (1023 + j) * ORDER) by (nonlinear_arith)
        requires
            i <= j,
    ;
}

/// A lower bound holds for any smaller exponent.
pub proof fn lemma_beyond_less(x: Binary64, i: int, j: int)
    requires
        beyond(x, i),
        j <= i,
    ensures
        beyond(x, j),
{
    assert((1023 + j) * ORDER <= (1023 + i) * ORDER) by (nonlinear_arith)
        requires
            j <= i,
    ;
}

/// Lower bounds multiply.
pub proof fn lemma_product_beyond(a: Binary64, b: Binary64, i: int, j: int)
    requires
        is_exponent(i),
        is_exponent(j),
        is_exponent(i + j),
        beyond(a, i),
        beyond(b, j),
    ensures
        product(a, b).code() >= (1023 + i + j) * ORDER,
        !product(a, b).negative(),
        !product(a, b).is_undefined(),
{
    lemma_power_units(a, i);
    lemma_power_units(b, j);
    let n = a.units() * b.units();
    p_add(UNIT + i, UNIT + j);
    p_add(UNIT + i + j, UNIT as int);
    p_pos(UNIT as int);
    p_pos(UNIT + i);
    p_pos(UNIT + j);
    assert(n >= p(UNIT + i + j) * p(UNIT as int)) by (nonlinear_arith)
        requires
            n == a.units() * b.units(),
            a.units() >= p(UNIT + i),
            b.units() >= p(UNIT + j),
            p(UNIT + i) * p(UNIT + j) == p(UNIT + i + j) * p(UNIT as int),
            p(UNIT + i) > 0,
            p(UNIT + j) > 0,
    ;
    lemma_nearest_at_least(n, p(UNIT as int) as nat, UNIT + i + j);
    lemma_encoded(false, nearest(n, p(UNIT as int) as nat));
    assert((1023 + i + j) * ORDER <= 2046 * ORDER) by (nonlinear_arith)
        requires
            i + j <= 1023,
    ;
}

/// Roundings keep the order.
pub proof fn lemma_nearest_rises(n: nat, m: nat, den: nat)
    requires
        den > 0,
        n <= m,
    ensures
        nearest(n, den) <= nearest(m, den),
{
    lemma_nearest_parts(n, den);
    lemma_nearest_parts(m, den);
    lemma_spread_range(n, den);
    lemma_spread_range(m, den);
    p_values();
    let (s, t) = (spread(n, den) as int, spread(m, den) as int);
    let (u, w) = (den * p(s), den * p(t));
    let (d, e) = (n as int / u, m as int / w);
    if s > t {
        p_mono(t + 53, s + 52);
        assert(den * p(t + 53) <= den * p(s + 52)) by (nonlinear_arith)
            requires
                p(t + 53) <= p(s + 52),
        ;
    } else if s < t {
        assert((s + 2) * ORDER <= (t + 1) * ORDER) by (nonlinear_arith)
            requires
                s + 1 <= t,
        ;
        assert((s + 2) * ORDER == s * ORDER + 2 * ORDER) by (nonlinear_arith);
        assert((t + 1) * ORDER == t * ORDER + ORDER) by (nonlinear_arith);
    } else {
        let (q, r) = (n as int % u, m as int % w);
        assert(d <= e) by (nonlinear_arith)
            requires
                n == d * u + q,
                m == e * u + r,
                n <= m,
                q >= 0,
                r < u,
                u > 0,
        ;
        if d == e {
            assert(q <= r);
        }
    }
}

/// A quotient of numbers that are at least and at most powers of two.
pub proof fn lemma_quotient_beyond(a: Binary64, b: Binary64, i: int, j: int)
    requires
        is_exponent(i),
        is_exponent(j),
        is_exponent(i - j),
        beyond(a, i),
        within(b, j),
        b.code() > 0,
        !b.negative(),
    ensures
        quotient(a, b).code() >= (1023 + i - j) * ORDER,
        !quotient(a, b).negative(),
        !quotient(a, b).is_undefined(),
{
    lemma_power_units(a, i);
    lemma_power_units(b, j);
    let zero = Binary64 { bits: 0 };
    lemma_decoded(zero);
    assert(zero.units() == 0) by (nonlinear_arith)
        requires
            zero.units() == zero.digits() * p(zero.scale()),
            zero.digits() == 0,
    ;
    crate::binary64::compare::lemma_units_grow(zero, b);
    p_pos(UNIT as int);
    p_pos(UNIT + i - j);
    p_add(UNIT + i - j, UNIT + j);
    p_add(UNIT + i, UNIT as int);
    let n = a.units() * p(UNIT as int) as nat;
    let den = b.units();
    let (x, y) = (p(UNIT + i - j), p(UNIT + j));
    assert(x * den <= x * y) by (nonlinear_arith)
        requires
            den <= y,
            x > 0,
    ;
    assert(p(UNIT + i) * p(UNIT as int) <= n) by (nonlinear_arith)
        requires
            n == a.units() * p(UNIT as int),
            a.units() >= p(UNIT + i),
            p(UNIT as int) > 0,
    ;
    lemma_nearest_at_least(n, den, UNIT + i - j);
    lemma_encoded(false, nearest(n, den));
    assert((1023 + i - j) * ORDER <= 2046 * ORDER) by (nonlinear_arith)
        requires
            i - j <= 1023,
    ;
}

} // verus!
