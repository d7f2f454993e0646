//! Rounded results are the nearest numbers there are.
use vstd::prelude::*;

use crate::backend::Format;
use crate::binary64::narrow::{BRAIN_BITS, HALF_BITS, SINGLE_BITS};
use crate::binary64::rounding::{INFINITE_CODE, ORDER};
use crate::binary64::{Binary64, UNIT};

verus! {

use crate::binary64::arithmetic::{
    lemma_nearest_zero, lemma_rounds_to_itself, product, quotient, square_root, sum,
};
use crate::binary64::bounds::{lemma_nearest_parts, lemma_nearest_rises, lemma_root_parts};
use crate::binary64::compare::lemma_units_grow;
use crate::binary64::errors::lemma_placed;
use crate::binary64::narrow::{
    kept_place, largest_bits, lemma_length_unique, limited, narrowing, rounded, shortened, single,
};
use crate::binary64::rounding::{
    length, lemma_length, nearest, nearest_root, p, p_add, p_mono, p_pos, p_values, root_spread,
    root_steps, spread,
};
use crate::binary64::shifting::lemma_kept;
use crate::binary64::{encoded, lemma_decoded, lemma_encoded};

/// The distance of two whole numbers.
pub open spec fn gap(a: int, b: int) -> int {
    if a < b {
        b - a
    } else {
        a - b
    }
}

/// A multiple that is at most half a step off is nearest among the multiples.
proof fn lemma_closest(n: int, u: int, q: int, j: int)
    requires
        u > 0,
        2 * gap(q * u, n) <= u,
    ensures
        gap(q * u, n) <= gap(j * u, n),
{
    if j > q {
        assert(j * u >= q * u + u) by (nonlinear_arith)
            requires
                j >= q + 1,
                u > 0,
        ;
    } else if j < q {
        assert(j * u <= q * u - u) by (nonlinear_arith)
            requires
                j <= q - 1,
                u > 0,
        ;
    }
}

/// A multiple that is at most half a step off is nearest among all numbers
/// `m 2^k` with `m` at most `2^digits`, if the number has that many digits above
/// the step.
proof fn lemma_closest_number(n: nat, den: nat, e: int, digits: int, q: int, m: nat, k: int)
    requires
        den > 0,
        digits >= 1,
        e >= 0,
        k >= 0,
        m <= p(digits),
        2 * gap(q * (den * p(e)), n as int) <= den * p(e),
        k >= e || p(digits - 1) * (den * p(e)) <= n,
    ensures
        gap(q * (den * p(e)), n as int) <= gap((m * p(k)) * den, n as int),
{
    let u = den * p(e);
    p_pos(e);
    p_pos(k);
    assert(u > 0) by (nonlinear_arith)
        requires
            u == den * p(e),
            den > 0,
            p(e) > 0,
    ;
    if k >= e {
        p_add(k - e, e);
        let j = m * p(k - e);
        assert((m * p(k)) * den == j * u) by (nonlinear_arith)
            requires
                p(k) == p(k - e) * p(e),
                j == m * p(k - e),
                u == den * p(e),
        ;
        lemma_closest(n as int, u, q, j);
    } else {
        let j = p(digits - 1);
        lemma_closest(n as int, u, q, j);
        // m 2^k <= 2^digits 2^(e - 1) = 2^(digits - 1) 2^e
        p_mono(k, e - 1);
        p_add(digits - 1, 1);
        p_add(1, e - 1);
        p_values();
        p_pos(digits);
        assert(m * p(k) <= p(digits) * p(e - 1)) by (nonlinear_arith)
            requires
                0 <= m <= p(digits),
                0 < p(k) <= p(e - 1),
        ;
        assert(p(digits) * p(e - 1) == j * p(e)) by (nonlinear_arith)
            requires
                p(digits) == j * 2,
                p(e) == 2 * p(e - 1),
        ;
        let z = m * p(k);
        assert(z * den <= (j * p(e)) * den) by (nonlinear_arith)
            requires
                z <= j * p(e),
                den > 0,
        ;
        assert((j * p(e)) * den == j * u) by (nonlinear_arith)
            requires
                u == den * p(e),
        ;
    }
}

/// A number shortened to some digits is the nearest with so many, none below the
/// last place of the format; halfway between two it is the even one.
proof fn lemma_shortened(n: nat, digits: int, low: int, m: nat, k: int)
    requires
        1 <= digits <= 24,
        low >= 0,
        m <= p(digits),
        k >= low,
    ensures
        gap(shortened(n, digits, low) as int, n as int) <= gap(m * p(k), n as int),
        ({
            let u = p(kept_place(n, digits, low));
            &&& u > 0
            &&& shortened(n, digits, low) == (shortened(n, digits, low) as int / u) * u
            &&& 0 <= shortened(n, digits, low) as int / u <= p(digits)
            &&& 2 * gap(shortened(n, digits, low) as int, n as int) == u ==> (shortened(
                n,
                digits,
                low,
            ) as int / u) % 2 == 0
        }),
{
    let e = kept_place(n, digits, low);
    let u = p(e);
    p_pos(e);
    p_values();
    vstd::arithmetic::div_mod::lemma_fundamental_div_mod(n as int, u);
    let (d, r) = (n as int / u, n as int % u);
    assert(d * u == u * d) by (nonlinear_arith);
    let q = rounded(d, r, u);
    assert(d >= 0) by (nonlinear_arith)
        requires
            n == u * d + r,
            0 <= r < u,
            n >= 0,
            u > 0,
    ;
    assert((d + 1) * u == d * u + u) by (nonlinear_arith);
    let s = shortened(n, digits, low);
    assert(q * u >= 0) by (nonlinear_arith)
        requires
            q >= 0,
            u > 0,
    ;
    assert(s == q * u);
    vstd::arithmetic::div_mod::lemma_fundamental_div_mod_converse(s as int, u, q, 0);
    assert(2 * gap(q * u, n as int) <= u);
    lemma_length(n);
    let l = length(n) as int;
    // At most 2^digits steps.
    assert(d < p(digits)) by {
        p_add(digits, e);
        p_mono(l, digits + e);
        assert(d < p(digits)) by (nonlinear_arith)
            requires
                u * d <= n,
                n < p(digits + e),
                p(digits + e) == p(digits) * u,
                u > 0,
        ;
    }
    if k < e {
        p_add(digits - 1, e);
        assert(l - 1 == digits - 1 + e);
    }
    assert(1 * p(e) == u);
    lemma_closest_number(n, 1, e, digits, q, m, k);
    assert((m * p(k)) * 1 == m * p(k));
    if 2 * gap(q * u, n as int) == u {
        assert(2 * r == u);
    }
}

/// The units of a shortened number that a format can hold.
proof fn lemma_shortened_units(negative: bool, n: nat, digits: int, low: int)
    requires
        1 <= digits <= 24,
        low >= 0,
        encoded(negative, nearest(shortened(n, digits, low), 1)).is_finite(),
    ensures
        encoded(negative, nearest(shortened(n, digits, low), 1)).units() == shortened(
            n,
            digits,
            low,
        ),
{
    p_values();
    p_pos(digits);
    lemma_shortened(n, digits, low, 0, low);
    let e = kept_place(n, digits, low);
    let s = shortened(n, digits, low);
    let q = s as int / p(e);
    p_mono(digits, 52);
    if q > 0 {
        lemma_kept(negative, q as nat, e);
        assert((q as nat * p(e)) as nat == s);
    } else {
        assert(s == 0) by (nonlinear_arith)
            requires
                s == q * p(e),
                q == 0,
        ;
        lemma_nearest_zero(1);
        let x = encoded(negative, 0);
        lemma_encoded(negative, 0);
        lemma_decoded(x);
        assert(x.units() == 0) by (nonlinear_arith)
            requires
                x.units() == x.digits() * p(x.scale()),
                x.digits() == 0,
        ;
    }
}

/// What limiting a finite number does.
proof fn lemma_limited(x: Binary64, digits: int, low: int, largest: u64, m: nat, k: int)
    requires
        x.is_finite(),
        1 <= digits <= 24,
        low >= 0,
        m <= p(digits),
        k >= low,
        largest < INFINITE_CODE,
    ensures
        ({
            let r = limited(x, digits, low, largest);
            &&& r.negative() == x.negative()
            &&& r.is_finite() ==> gap(r.units() as int, x.units() as int) <= gap(
                m * p(k),
                x.units() as int,
            )
            &&& r.is_finite() ==> r.units() == shortened(x.units(), digits, low)
            &&& r.is_finite() ==> r.code() <= largest
            &&& r.is_finite() || r.is_infinite()
            &&& (Binary64 { bits: largest }).units() == m * p(k) && x.code() <= largest
                ==> r.is_finite()
        }),
{
    let n = x.units();
    let s = shortened(n, digits, low);
    let code = nearest(s, 1);
    let c = if code > largest {
        INFINITE_CODE as nat
    } else {
        code
    };
    lemma_encoded(x.negative(), c);
    lemma_shortened(n, digits, low, m, k);
    if code <= largest {
        lemma_shortened_units(x.negative(), n, digits, low);
    }
    let top = Binary64 { bits: largest };
    if top.units() == m * p(k) && x.code() <= largest {
        assert(top.code() == largest);
        if x.code() < top.code() {
            lemma_units_grow(x, top);
        }
        lemma_decoded(x);
        lemma_decoded(top);
        assert(x.units() <= top.units());
        assert(s <= top.units());
        lemma_nearest_rises(s, top.units(), 1);
        lemma_rounds_to_itself(top);
    }
}

/// The digits, the last place and the bits of the largest number of a format.
pub open spec fn shape_of(f: Format) -> (int, int) {
    match f {
        Format::F64 => (53, 0),
        Format::F32 | Format::Flex32 => (24, UNIT - 149),
        Format::F16 => (11, UNIT - 24),
        Format::BF16 => (8, UNIT - 133),
    }
}

/// A number in single precision, or in a format of sixteen bits that it reaches
/// through single precision, is the nearest that the format has: no `m 2^k` with
/// `m` of as many digits and no place below the format's last is nearer, and
/// halfway between two of them it is an even multiple of the last place. It keeps
/// the sign, and is infinite only beyond the format's largest number. Double
/// precision keeps the number.
pub proof fn law_format_is_nearest(x: Binary64, f: Format, m: nat, k: int, e: int)
    requires
        x.is_finite(),
        m <= p(shape_of(f).0),
        k >= shape_of(f).1,
        e >= shape_of(f).1,
    ensures
        f == Format::F64 ==> narrowing(x, f) == x,
        ({
            let r = narrowing(x, f);
            let y = if f == Format::F16 || f == Format::BF16 {
                narrowing(x, Format::F32)
            } else {
                x
            };
            let n = y.units();
            let d = shape_of(f).0;
            // The step of the format at the number.
            let is_step = n < p(e + d) && (e == shape_of(f).1 || p(e + d - 1) <= n);
            &&& r.negative() == x.negative()
            &&& r.is_finite() ==> y.is_finite()
            &&& r.is_finite() ==> gap(r.units() as int, n as int) <= gap(m * p(k), n as int)
            &&& f != Format::F64 && r.is_finite() && is_step ==> r.units() as int % p(e) == 0
            &&& f != Format::F64 && r.is_finite() && is_step && 2 * gap(
                r.units() as int,
                n as int,
            ) == p(e) ==> (r.units() as int / p(e)) % 2 == 0
            &&& y.code() <= largest_of(f) ==> r.is_finite()
            &&& r.is_finite() ==> r.code() <= largest_of(f)
        }),
{
    p_values();
    lemma_decoded(x);
    if f != Format::F64 {
        let (d, low) = shape_of(f);
        let y = if f == Format::F16 || f == Format::BF16 {
            single(x)
        } else {
            x
        };
        lemma_limited(x, 24, UNIT - 149, SINGLE_BITS, 0, UNIT - 149);
        if y.is_finite() {
            let largest = if f == Format::F16 {
                HALF_BITS
            } else if f == Format::BF16 {
                BRAIN_BITS
            } else {
                SINGLE_BITS
            };
            lemma_limited(y, d, low, largest, m, k);
            lemma_largest(f);
            let (lm, lk) = largest_parts(f);
            lemma_limited(y, d, low, largest, lm, lk);
            lemma_shortened(y.units(), d, low, m, k);
            let n = y.units();
            let r = narrowing(x, f);
            if n < p(e + d) && (e == low || p(e + d - 1) <= n) && r.is_finite() {
                assert(kept_place(n, d, low) == e) by {
                    lemma_length(n);
                    if p(e + d - 1) <= n {
                        lemma_length_unique(n, e + d);
                    } else if length(n) > e + d {
                        p_mono(e + d, length(n) - 1);
                    }
                }
                let u = p(e);
                p_pos(e);
                let q = r.units() as int / u;
                vstd::arithmetic::div_mod::lemma_fundamental_div_mod_converse(
                    r.units() as int,
                    u,
                    q,
                    0,
                );
            }
        }
    }
}

/// The bits of the largest number of a format.
pub open spec fn largest_of(f: Format) -> u64 {
    match f {
        Format::F64 => 0x7fef_ffff_ffff_ffff,
        Format::F32 | Format::Flex32 => 0x47ef_ffff_e000_0000,
        Format::F16 => 0x40ef_fc00_0000_0000,
        Format::BF16 => 0x47ef_e000_0000_0000,
    }
}

/// The largest number of a format as `m 2^k` units.
spec fn largest_parts(f: Format) -> (nat, int) {
    match f {
        Format::F64 => (0, 0),
        Format::F32 | Format::Flex32 => (0xff_ffff, UNIT + 104),
        Format::F16 => (0x7ff, UNIT + 5),
        Format::BF16 => (0xff, UNIT + 120),
    }
}

/// It is.
proof fn lemma_largest(f: Format)
    requires
        f != Format::F64,
    ensures
        (Binary64 { bits: largest_of(f) }).units() == largest_parts(f).0 * p(largest_parts(f).1),
        largest_parts(f).0 <= p(shape_of(f).0),
        largest_parts(f).1 >= shape_of(f).1,
{
    vstd::arithmetic::power2::lemma2_to64();
    vstd::arithmetic::power2::lemma2_to64_rest();
    let x = Binary64 { bits: largest_of(f) };
    lemma_decoded(x);
    let (m, k) = largest_parts(f);
    let t = x.scale();
    p_add(k - t, t);
    assert(x.digits() == m * p(k - t)) by {
        assert(f == Format::F16 ==> x.digits() == 0x1f_fc00_0000_0000 && k - t == 42);
        assert(f == Format::BF16 ==> x.digits() == 0x1f_e000_0000_0000 && k - t == 45);
        assert(f == Format::F32 || f == Format::Flex32 ==> x.digits() == 0x1f_ffff_e000_0000 && k
            - t == 29);
    }
    assert(x.units() == m * p(k)) by (nonlinear_arith)
        requires
            x.units() == x.digits() * p(t),
            x.digits() == m * p(k - t),
            p(k) == p(k - t) * p(t),
    ;
}

/// The largest numbers that are reckoned with: those of the formats, and for the
/// flexible format that of half precision.
pub proof fn law_largest_numbers()
    ensures
        largest_bits(Format::F64) == 0x7fef_ffff_ffff_ffff,
        largest_bits(Format::F32) == 0x47ef_ffff_e000_0000,
        largest_bits(Format::Flex32) == 0x40ef_fc00_0000_0000,
        largest_bits(Format::F16) == 0x40ef_fc00_0000_0000,
        largest_bits(Format::BF16) == 0x47ef_e000_0000_0000,
{
}

/// The number that a fraction rounds to is nearest to it among all numbers.
proof fn lemma_nearest_closest(negative: bool, n: nat, den: nat, y: Binary64)
    requires
        den > 0,
        encoded(negative, nearest(n, den)).is_finite(),
        y.is_finite(),
    ensures
        gap((encoded(negative, nearest(n, den)).units() * den) as int, n as int) <= gap(
            (y.units() * den) as int,
            n as int,
        ),
{
    lemma_nearest_parts(n, den);
    p_values();
    let s = spread(n, den) as int;
    let u = den * p(s);
    let (d, r) = (n as int / u, n as int % u);
    let c = nearest(n, den);
    let q = c - s * ORDER;
    lemma_encoded(negative, c);
    lemma_placed(negative, s, q);
    let x = encoded(negative, c);
    assert(x.units() * den == q * u) by (nonlinear_arith)
        requires
            x.units() == q * p(s),
            u == den * p(s),
    ;
    assert((d + 1) * u == d * u + u) by (nonlinear_arith);
    assert(2 * gap(q * u, n as int) <= u);
    lemma_decoded(y);
    let (m, k) = (y.digits() as nat, y.scale());
    if k < s {
        assert(p(52) * u <= d * u) by (nonlinear_arith)
            requires
                p(52) <= d,
                u > 0,
        ;
    }
    lemma_closest_number(n, den, s, 53, q, m, k);
}

/// The sign of a number and the side that it is on.
proof fn lemma_other_side(c: int, n: int, y: int)
    requires
        gap(c, n) <= gap(y, n),
        gap(c, n) <= gap(0, n),
        n >= 0,
    ensures
        gap(-c, -n) <= gap(-y, -n),
        y >= 0 ==> gap(c, n) <= gap(-y, n),
        y >= 0 ==> gap(-c, -n) <= gap(y, -n),
{
}

/// The sum of two numbers is nearest to the exact sum among all numbers.
pub proof fn law_double_sum_is_nearest(a: Binary64, b: Binary64, y: Binary64)
    requires
        a.is_finite(),
        b.is_finite(),
        y.is_finite(),
        sum(a, b).is_finite(),
    ensures
        gap(sum(a, b).value(), a.value() + b.value()) <= gap(y.value(), a.value() + b.value()),
{
    let v = a.value() + b.value();
    let zero = Binary64 { bits: 0 };
    crate::laws::finite::lemma_zero_value(zero);
    if v == 0 {
        lemma_encoded(a.negative() && b.negative(), 0);
        crate::laws::finite::lemma_zero_value(sum(a, b));
    } else {
        let n = gap(v, 0) as nat;
        lemma_nearest_closest(v < 0, n, 1, y);
        lemma_nearest_closest(v < 0, n, 1, zero);
        lemma_encoded(v < 0, nearest(n, 1));
        let c = sum(a, b).units() as int;
        lemma_other_side(c, n as int, y.units() as int);
        assert(c * 1 == c && y.units() * 1 == y.units() && 0 * 1 == 0);
    }
}

/// The product of two numbers is nearest to the exact product among all numbers;
/// all are measured in units of the smallest number.
pub proof fn law_double_product_is_nearest(a: Binary64, b: Binary64, y: Binary64)
    requires
        a.is_finite(),
        b.is_finite(),
        y.is_finite(),
        product(a, b).is_finite(),
    ensures
        gap(product(a, b).value() * p(UNIT as int), a.value() * b.value()) <= gap(
            y.value() * p(UNIT as int),
            a.value() * b.value(),
        ),
{
    let u = p(UNIT as int);
    p_pos(UNIT as int);
    let n = a.units() * b.units();
    let negative = a.negative() != b.negative();
    let zero = Binary64 { bits: 0 };
    crate::laws::finite::lemma_zero_value(zero);
    lemma_nearest_closest(negative, n, u as nat, y);
    lemma_nearest_closest(negative, n, u as nat, zero);
    lemma_encoded(negative, nearest(n, u as nat));
    let c = product(a, b).units() as int;
    let (i, j) = (a.units() as int, b.units() as int);
    assert((-i) * j == -(i * j) && i * (-j) == -(i * j) && (-i) * (-j) == i * j)
        by (nonlinear_arith);
    let m = y.units() as int;
    assert((-c) * u == -(c * u) && (-m) * u == -(m * u) && 0 * u == 0) by (nonlinear_arith);
    assert(m * u >= 0) by (nonlinear_arith)
        requires
            m >= 0,
            u > 0,
    ;
    lemma_other_side(c * u, n as int, m * u);
}

/// The quotient by a positive number is nearest to the exact quotient among all
/// numbers: multiplied by the divisor, no other comes nearer to the dividend.
pub proof fn law_double_quotient_is_nearest(a: Binary64, b: Binary64, y: Binary64)
    requires
        a.is_finite(),
        b.is_finite(),
        b.code() > 0,
        !b.negative(),
        y.is_finite(),
        quotient(a, b).is_finite(),
    ensures
        gap(quotient(a, b).value() * b.value(), a.value() * p(UNIT as int)) <= gap(
            y.value() * b.value(),
            a.value() * p(UNIT as int),
        ),
{
    let u = p(UNIT as int);
    p_pos(UNIT as int);
    crate::laws::finite::lemma_some_units(b);
    let n = a.units() * u as nat;
    let d = b.units();
    let zero = Binary64 { bits: 0 };
    crate::laws::finite::lemma_zero_value(zero);
    lemma_nearest_closest(a.negative(), n, d, y);
    lemma_nearest_closest(a.negative(), n, d, zero);
    lemma_encoded(a.negative(), nearest(n, d));
    let c = quotient(a, b).units() as int;
    let (i, m) = (a.units() as int, y.units() as int);
    assert((-i) * u == -(i * u)) by (nonlinear_arith);
    assert((-c) * d == -(c * d) && (-m) * d == -(m * d) && 0 * d == 0) by (nonlinear_arith);
    assert(m * d >= 0) by (nonlinear_arith)
        requires
            m >= 0,
            d >= 0,
    ;
    lemma_other_side(c * d, n as int, m * d);
}

/// No number lies between two neighbours.
proof fn lemma_neighbours(s: int, d: int, y: Binary64)
    requires
        s >= 0,
        0 <= d,
        s > 0 ==> d >= p(52),
        y.is_finite(),
    ensures
        y.units() > d * p(s) ==> y.units() >= (d + 1) * p(s),
        y.units() < (d + 1) * p(s) ==> y.units() <= d * p(s),
{
    lemma_decoded(y);
    p_pos(s);
    p_values();
    let u = p(s);
    let (m, k) = (y.digits(), y.scale());
    if k >= s {
        p_add(k - s, s);
        let j = m * p(k - s);
        assert(y.units() == j * u) by (nonlinear_arith)
            requires
                y.units() == m * p(k),
                p(k) == p(k - s) * u,
                j == m * p(k - s),
        ;
        if j > d {
            assert(j * u >= (d + 1) * u) by (nonlinear_arith)
                requires
                    j >= d + 1,
                    u > 0,
            ;
        } else {
            assert(j * u <= d * u) by (nonlinear_arith)
                requires
                    j <= d,
                    u > 0,
            ;
        }
    } else {
        // Less than 2^53 2^(s - 1) = 2^52 2^s.
        p_mono(k, s - 1);
        p_add(1, s - 1);
        p_pos(k);
        assert(m * p(k) <= (2 * ORDER) * p(s - 1)) by (nonlinear_arith)
            requires
                0 <= m < 2 * ORDER,
                0 < p(k) <= p(s - 1),
        ;
        assert((2 * ORDER) * p(s - 1) == ORDER * u) by (nonlinear_arith)
            requires
                u == 2 * p(s - 1),
        ;
        assert(ORDER * u <= d * u) by (nonlinear_arith)
            requires
                ORDER <= d,
                u > 0,
        ;
    }
}

/// The square root of a positive number is nearest to the exact root among all
/// numbers: the square of the sum with any smaller number is at most, and with
/// any greater one at least, four times the number, so the exact root lies on
/// the near side of their middle.
pub proof fn law_double_root_is_nearest(v: Binary64, y: Binary64)
    requires
        v.is_finite(),
        v.code() > 0,
        !v.negative(),
        y.is_finite(),
        square_root(v).is_finite(),
    ensures
        ({
            let (c, m) = (square_root(v).units() as int, y.units() as int);
            let n = v.units() * p(UNIT as int);
            &&& !square_root(v).negative()
            &&& m < c ==> (c + m) * (c + m) <= 4 * n
            &&& m > c ==> (c + m) * (c + m) >= 4 * n
        }),
{
    p_pos(UNIT as int);
    p_values();
    let n = v.units() * p(UNIT as int) as nat;
    lemma_root_parts(n);
    let s = root_spread(n, 1) as int;
    let u = p(s);
    let d = root_steps(n, u) as int;
    let code = nearest_root(n);
    let q = code - s * ORDER;
    lemma_encoded(false, code);
    lemma_placed(false, s, q);
    let c = square_root(v).units() as int;
    let m = y.units() as int;
    assert(c == q * u);
    let middle = (2 * d + 1) * u;
    let (x, z) = (d * u, (d + 1) * u);
    assert(z == x + u && middle == 2 * x + u) by (nonlinear_arith)
        requires
            x == d * u,
            z == (d + 1) * u,
            middle == (2 * d + 1) * u,
    ;
    assert(x >= 0) by (nonlinear_arith)
        requires
            x == d * u,
            d >= 0,
            u > 0,
    ;
    lemma_neighbours(s, d, y);
    assert((2 * x) * (2 * x) == 4 * (x * x) && (2 * z) * (2 * z) == 4 * (z * z)) by (nonlinear_arith);
    if q == d {
        assert(4 * n <= middle * middle);
        if m < c {
            lemma_square_order(c + m, 2 * x);
        }
        if m > c {
            lemma_square_order(middle, c + m);
        }
    } else {
        assert(4 * n >= middle * middle);
        if m < c {
            lemma_square_order(c + m, middle);
        }
        if m > c {
            lemma_square_order(2 * z, c + m);
        }
    }
}

/// Squares of numbers that are not negative rise.
proof fn lemma_square_order(a: int, b: int)
    requires
        0 <= a <= b,
    ensures
        a * a <= b * b,
{
    assert(a * a <= b * b) by (nonlinear_arith)
        requires
            0 <= a <= b,
    ;
}

} // verus!
