//! Sums, products, quotients and square roots, correctly rounded.
use vstd::arithmetic::div_mod::lemma_fundamental_div_mod;
use vstd::prelude::*;

use crate::binary64::rounding::{power, ORDER, SHIFT};
use crate::binary64::{encode, finish, Binary64, SIGN, UNIT};

verus! {

use crate::binary64::rounding::{
    finished, last_place, length, lemma_finished, lemma_length, lemma_root_finished, nearest,
    nearest_root, p, p_add, p_mono, p_pos, p_values,
};
use crate::binary64::{encoded, lemma_decoded, undefined};

/// The sum: the nearest number to the exact sum. Opposite numbers add up to a
/// positive zero.
pub open spec fn sum(a: Binary64, b: Binary64) -> Binary64 {
    if a.is_undefined() || b.is_undefined() {
        undefined()
    } else if a.is_infinite() {
        if b.is_infinite() && a.negative() != b.negative() {
            undefined()
        } else {
            a
        }
    } else if b.is_infinite() {
        b
    } else {
        let v = a.value() + b.value();
        if v == 0 {
            encoded(a.negative() && b.negative(), 0)
        } else if v < 0 {
            encoded(true, nearest((-v) as nat, 1))
        } else {
            encoded(false, nearest(v as nat, 1))
        }
    }
}

/// The number with the other sign.
pub open spec fn opposite(a: Binary64) -> Binary64 {
    if a.negative() {
        Binary64 { bits: (a.bits - SIGN) as u64 }
    } else {
        Binary64 { bits: (a.bits + SIGN) as u64 }
    }
}

/// The product: the nearest number to the exact product.
pub open spec fn product(a: Binary64, b: Binary64) -> Binary64 {
    let negative = a.negative() != b.negative();
    if a.is_undefined() || b.is_undefined() {
        undefined()
    } else if a.is_infinite() || b.is_infinite() {
        if a.code() == 0 || b.code() == 0 {
            undefined()
        } else {
            encoded(negative, crate::binary64::rounding::INFINITE_CODE as nat)
        }
    } else {
        encoded(negative, nearest(a.units() * b.units(), p(UNIT as int) as nat))
    }
}

/// The quotient: the nearest number to the exact quotient, and infinite over
/// zero.
pub open spec fn quotient(a: Binary64, b: Binary64) -> Binary64 {
    let negative = a.negative() != b.negative();
    if a.is_undefined() || b.is_undefined() {
        undefined()
    } else if a.is_infinite() {
        if b.is_infinite() {
            undefined()
        } else {
            encoded(negative, crate::binary64::rounding::INFINITE_CODE as nat)
        }
    } else if b.is_infinite() {
        encoded(negative, 0)
    } else if b.code() == 0 {
        if a.code() == 0 {
            undefined()
        } else {
            encoded(negative, crate::binary64::rounding::INFINITE_CODE as nat)
        }
    } else {
        encoded(negative, nearest(a.units() * p(UNIT as int) as nat, b.units()))
    }
}

/// The square root: the nearest number to the exact root, undefined below zero.
pub open spec fn square_root(a: Binary64) -> Binary64 {
    if a.is_undefined() {
        undefined()
    } else if a.code() == 0 {
        a
    } else if a.negative() {
        undefined()
    } else if a.is_infinite() {
        a
    } else {
        encoded(false, nearest_root(a.units() * p(UNIT as int) as nat))
    }
}

/// The number that stands for an integer.
pub open spec fn integer(value: int) -> Binary64 {
    if value < 0 {
        encoded(true, nearest(((-value) * p(UNIT as int)) as nat, 1))
    } else {
        encoded(false, nearest((value * p(UNIT as int)) as nat, 1))
    }
}

/// The digits and the scale of a finite number.
pub(crate) fn parts(x: Binary64) -> (r: (u64, i32))
    requires
        x.is_finite(),
    ensures
        r.0 == x.digits(),
        r.1 == x.scale(),
        r.0 < 2 * ORDER,
        0 <= r.1 <= 2045,
        r.1 > 0 ==> r.0 >= ORDER,
        x.units() == r.0 * p(r.1 as int),
{
    proof {
        lemma_decoded(x);
    }
    let code: u64 = x.bits % SIGN;
    if code < ORDER {
        (code, 0)
    } else {
        (ORDER + code % ORDER, (code / ORDER) as i32 - 1)
    }
}

/// A whole number `q 2^t` of units needs no bracketing.
pub proof fn lemma_exact(q: nat, t: int, num: nat)
    requires
        q > 0,
        t >= 0,
        num == q * p(t),
    ensures
        nearest(num, 1) == finished(q, t, false),
{
    let k = SHIFT as int;
    p_add(t, k);
    assert(q * (1 * p(t + k)) == num * p(k)) by (nonlinear_arith)
        requires
            num == q * p(t),
            p(t + k) == p(t) * p(k),
    ;
    p_pos(t + k);
    assert((q + 1) * (1 * p(t + k)) > q * (1 * p(t + k))) by (nonlinear_arith)
        requires
            p(t + k) > 0,
    ;
    lemma_finished(q, t, false, num, 1);
}

/// A finite number rounds to itself.
pub proof fn lemma_rounds_to_itself(x: Binary64)
    requires
        x.is_finite(),
    ensures
        nearest(x.units(), 1) == x.code(),
        encoded(x.negative(), x.code() as nat) == x,
{
    lemma_decoded(x);
    p_values();
    let d = x.digits() as nat;
    let s = x.scale();
    if d == 0 {
        assert(x.units() == 0) by (nonlinear_arith)
            requires
                x.units() == d * p(s),
                d == 0,
        ;
        lemma_nearest_zero(1);
    } else {
        lemma_exact(d, s, x.units());
        lemma_length(d);
        let l = length(d) as int;
        if l > 53 {
            p_mono(53, l - 1);
        }
        if s > 0 && l < 53 {
            p_mono(l, 52);
        }
        assert(last_place(l, s) == s);
        assert(d as int / 1 == d && d as int % 1 == 0);
        assert(finished(d, s, false) == s * ORDER + d);
    }
}

/// `c 2^b` units lie between `q 2^(b + k)` and `(q + 1) 2^(b + k)`.
proof fn lemma_between(q: nat, c: nat, b: int, k: int, sticky: bool, num: nat)
    requires
        q >= p(53),
        b >= 0,
        k >= 0,
        num == c * p(b),
        q * p(k) <= c < (q + 1) * p(k),
        sticky <==> c != q * p(k),
    ensures
        nearest(num, 1) == finished(q, b + k, sticky),
{
    let z = SHIFT as int;
    let w = p(k);
    let u = p(b) * p(z);
    p_values();
    p_pos(b);
    p_pos(z);
    assert(u > 0) by (nonlinear_arith)
        requires
            u == p(b) * p(z),
            p(b) > 0,
            p(z) > 0,
    ;
    p_add(b, k);
    p_add(b + k, z);
    let x = 1 * p(b + k + z);
    assert(q * x == (q * w) * u) by (nonlinear_arith)
        requires
            x == (p(b) * w) * p(z),
            u == p(b) * p(z),
    ;
    assert((q + 1) * x == ((q + 1) * w) * u) by (nonlinear_arith)
        requires
            x == (p(b) * w) * p(z),
            u == p(b) * p(z),
    ;
    assert(num * p(z) == c * u) by (nonlinear_arith)
        requires
            num == c * p(b),
            u == p(b) * p(z),
    ;
    assert(q * x <= num * p(z) < (q + 1) * x) by (nonlinear_arith)
        requires
            q * x == (q * w) * u,
            (q + 1) * x == ((q + 1) * w) * u,
            num * p(z) == c * u,
            q * w <= c < (q + 1) * w,
            u > 0,
    ;
    assert(sticky <==> q * x != num * p(z)) by (nonlinear_arith)
        requires
            q * x == (q * w) * u,
            num * p(z) == c * u,
            sticky <==> c != q * w,
            u > 0,
    ;
    lemma_finished(q, b + k, sticky, num, 1);
}

/// The sum of two finite numbers, the first of which has the greater scale.
#[verifier::rlimit(40)]
fn add_aligned(
    h: (u64, i32),
    hn: bool,
    l: (u64, i32),
    ln: bool,
    Ghost(v): Ghost<int>,
) -> (r: Binary64)
    requires
        0 <= l.1 <= h.1 <= 2045,
        h.0 < 2 * ORDER,
        l.0 < 2 * ORDER,
        h.1 > 0 ==> h.0 >= ORDER,
        v == (if hn {
            -(h.0 * p(h.1 as int))
        } else {
            h.0 * p(h.1 as int)
        }) + (if ln {
            -(l.0 * p(l.1 as int))
        } else {
            l.0 * p(l.1 as int)
        }),
    ensures
        v == 0 ==> r == encoded(hn && ln, 0),
        v < 0 ==> r == encoded(true, nearest((-v) as nat, 1)),
        v > 0 ==> r == encoded(false, nearest(v as nat, 1)),
{
    let d: u32 = (h.1 - l.1) as u32;
    let ghost b = l.1 as int;
    let ghost pb = p(b);
    proof {
        p_values();
        p_pos(b);
        p_add(d as int, b);
        p_add(62, 64);
        p_add(53, 64);
        p_add(117, 9);
        vstd::arithmetic::power2::lemma2_to64_rest();
        vstd::arithmetic::power2::lemma2_to64();
    }
    if d <= 64 {
        let w = power(d);
        proof {
            p_mono(d as int, 64);
            assert(0 <= h.0 * w < 0x20_0000_0000_0000 * 0x1_0000_0000_0000_0000)
                by (nonlinear_arith)
                requires
                    0 <= h.0 < 0x20_0000_0000_0000,
                    0 < w <= 0x1_0000_0000_0000_0000,
            ;
        }
        let x: u128 = (h.0 as u128) * w;
        let y: u128 = l.0 as u128;
        assert(h.0 * p(h.1 as int) == x * pb) by (nonlinear_arith)
            requires
                p(h.1 as int) == w * pb,
                x == h.0 * w,
        ;
        let (negative, q): (bool, u128) = if hn == ln {
            (hn, x + y)
        } else if x >= y {
            (hn, (x - y) as u128)
        } else {
            (ln, (y - x) as u128)
        };
        assert(v == if negative {
            -(q * pb)
        } else {
            q * pb
        }) by (nonlinear_arith)
            requires
                v == (if hn {
                    -(x * pb)
                } else {
                    x * pb
                }) + (if ln {
                    -(y * pb)
                } else {
                    y * pb
                }),
                hn == ln ==> negative == hn && q == x + y,
                hn != ln && x >= y ==> negative == hn && q == x - y,
                hn != ln && x < y ==> negative == ln && q == y - x,
        ;
        if q == 0 {
            assert(v == 0) by (nonlinear_arith)
                requires
                    q == 0,
                    v == (if negative {
                        -(q * pb)
                    } else {
                        q * pb
                    }),
            ;
            return encode(hn && ln, 0);
        }
        assert(q * pb > 0) by (nonlinear_arith)
            requires
                q > 0,
                pb > 0,
        ;
        proof {
            lemma_exact(q as nat, b, (q * pb) as nat);
            p_values();
        }
        finish(negative, q, l.1, false)
    } else {
        let k: u32 = d - 64;
        let ghost w = p(k as int);
        let low: u128 = l.0 as u128;
        proof {
            p_pos(k as int);
            p_add(64, k as int);
        }
        let (part, lost): (u128, bool) = if k < 64 {
            let step = power(k);
            (low / step, low % step != 0)
        } else {
            proof {
                p_mono(64, k as int);
                vstd::arithmetic::div_mod::lemma_small_mod(low as nat, w as nat);
                vstd::arithmetic::div_mod::lemma_basic_div(low as int, w);
            }
            (0, low != 0)
        };
        let ghost rem = low as int % w;
        proof {
            lemma_fundamental_div_mod(low as int, w);
            assert(part == low as int / w);
            assert(lost == (rem != 0));
            assert(part <= low) by (nonlinear_arith)
                requires
                    low == w * part + rem,
                    rem >= 0,
                    w >= 1,
                    part >= 0,
            ;
        }
        let high: u128 = (h.0 as u128) * 0x1_0000_0000_0000_0000;
        let ghost top = h.0 * p(h.1 as int);
        let ghost bottom = l.0 * p(l.1 as int);
        assert(top == (high * w) * pb) by (nonlinear_arith)
            requires
                top == h.0 * p(h.1 as int),
                p(h.1 as int) == (0x1_0000_0000_0000_0000 * w) * pb,
                high == h.0 * 0x1_0000_0000_0000_0000,
        ;
        if hn == ln {
            let q: u128 = high + part;
            let ghost c = (high * w + low) as nat;
            proof {
                assert(q * w <= c < (q + 1) * w && (lost <==> c != q * w)) by (nonlinear_arith)
                    requires
                        q == high + part,
                        c == high * w + low,
                        low == w * part + rem,
                        0 <= rem < w,
                        lost == (rem != 0),
                ;
                assert(top + bottom == c * pb) by (nonlinear_arith)
                    requires
                        top == (high * w) * pb,
                        bottom == low * pb,
                        c == high * w + low,
                ;
                assert(c * pb > 0) by (nonlinear_arith)
                    requires
                        c >= q * w,
                        q > 0,
                        w > 0,
                        pb > 0,
                ;
                lemma_between(q as nat, c, b, k as int, lost, (c * pb) as nat);
            }
            finish(hn, q, h.1 - 64, lost)
        } else {
            let borrow: u128 = if lost {
                1
            } else {
                0
            };
            let q: u128 = high - part - borrow;
            let ghost c = high * w - low;
            proof {
                assert(q * w <= c < (q + 1) * w && (lost <==> c != q * w)) by (nonlinear_arith)
                    requires
                        q == high - part - borrow,
                        c == high * w - low,
                        low == w * part + rem,
                        0 <= rem < w,
                        lost == (rem != 0),
                        borrow == (if lost {
                            1int
                        } else {
                            0
                        }),
                ;
                assert(top - bottom == c * pb) by (nonlinear_arith)
                    requires
                        top == (high * w) * pb,
                        bottom == low * pb,
                        c == high * w - low,
                ;
                assert(c > 0 && c * pb > 0) by (nonlinear_arith)
                    requires
                        c >= q * w,
                        q > 0,
                        w > 0,
                        pb > 0,
                ;
                lemma_between(q as nat, c as nat, b, k as int, lost, (c * pb) as nat);
            }
            finish(hn, q, h.1 - 64, lost)
        }
    }
}

/// The sum.
pub fn add_numbers(a: Binary64, b: Binary64) -> (r: Binary64)
    ensures
        r == sum(a, b),
{
    proof {
        lemma_decoded(a);
        lemma_decoded(b);
    }
    let an: bool = a.bits >= SIGN;
    let bn: bool = b.bits >= SIGN;
    let ac: u64 = a.bits % SIGN;
    let bc: u64 = b.bits % SIGN;
    let infinite: u64 = crate::binary64::rounding::INFINITE_CODE;
    if ac > infinite || bc > infinite {
        return Binary64 { bits: 0x7ff8_0000_0000_0000 };
    }
    if ac == infinite {
        if bc == infinite && an != bn {
            return Binary64 { bits: 0x7ff8_0000_0000_0000 };
        }
        return a;
    }
    if bc == infinite {
        return b;
    }
    let x = parts(a);
    let y = parts(b);
    if x.1 >= y.1 {
        add_aligned(x, an, y, bn, Ghost(a.value() + b.value()))
    } else {
        add_aligned(y, bn, x, an, Ghost(a.value() + b.value()))
    }
}

/// Zero rounds to zero.
pub proof fn lemma_nearest_zero(den: nat)
    requires
        den > 0,
    ensures
        nearest(0, den) == 0,
{
    p_values();
    assert(0 < den * p(53)) by (nonlinear_arith)
        requires
            den > 0,
            p(53) > 0,
    ;
    assert(crate::binary64::rounding::spread(0, den) == 0);
    assert(den * p(0) == den) by (nonlinear_arith)
        requires
            p(0) == 1,
    ;
    vstd::arithmetic::div_mod::lemma_small_mod(0, den);
    vstd::arithmetic::div_mod::lemma_basic_div(0, den as int);
}

/// The product of two finite numbers, up to rounding.
proof fn lemma_product(q: nat, da: nat, sa: int, db: nat, sb: int)
    requires
        q == da * db,
        q > 0,
        0 <= sa <= 2045,
        0 <= sb <= 2045,
    ensures
        nearest(((da * p(sa)) * (db * p(sb))) as nat, p(UNIT as int) as nat) == finished(
            q,
            sa + sb - UNIT,
            false,
        ),
{
    let k = SHIFT as int;
    let t = sa + sb - UNIT;
    let den = p(UNIT as int);
    let num = (da * p(sa)) * (db * p(sb));
    p_add(sa, sb);
    p_add(sa + sb, k);
    p_add(UNIT as int, t + k);
    p_pos(UNIT as int);
    p_pos(sa);
    p_pos(sb);
    assert(num >= 0) by (nonlinear_arith)
        requires
            num == (da * p(sa)) * (db * p(sb)),
            da >= 0,
            db >= 0,
            p(sa) > 0,
            p(sb) > 0,
    ;
    let x = den * p(t + k);
    assert(q * x == num * p(k)) by (nonlinear_arith)
        requires
            q == da * db,
            num == (da * p(sa)) * (db * p(sb)),
            x == (p(sa) * p(sb)) * p(k),
    ;
    assert(x > 0) by (nonlinear_arith)
        requires
            x == den * p(t + k),
            den > 0,
            p(t + k) > 0,
    ;
    assert((q + 1) * x > q * x) by (nonlinear_arith)
        requires
            x > 0,
    ;
    lemma_finished(q, t, false, num as nat, den as nat);
}

/// The product.
pub fn multiply_numbers(a: Binary64, b: Binary64) -> (r: Binary64)
    ensures
        r == product(a, b),
{
    proof {
        lemma_decoded(a);
        lemma_decoded(b);
        p_pos(UNIT as int);
    }
    let negative: bool = (a.bits >= SIGN) != (b.bits >= SIGN);
    let ac: u64 = a.bits % SIGN;
    let bc: u64 = b.bits % SIGN;
    let infinite: u64 = crate::binary64::rounding::INFINITE_CODE;
    if ac > infinite || bc > infinite {
        return Binary64 { bits: 0x7ff8_0000_0000_0000 };
    }
    if ac == infinite || bc == infinite {
        if ac == 0 || bc == 0 {
            return Binary64 { bits: 0x7ff8_0000_0000_0000 };
        }
        return encode(negative, infinite as u128);
    }
    let x = parts(a);
    let y = parts(b);
    if x.0 == 0 || y.0 == 0 {
        proof {
            lemma_nearest_zero(p(UNIT as int) as nat);
            assert(a.units() * b.units() == 0) by (nonlinear_arith)
                requires
                    a.units() == x.0 * p(x.1 as int),
                    b.units() == y.0 * p(y.1 as int),
                    x.0 == 0 || y.0 == 0,
            ;
        }
        return encode(negative, 0);
    }
    assert(0 < x.0 * y.0 < 0x20_0000_0000_0000 * 0x20_0000_0000_0000) by (nonlinear_arith)
        requires
            0 < x.0 < 0x20_0000_0000_0000,
            0 < y.0 < 0x20_0000_0000_0000,
    ;
    let q: u128 = (x.0 as u128) * (y.0 as u128);
    proof {
        p_values();
        p_add(53, 53);
        p_mono(106, 126);
        lemma_product(q as nat, x.0 as nat, x.1 as int, y.0 as nat, y.1 as int);
    }
    finish(negative, q, x.1 + y.1 - UNIT, false)
}

/// A number of digits moved up to 53 binary digits, and by how many places.
fn lifted(d: u64) -> (r: (u64, i32))
    requires
        0 < d < 2 * ORDER,
    ensures
        ORDER <= r.0 < 2 * ORDER,
        0 <= r.1 <= 52,
        r.0 == d * p(r.1 as int),
{
    let mut x: u64 = d;
    let mut k: i32 = 0;
    proof {
        p_values();
        assert(d * 1 == d);
    }
    while x < ORDER
        invariant
            0 < d < 2 * ORDER,
            0 < x < 2 * ORDER,
            0 <= k <= 52,
            x == d * p(k as int),
        decreases 2 * ORDER - x,
    {
        proof {
            p_add(1, k as int);
            p_values();
            assert(2 * x == d * p(k + 1)) by (nonlinear_arith)
                requires
                    x == d * p(k as int),
                    p(k + 1) == 2 * p(k as int),
            ;
            if k == 52 {
                assert(x >= ORDER) by (nonlinear_arith)
                    requires
                        x == d * p(52),
                        p(52) == ORDER,
                        d >= 1,
                ;
            }
        }
        x = x * 2;
        k += 1;
    }
    (x, k)
}

/// The quotient of two finite numbers, up to rounding.
proof fn lemma_quotient(
    q: nat,
    sticky: bool,
    x: int,
    i: int,
    da: nat,
    sa: int,
    y: int,
    j: int,
    db: nat,
    sb: int,
)
    requires
        x == da * p(i),
        y == db * p(j),
        db > 0,
        q >= p(53),
        0 <= i <= 52,
        0 <= j <= 52,
        0 <= sa <= 2045,
        0 <= sb <= 2045,
        q * y <= x * p(64) < (q + 1) * y,
        sticky <==> q * y != x * p(64),
    ensures
        nearest(((da * p(sa)) * p(UNIT as int)) as nat, (db * p(sb)) as nat) == finished(
            q,
            sa - i - sb + j - 64 + UNIT,
            sticky,
        ),
{
    let k = SHIFT as int;
    let t = sa - i - sb + j - 64 + UNIT;
    let num = (da * p(sa)) * p(UNIT as int);
    let den = db * p(sb);
    let e = sa - i + UNIT - 64 + k;
    let u = p(e);
    p_values();
    p_pos(e);
    p_pos(sb);
    p_pos(sa);
    p_pos(UNIT as int);
    assert(den > 0) by (nonlinear_arith)
        requires
            den == db * p(sb),
            db > 0,
            p(sb) > 0,
    ;
    assert(num >= 0) by (nonlinear_arith)
        requires
            num == (da * p(sa)) * p(UNIT as int),
            da >= 0,
            p(sa) > 0,
            p(UNIT as int) > 0,
    ;
    // num 2^k = x 2^64 u
    p_add(sa, UNIT as int);
    p_add(sa + UNIT, k);
    p_add(i, 64);
    p_add(i + 64, e);
    assert(i + 64 + e == sa + UNIT + k);
    assert(num * p(k) == (x * p(64)) * u) by (nonlinear_arith)
        requires
            num == (da * p(sa)) * p(UNIT as int),
            x == da * p(i),
            (p(sa) * p(UNIT as int)) * p(k) == (p(i) * p(64)) * u,
    ;
    // den 2^(t + k) = y u
    p_add(sb, t + k);
    p_add(j, e);
    assert(sb + t + k == j + e);
    let w = den * p(t + k);
    assert(w == y * u) by (nonlinear_arith)
        requires
            w == den * p(t + k),
            den == db * p(sb),
            y == db * p(j),
            p(sb) * p(t + k) == p(j) * u,
    ;
    assert(q * w == (q * y) * u) by (nonlinear_arith)
        requires
            w == y * u,
    ;
    assert((q + 1) * w == ((q + 1) * y) * u) by (nonlinear_arith)
        requires
            w == y * u,
    ;
    assert(q * w <= num * p(k) < (q + 1) * w && (sticky <==> q * w != num * p(k)))
        by (nonlinear_arith)
        requires
            q * w == (q * y) * u,
            (q + 1) * w == ((q + 1) * y) * u,
            num * p(k) == (x * p(64)) * u,
            q * y <= x * p(64) < (q + 1) * y,
            sticky <==> q * y != x * p(64),
            u > 0,
    ;
    lemma_finished(q, t, sticky, num as nat, den as nat);
}

/// The quotient.
pub fn divide_numbers(a: Binary64, b: Binary64) -> (r: Binary64)
    ensures
        r == quotient(a, b),
{
    proof {
        lemma_decoded(a);
        lemma_decoded(b);
    }
    let negative: bool = (a.bits >= SIGN) != (b.bits >= SIGN);
    let ac: u64 = a.bits % SIGN;
    let bc: u64 = b.bits % SIGN;
    let infinite: u64 = crate::binary64::rounding::INFINITE_CODE;
    if ac > infinite || bc > infinite {
        return Binary64 { bits: 0x7ff8_0000_0000_0000 };
    }
    if ac == infinite {
        if bc == infinite {
            return Binary64 { bits: 0x7ff8_0000_0000_0000 };
        }
        return encode(negative, infinite as u128);
    }
    if bc == infinite {
        return encode(negative, 0);
    }
    if bc == 0 {
        if ac == 0 {
            return Binary64 { bits: 0x7ff8_0000_0000_0000 };
        }
        return encode(negative, infinite as u128);
    }
    let (da, sa) = parts(a);
    let (db, sb) = parts(b);
    proof {
        p_pos(sb as int);
        assert(b.units() > 0) by (nonlinear_arith)
            requires
                b.units() == db * p(sb as int),
                db > 0,
                p(sb as int) > 0,
        ;
    }
    if da == 0 {
        proof {
            lemma_nearest_zero(b.units());
            assert(a.units() * p(UNIT as int) as nat == 0) by (nonlinear_arith)
                requires
                    a.units() == da * p(sa as int),
                    da == 0,
            ;
        }
        return encode(negative, 0);
    }
    let (x, i) = lifted(da);
    let (y, j) = lifted(db);
    let top: u128 = (x as u128) * 0x1_0000_0000_0000_0000;
    let q: u128 = top / (y as u128);
    let sticky: bool = top % (y as u128) != 0;
    proof {
        p_values();
        p_mono(65, 126);
        p_add(1, 64);
        lemma_fundamental_div_mod(top as int, y as int);
        assert(0x20_0000_0000_0000 <= q <= 0x1_0000_0000_0000_0000 * 2 - 1) by (nonlinear_arith)
            requires
                top == y * q + top % (y as u128),
                0 <= top % (y as u128) < y,
                top == x * 0x1_0000_0000_0000_0000,
                0x10_0000_0000_0000 <= x < 0x20_0000_0000_0000,
                0x10_0000_0000_0000 <= y < 0x20_0000_0000_0000,
        ;
        assert(q * y <= x * p(64) < (q + 1) * y && (sticky <==> q * y != x * p(64)))
            by (nonlinear_arith)
            requires
                top == y * q + top % (y as u128),
                0 <= top % (y as u128) < y,
                top == x * p(64),
                sticky == (top % (y as u128) != 0),
        ;
        lemma_quotient(
            q as nat,
            sticky,
            x as int,
            i as int,
            da as nat,
            sa as int,
            y as int,
            j as int,
            db as nat,
            sb as int,
        );
    }
    finish(negative, q, sa - i - sb + j - 64 + UNIT, sticky)
}

/// The greatest number whose square is at most `n`.
fn integer_root(n: u128) -> (r: u128)
    requires
        n < p(126),
    ensures
        r * r <= n < (r + 1) * (r + 1),
        r < p(63),
{
    let mut r: u128 = 0;
    let mut step: u128 = 0x8000_0000_0000_0000;
    proof {
        vstd::arithmetic::power2::lemma2_to64_rest();
        p_add(63, 63);
        assert((r + step) * (r + step) == p(126)) by (nonlinear_arith)
            requires
                r == 0,
                step == p(63),
                p(126) == p(63) * p(63),
        ;
    }
    while step > 1
        invariant
            1 <= step <= 0x8000_0000_0000_0000,
            n < p(126),
            p(126) == 0x8000_0000_0000_0000 * 0x8000_0000_0000_0000,
            r + step <= 0x8000_0000_0000_0000,
            r * r <= n,
            n < (r + step) * (r + step),
        decreases step,
    {
        let half: u128 = (step + 1) / 2;
        let next: u128 = r + half;
        assert(0 <= next * next <= 0x8000_0000_0000_0000 * 0x8000_0000_0000_0000)
            by (nonlinear_arith)
            requires
                0 <= next <= 0x8000_0000_0000_0000,
        ;
        if next * next <= n {
            r = next;
            step = step - half;
        } else {
            step = half;
        }
    }
    proof {
        vstd::arithmetic::power2::lemma2_to64_rest();
    }
    r
}

/// The square root of a finite number, up to rounding.
proof fn lemma_square_root(q: nat, sticky: bool, x: int, i: int, d: nat, s: int, even: int)
    requires
        x == d * p(i),
        0 <= i <= 53,
        0 <= s <= 2045,
        2 * even == s + UNIT - i - 64,
        q >= p(53),
        q * q <= x * p(64) < (q + 1) * (q + 1),
        sticky <==> q * q != x * p(64),
    ensures
        nearest_root(((d * p(s)) * p(UNIT as int)) as nat) == finished(q, even, sticky),
{
    let n = (d * p(s)) * p(UNIT as int);
    let z = p(even);
    p_pos(even);
    p_pos(s);
    p_pos(UNIT as int);
    assert(n >= 0) by (nonlinear_arith)
        requires
            n == (d * p(s)) * p(UNIT as int),
            d >= 0,
            p(s) > 0,
            p(UNIT as int) > 0,
    ;
    p_add(s, UNIT as int);
    p_add(i, 64);
    p_add(even, even);
    p_add(i + 64, even + even);
    assert(s + UNIT == i + 64 + even + even);
    assert(n == (x * p(64)) * (z * z)) by (nonlinear_arith)
        requires
            n == (d * p(s)) * p(UNIT as int),
            x == d * p(i),
            p(s) * p(UNIT as int) == (p(i) * p(64)) * (z * z),
    ;
    assert((q * z) * (q * z) == (q * q) * (z * z)) by (nonlinear_arith);
    assert(((q + 1) * z) * ((q + 1) * z) == ((q + 1) * (q + 1)) * (z * z)) by (nonlinear_arith);
    let zz = z * z;
    assert(zz > 0) by (nonlinear_arith)
        requires
            zz == z * z,
            z > 0,
    ;
    assert((q * q) * zz <= n < ((q + 1) * (q + 1)) * zz && (sticky <==> (q * q) * zz != n))
        by (nonlinear_arith)
        requires
            n == (x * p(64)) * zz,
            q * q <= x * p(64) < (q + 1) * (q + 1),
            sticky <==> q * q != x * p(64),
            zz > 0,
    ;
    lemma_root_finished(q, even, sticky, n as nat);
}

/// The square root.
pub fn root_number(a: Binary64) -> (r: Binary64)
    ensures
        r == square_root(a),
{
    proof {
        lemma_decoded(a);
    }
    let negative: bool = a.bits >= SIGN;
    let ac: u64 = a.bits % SIGN;
    let infinite: u64 = crate::binary64::rounding::INFINITE_CODE;
    if ac > infinite {
        return Binary64 { bits: 0x7ff8_0000_0000_0000 };
    }
    if ac == 0 {
        return a;
    }
    if negative {
        return Binary64 { bits: 0x7ff8_0000_0000_0000 };
    }
    if ac == infinite {
        return a;
    }
    let (d, s) = parts(a);
    let (lift, places) = lifted(d);
    let odd: bool = (s + UNIT - places) % 2 != 0;
    let (x, i): (u64, i32) = if odd {
        (lift * 2, places + 1)
    } else {
        (lift, places)
    };
    let even: i32 = (s + UNIT - i - 64) / 2;
    let n: u128 = (x as u128) * 0x1_0000_0000_0000_0000;
    proof {
        p_values();
        p_add(1, places as int);
        if odd {
            assert(x == d * p(i as int)) by (nonlinear_arith)
                requires
                    x == lift * 2,
                    lift == d * p(places as int),
                    p(i as int) == 2 * p(places as int),
            ;
        }
        p_add(62, 64);
        vstd::arithmetic::power2::lemma2_to64_rest();
    }
    let q = integer_root(n);
    let sticky: bool = q * q != n;
    proof {
        if q < 0x20_0000_0000_0000 {
            assert((q + 1) * (q + 1) <= 0x20_0000_0000_0000 * 0x20_0000_0000_0000)
                by (nonlinear_arith)
                requires
                    0 <= q < 0x20_0000_0000_0000,
            ;
        }
        p_mono(63, 126);
        lemma_square_root(q as nat, sticky, x as int, i as int, d as nat, s as int, even as int);
    }
    finish(false, q, even, sticky)
}

/// The number that stands for a machine integer.
pub fn from_integer(value: i32) -> (r: Binary64)
    ensures
        r == integer(value as int),
{
    let negative: bool = value < 0;
    let magnitude: i64 = if negative {
        -(value as i64)
    } else {
        value as i64
    };
    proof {
        p_pos(UNIT as int);
        p_values();
        p_mono(64, 126);
    }
    if magnitude == 0 {
        proof {
            lemma_nearest_zero(1);
            assert(value * p(UNIT as int) == 0) by (nonlinear_arith)
                requires
                    value == 0,
            ;
        }
        return encode(false, 0);
    }
    proof {
        assert(magnitude * p(UNIT as int) >= 0) by (nonlinear_arith)
            requires
                magnitude >= 0,
                p(UNIT as int) > 0,
        ;
        lemma_exact(magnitude as nat, UNIT as int, (magnitude * p(UNIT as int)) as nat);
    }
    finish(negative, magnitude as u128, UNIT, false)
}

/// The number with the other sign.
pub fn negate_number(a: Binary64) -> (r: Binary64)
    ensures
        r == opposite(a),
{
    if a.bits >= SIGN {
        Binary64 { bits: a.bits - SIGN }
    } else {
        Binary64 { bits: a.bits + SIGN }
    }
}

} // verus!
