//! Rounding to 53 significant binary digits.
//!
//! Magnitudes are measured in units of the smallest positive number, `2^-1074`,
//! so that every finite number is a whole number of units.
use vstd::arithmetic::div_mod::{lemma_fundamental_div_mod, lemma_fundamental_div_mod_converse};
use vstd::arithmetic::power2::{lemma_pow2_adds, lemma_pow2_pos};
use vstd::prelude::*;

verus! {

use vstd::arithmetic::power2::pow2;

/// `2^52`: the numbers of one binary order of magnitude.
pub const ORDER: u64 = 0x10_0000_0000_0000;

/// The code of infinity, above those of all finite numbers.
pub const INFINITE_CODE: u64 = 0x7ff0_0000_0000_0000;

/// `2^k`.
pub open spec fn p(k: int) -> int {
    pow2(k as nat) as int
}

/// Powers of two are positive.
pub proof fn p_pos(k: int)
    ensures
        p(k) > 0,
{
    lemma_pow2_pos(k as nat);
}

/// Exponents add up.
pub proof fn p_add(a: int, b: int)
    requires
        a >= 0,
        b >= 0,
    ensures
        p(a + b) == p(a) * p(b),
        p(a) > 0,
        p(b) > 0,
{
    lemma_pow2_adds(a as nat, b as nat);
    p_pos(a);
    p_pos(b);
}

/// A greater exponent gives a greater power.
pub proof fn p_mono(a: int, b: int)
    requires
        0 <= a <= b,
    ensures
        p(a) <= p(b),
        a < b ==> 2 * p(a) <= p(b),
{
    if a < b {
        p_add(a + 1, b - a - 1);
        p_add(1, a);
        vstd::arithmetic::power2::lemma2_to64();
        assert(p(a + 1) <= p(b)) by (nonlinear_arith)
            requires
                p(b) == p(a + 1) * p(b - a - 1),
                p(b - a - 1) >= 1,
                p(a + 1) > 0,
        ;
    }
}

/// Known powers.
pub proof fn p_values()
    ensures
        p(0) == 1,
        p(1) == 2,
        p(52) == ORDER,
        p(53) == 0x20_0000_0000_0000,
        p(64) == 0x1_0000_0000_0000_0000,
{
    vstd::arithmetic::power2::lemma2_to64();
    vstd::arithmetic::power2::lemma2_to64_rest();
}

/// By how many binary orders of magnitude `num / den` units exceed 53 binary
/// digits.
pub open spec fn spread(num: nat, den: nat) -> nat
    decreases num - den,
{
    if den == 0 || num < den * pow2(53) {
        0
    } else {
        proof {
            p_values();
            assert(num >= 2 * den) by (nonlinear_arith)
                requires
                    num >= den * 0x20_0000_0000_0000nat,
                    den > 0,
            ;
        }
        1 + spread(num, 2 * den)
    }
}

/// The code of the number nearest to `num / den` units: of the two numbers of 53
/// binary digits around it the closer one, and the one with an even last digit
/// where both are equally close.
pub open spec fn nearest(num: nat, den: nat) -> nat {
    let s = spread(num, den);
    let unit = den * pow2(s);
    let digits = num / unit;
    let rest = num % unit;
    if 2 * rest > unit || (2 * rest == unit && digits % 2 == 1) {
        s * ORDER as nat + digits + 1
    } else {
        s * ORDER as nat + digits
    }
}

/// The number of binary digits.
pub open spec fn length(q: nat) -> nat
    decreases q,
{
    if q == 0 {
        0
    } else {
        1 + length(q / 2)
    }
}

/// What the number of binary digits says of the size.
pub proof fn lemma_length(q: nat)
    ensures
        q > 0 ==> p(length(q) - 1) <= q,
        q < p(length(q) as int),
    decreases q,
{
    p_values();
    if q > 0 {
        lemma_length(q / 2);
        let l = length(q / 2) as int;
        p_add(1, l);
        if l > 0 {
            p_add(1, l - 1);
        }
    }
}

/// The exponent of the last of 53 digits, for a number of `l` digits times
/// `2^t`.
pub open spec fn last_place(l: int, t: int) -> int {
    if l + t > 53 {
        l + t - 53
    } else {
        0
    }
}

/// The code of the number nearest to what lies from `q 2^t` units on, but below
/// `(q + 1) 2^t`; it is more than `q 2^t` where `sticky` holds.
pub open spec fn finished(q: nat, t: int, sticky: bool) -> nat {
    let s = last_place(length(q) as int, t);
    if s >= t {
        let w = p(s - t);
        let digits = q as int / w;
        let rest = q as int % w;
        if 2 * rest > w || (2 * rest == w && (sticky || digits % 2 == 1)) {
            (s * ORDER + digits + 1) as nat
        } else {
            (s * ORDER + digits) as nat
        }
    } else {
        (s * ORDER + q * p(t - s)) as nat
    }
}

/// A number of binary places that is enough to write all exponents as
/// nonnegative.
pub const SHIFT: i32 = 8192;

/// Whether `num / den` units lie from `q 2^t` on but below `(q + 1) 2^t`, above
/// `q 2^t` exactly where `sticky` holds.
pub open spec fn brackets(q: nat, t: int, sticky: bool, num: nat, den: nat) -> bool {
    &&& q * (den * p(t + SHIFT)) <= num * p(SHIFT as int) < (q + 1) * (den * p(t + SHIFT))
    &&& sticky <==> q * (den * p(t + SHIFT)) != num * p(SHIFT as int)
}

/// Only one exponent fits.
pub proof fn lemma_spread_unique(num: nat, den: nat, s: int)
    requires
        den > 0,
        s >= 0,
        num < den * p(s + 53),
        s > 0 ==> den * p(s + 52) <= num,
    ensures
        spread(num, den) == s,
    decreases s,
{
    if s > 0 {
        p_mono(53, s + 52);
        assert(num >= den * p(53)) by (nonlinear_arith)
            requires
                num >= den * p(s + 52),
                p(s + 52) >= p(53),
                den > 0,
        ;
        p_values();
        p_add(1, s + 52);
        p_add(1, s + 51);
        assert(den * p(s + 53) == (2 * den) * p(s + 52)) by (nonlinear_arith)
            requires
                p(s + 53) == 2 * p(s + 52),
        ;
        assert(den * p(s + 52) == (2 * den) * p(s + 51)) by (nonlinear_arith)
            requires
                p(s + 52) == 2 * p(s + 51),
        ;
        lemma_spread_unique(num, 2 * den, s - 1);
    }
}

/// A common factor cancels from a comparison.
pub proof fn lemma_cancel(a: int, b: int, k: int)
    requires
        k > 0,
    ensures
        a * k < b * k <==> a < b,
        a * k <= b * k <==> a <= b,
{
    assert(a * k < b * k <==> a < b) by (nonlinear_arith)
        requires
            k > 0,
    ;
    assert(a * k <= b * k <==> a <= b) by (nonlinear_arith)
        requires
            k > 0,
    ;
}

/// Bounds on `num` from bounds on the bracketing digits.
proof fn lemma_bracket_place(q: nat, t: int, sticky: bool, num: nat, den: nat)
    requires
        brackets(q, t, sticky, num, den),
        q > 0,
        den > 0,
        -SHIFT <= t,
    ensures
        spread(num, den) == last_place(length(q) as int, t),
{
    let k = SHIFT as int;
    let l = length(q) as int;
    let s = last_place(l, t);
    let x = den * p(t + k);
    lemma_length(q);
    p_pos(t + k);
    p_pos(k);
    assert(x > 0) by (nonlinear_arith)
        requires
            x == den * p(t + k),
            den > 0,
            p(t + k) > 0,
    ;
    // num 2^k < (q + 1) x <= 2^l x = den 2^(l + t + k) <= den 2^(s + 53) 2^k
    p_add(l, t + k);
    p_mono(l + t + k, s + 53 + k);
    p_add(s + 53, k);
    assert((q + 1) * x <= p(l) * x) by (nonlinear_arith)
        requires
            q + 1 <= p(l),
            x > 0,
    ;
    assert(p(l) * x == den * p(l + t + k)) by (nonlinear_arith)
        requires
            x == den * p(t + k),
            p(l + t + k) == p(l) * p(t + k),
    ;
    assert(den * p(l + t + k) <= den * p(s + 53 + k)) by (nonlinear_arith)
        requires
            p(l + t + k) <= p(s + 53 + k),
            den > 0,
    ;
    assert(den * p(s + 53 + k) == (den * p(s + 53)) * p(k)) by (nonlinear_arith)
        requires
            p(s + 53 + k) == p(s + 53) * p(k),
    ;
    lemma_cancel(num as int, den * p(s + 53), p(k));
    if s > 0 {
        // num 2^k >= q x >= 2^(l - 1) x = den 2^(l - 1 + t + k) = den 2^(s + 52) 2^k
        p_add(l - 1, t + k);
        p_add(s + 52, k);
        assert(q * x >= p(l - 1) * x) by (nonlinear_arith)
            requires
                q >= p(l - 1),
                x > 0,
        ;
        assert(p(l - 1) * x == den * p(l - 1 + t + k)) by (nonlinear_arith)
            requires
                x == den * p(t + k),
                p(l - 1 + t + k) == p(l - 1) * p(t + k),
        ;
        assert(den * p(s + 52 + k) == (den * p(s + 52)) * p(k)) by (nonlinear_arith)
            requires
                p(s + 52 + k) == p(s + 52) * p(k),
        ;
        assert(l - 1 + t + k == s + 52 + k);
        lemma_cancel(den * p(s + 52), num as int, p(k));
    }
    lemma_spread_unique(num, den, s);
}

/// What the bracketing digits round to is what the bracketed number rounds to.
pub proof fn lemma_finished(q: nat, t: int, sticky: bool, num: nat, den: nat)
    requires
        brackets(q, t, sticky, num, den),
        q > 0,
        den > 0,
        -SHIFT <= t,
        sticky ==> q >= p(53),
    ensures
        nearest(num, den) == finished(q, t, sticky),
{
    let k = SHIFT as int;
    let s = last_place(length(q) as int, t);
    lemma_bracket_place(q, t, sticky, num, den);
    let unit = (den * pow2(s as nat)) as int;
    let x = den * p(t + k);
    let y = unit * p(k);
    let n = num * p(k);
    p_pos(s);
    p_pos(k);
    p_pos(t + k);
    assert(unit > 0) by (nonlinear_arith)
        requires
            unit == den * p(s),
            den > 0,
            p(s) > 0,
    ;
    assert(x > 0) by (nonlinear_arith)
        requires
            x == den * p(t + k),
            den > 0,
            p(t + k) > 0,
    ;
    lemma_fundamental_div_mod(num as int, unit);
    let digits = num as int / unit;
    let rest = num as int % unit;
    assert(n == digits * y + rest * p(k)) by (nonlinear_arith)
        requires
            n == num * p(k),
            num == unit * digits + rest,
            y == unit * p(k),
    ;
    assert(0 <= rest * p(k) < y) by (nonlinear_arith)
        requires
            0 <= rest < unit,
            y == unit * p(k),
            p(k) > 0,
    ;
    if s >= t {
        let w = p(s - t);
        p_add(s - t, t + k);
        p_add(s, k);
        p_pos(s - t);
        assert(y == x * w) by (nonlinear_arith)
            requires
                y == unit * p(k),
                unit == den * p(s),
                x == den * p(t + k),
                p(s + k) == p(s) * p(k),
                p(s + k) == w * p(t + k),
        ;
        let r0 = n - q * x;
        let d = q as int / w;
        let e = q as int % w;
        lemma_fundamental_div_mod(q as int, w);
        assert(n == d * y + (e * x + r0)) by (nonlinear_arith)
            requires
                n == q * x + r0,
                q == w * d + e,
                y == x * w,
        ;
        assert((q + 1) * x == q * x + x) by (nonlinear_arith);
        assert(0 <= r0 < x);
        assert(0 <= e * x + r0 < y) by (nonlinear_arith)
            requires
                0 <= e <= w - 1,
                0 <= r0 < x,
                y == x * w,
        ;
        lemma_fundamental_div_mod_converse(n, y, d, e * x + r0);
        lemma_fundamental_div_mod_converse(n, y, digits, rest * p(k));
        assert(digits == d);
        assert(rest * p(k) == e * x + r0);
        // Compare with one half.
        lemma_cancel(unit, 2 * rest, p(k));
        lemma_cancel(2 * rest, unit, p(k));
        assert((2 * rest) * p(k) == 2 * (e * x + r0)) by (nonlinear_arith)
            requires
                rest * p(k) == e * x + r0,
        ;
        if s == t {
            p_values();
            assert(e == 0);
            if sticky {
                lemma_length(q);
                let l = length(q) as int;
                if l < 54 {
                    p_mono(l, 53);
                }
            }
            assert(r0 == 0);
            assert(e * x == 0) by (nonlinear_arith)
                requires
                    e == 0,
            ;
        } else {
            p_add(1, s - t - 1);
            p_values();
            assert(w == 2 * p(s - t - 1));
            if 2 * e > w {
                assert(2 * (e * x + r0) > y) by (nonlinear_arith)
                    requires
                        2 * e >= w + 1,
                        0 <= r0,
                        0 < x,
                        y == x * w,
                ;
            } else if 2 * e == w {
                assert(2 * (e * x + r0) == y + 2 * r0) by (nonlinear_arith)
                    requires
                        2 * e == w,
                        y == x * w,
                ;
                assert(sticky <==> r0 != 0);
            } else {
                assert(2 * (e * x + r0) < y) by (nonlinear_arith)
                    requires
                        2 * e <= w - 2,
                        r0 < x,
                        0 < x,
                        y == x * w,
                ;
            }
        }
    } else {
        lemma_length(q);
        let l = length(q) as int;
        if sticky && l < 54 {
            p_mono(l, 53);
        }
        assert(!sticky);
        let w = p(t - s);
        p_add(t - s, s + k);
        p_add(s, k);
        assert(n == (q * w) * y) by (nonlinear_arith)
            requires
                n == q * x,
                x == den * p(t + k),
                p(t + k) == w * p(s + k),
                p(s + k) == p(s) * p(k),
                y == unit * p(k),
                unit == den * p(s),
        ;
        lemma_fundamental_div_mod_converse(n, y, q * w, 0);
        lemma_fundamental_div_mod_converse(n, y, digits, rest * p(k));
        assert(rest == 0) by (nonlinear_arith)
            requires
                rest * p(k) == 0,
                p(k) > 0,
                rest >= 0,
        ;
    }
}

/// By how many binary orders of magnitude the root of `n` exceeds 53 binary
/// digits, in steps of `d`.
pub open spec fn root_spread(n: nat, d: nat) -> nat
    decreases n - d * d,
{
    if d == 0 || n < (d * p(53)) * (d * p(53)) {
        0
    } else {
        proof {
            p_values();
            assert(n >= (2 * d) * (2 * d) && (2 * d) * (2 * d) > d * d) by (nonlinear_arith)
                requires
                    n >= (d * p(53)) * (d * p(53)),
                    p(53) >= 2,
                    d > 0,
            ;
        }
        1 + root_spread(n, 2 * d)
    }
}

/// The greatest number of steps of `u` that is at most the root of `n`.
pub open spec fn root_steps(n: nat, u: int) -> nat {
    choose|m: nat| is_root_steps(n, u, m)
}

/// Whether `m` steps of `u` are at most the root of `n`, and `m + 1` more.
pub open spec fn is_root_steps(n: nat, u: int, m: nat) -> bool {
    (m * u) * (m * u) <= n < ((m + 1) * u) * ((m + 1) * u)
}

/// The code of the number nearest to the root of `n` squared units, rounded as
/// by [`nearest`].
pub open spec fn nearest_root(n: nat) -> nat {
    let s = root_spread(n, 1);
    let u = p(s as int);
    let digits = root_steps(n, u);
    let middle = (2 * digits + 1) * u;
    if 4 * n > middle * middle || (4 * n == middle * middle && digits % 2 == 1) {
        s * ORDER as nat + digits + 1
    } else {
        s * ORDER as nat + digits
    }
}

/// Of two numbers that are not negative, the greater has the greater square.
pub proof fn lemma_squares(a: int, b: int)
    requires
        0 <= a,
        0 <= b,
    ensures
        a < b <==> a * a < b * b,
        a <= b <==> a * a <= b * b,
{
    if a < b {
        assert(a * a < b * b) by (nonlinear_arith)
            requires
                0 <= a < b,
        ;
    } else {
        assert(a * a >= b * b) by (nonlinear_arith)
            requires
                0 <= b <= a,
        ;
        if b < a {
            assert(b * b < a * a) by (nonlinear_arith)
                requires
                    0 <= b < a,
            ;
        }
    }
}

/// Only one exponent fits a root.
pub proof fn lemma_root_spread_unique(n: nat, d: nat, s: int)
    requires
        d > 0,
        s >= 0,
        n < (d * p(s + 53)) * (d * p(s + 53)),
        s > 0 ==> (d * p(s + 52)) * (d * p(s + 52)) <= n,
    ensures
        root_spread(n, d) == s,
    decreases s,
{
    if s > 0 {
        p_values();
        p_mono(53, s + 52);
        assert(0 <= d * p(53) <= d * p(s + 52)) by (nonlinear_arith)
            requires
                0 < p(53) <= p(s + 52),
                d > 0,
        ;
        lemma_squares(d * p(53), d * p(s + 52));
        p_add(1, s + 52);
        p_add(1, s + 51);
        assert(d * p(s + 53) == (2 * d) * p(s + 52)) by (nonlinear_arith)
            requires
                p(s + 53) == 2 * p(s + 52),
        ;
        assert(d * p(s + 52) == (2 * d) * p(s + 51)) by (nonlinear_arith)
            requires
                p(s + 52) == 2 * p(s + 51),
        ;
        lemma_root_spread_unique(n, 2 * d, s - 1);
    }
}

/// Only one number of steps fits a root.
pub proof fn lemma_root_steps_unique(n: nat, u: int, m: nat)
    requires
        u > 0,
        is_root_steps(n, u, m),
    ensures
        root_steps(n, u) == m,
{
    let c = root_steps(n, u);
    assert(is_root_steps(n, u, c));
    assert(0 <= c * u && 0 <= m * u && 0 <= (c + 1) * u && 0 <= (m + 1) * u) by (nonlinear_arith)
        requires
            u > 0,
            c >= 0,
            m >= 0,
    ;
    lemma_squares(c * u, (m + 1) * u);
    lemma_squares(m * u, (c + 1) * u);
    lemma_cancel(c as int, (m + 1) as int, u);
    lemma_cancel(m as int, (c + 1) as int, u);
}

/// What the bracketing digits of a root round to is what the root rounds to.
pub proof fn lemma_root_finished(q: nat, t: int, sticky: bool, n: nat)
    requires
        q >= p(53),
        t >= 0,
        (q * p(t)) * (q * p(t)) <= n < ((q + 1) * p(t)) * ((q + 1) * p(t)),
        sticky <==> (q * p(t)) * (q * p(t)) != n,
    ensures
        nearest_root(n) == finished(q, t, sticky),
{
    let l = length(q) as int;
    let s = last_place(l, t);
    lemma_length(q);
    if l < 54 {
        p_mono(l, 53);
    }
    let z = p(t);
    let w = p(s - t);
    let u = p(s);
    p_pos(t);
    p_pos(s);
    p_values();
    p_add(s - t, t);
    // The exponent.
    p_add(l, t);
    p_add(l - 1, t);
    assert((q + 1) * z <= 1 * p(s + 53)) by (nonlinear_arith)
        requires
            q + 1 <= p(l),
            z > 0,
            p(s + 53) == p(l) * z,
    ;
    assert(1 * p(s + 52) <= q * z) by (nonlinear_arith)
        requires
            q >= p(l - 1),
            z > 0,
            p(s + 52) == p(l - 1) * z,
    ;
    assert(0 <= q * z && 0 <= (q + 1) * z) by (nonlinear_arith)
        requires
            q >= 0,
            z > 0,
    ;
    p_pos(s + 52);
    p_pos(s + 53);
    lemma_squares((q + 1) * z, 1 * p(s + 53));
    lemma_squares(1 * p(s + 52), q * z);
    lemma_root_spread_unique(n, 1, s);
    // The digits.
    let d = q as int / w;
    let e = q as int % w;
    lemma_fundamental_div_mod(q as int, w);
    assert(0 <= d) by (nonlinear_arith)
        requires
            d == q as int / w,
            q >= 0,
            w > 0,
    ;
    assert(u == w * z);
    assert(0 <= d * u <= q * z) by (nonlinear_arith)
        requires
            u == w * z,
            q == w * d + e,
            e >= 0,
            d >= 0,
            w > 0,
            z > 0,
    ;
    assert((q + 1) * z <= (d + 1) * u) by (nonlinear_arith)
        requires
            u == w * z,
            q == w * d + e,
            e <= w - 1,
            z > 0,
    ;
    lemma_squares(d * u, q * z);
    lemma_squares((q + 1) * z, (d + 1) * u);
    lemma_root_steps_unique(n, u, d as nat);
    // Compare with the middle.
    let middle = (2 * d + 1) * u;
    let low = 2 * (q * z);
    let high = 2 * ((q + 1) * z);
    assert(low * low == 4 * ((q * z) * (q * z))) by (nonlinear_arith)
        requires
            low == 2 * (q * z),
    ;
    assert(high * high == 4 * (((q + 1) * z) * ((q + 1) * z))) by (nonlinear_arith)
        requires
            high == 2 * ((q + 1) * z),
    ;
    assert(middle >= 0) by (nonlinear_arith)
        requires
            middle == (2 * d + 1) * u,
            d >= 0,
            u > 0,
    ;
    p_add(1, s - t - 1);
    assert(w == 2 * p(s - t - 1));
    if 2 * e > w {
        assert(middle < low) by (nonlinear_arith)
            requires
                middle == (2 * d + 1) * u,
                u == w * z,
                low == 2 * (q * z),
                q == w * d + e,
                2 * e >= w + 1,
                z > 0,
        ;
        lemma_squares(middle, low);
    } else if 2 * e == w {
        assert(middle == low) by (nonlinear_arith)
            requires
                middle == (2 * d + 1) * u,
                u == w * z,
                low == 2 * (q * z),
                q == w * d + e,
                2 * e == w,
        ;
    } else {
        assert(high <= middle) by (nonlinear_arith)
            requires
                middle == (2 * d + 1) * u,
                u == w * z,
                high == 2 * ((q + 1) * z),
                q == w * d + e,
                2 * e <= w - 2,
                z > 0,
        ;
        lemma_squares(high, middle);
    }
}

/// `2^k` for `k` below 127.
pub fn power(k: u32) -> (r: u128)
    requires
        k < 127,
    ensures
        r == p(k as int),
{
    let mut r: u128 = 1;
    let mut i: u32 = 0;
    proof {
        p_values();
    }
    while i < k
        invariant
            i <= k < 127,
            r == p(i as int),
        decreases k - i,
    {
        proof {
            p_add(1, i as int);
            p_values();
            p_mono(i as int, 125);
            p_add(61, 64);
            vstd::arithmetic::power2::lemma2_to64_rest();
        }
        r = r * 2;
        i += 1;
    }
    r
}

/// The number of binary digits.
pub fn digit_count(q: u128) -> (r: u32)
    ensures
        r == length(q as nat),
        r <= 128,
{
    let mut x: u128 = q;
    let mut r: u32 = 0;
    proof {
        lemma_length(q as nat);
        p_add(64, 64);
        p_values();
        if length(q as nat) > 128 {
            p_mono(128, length(q as nat) - 1);
        }
    }
    while x > 0
        invariant
            r + length(x as nat) == length(q as nat),
            length(q as nat) <= 128,
        decreases x,
    {
        x = x / 2;
        r += 1;
    }
    r
}

} // verus!
