//! Numbers in the formats of tensor entries, held in double precision.
use vstd::prelude::*;

use crate::backend::Format;
use crate::binary64::arithmetic::parts;
use crate::binary64::rounding::{digit_count, power, INFINITE_CODE};
use crate::binary64::{encode, finish, Binary64, LARGEST_BITS, SIGN};

verus! {

use crate::binary64::arithmetic::{lemma_exact, lemma_nearest_zero, lemma_rounds_to_itself};
use crate::binary64::rounding::{length, lemma_length, nearest, p, p_add, p_mono, p_pos, p_values};
use crate::binary64::{encoded, lemma_encoded};

/// The bits of the largest number in single precision.
pub const SINGLE_BITS: u64 = 0x47ef_ffff_e000_0000;

/// The bits of the largest number in half precision.
pub const HALF_BITS: u64 = 0x40ef_fc00_0000_0000;

/// The bits of the largest number with the exponents of single precision and
/// eight digits.
pub const BRAIN_BITS: u64 = 0x47ef_e000_0000_0000;

/// The place of the last digit that is kept of `n` units: `digits` digits are,
/// but none below place `low`.
pub open spec fn kept_place(n: nat, digits: int, low: int) -> int {
    if length(n) - digits > low {
        length(n) - digits
    } else {
        low
    }
}

/// `q` or `q + 1`, whichever is nearer to `q + r / u`; the even one of the two
/// halfway between them.
pub open spec fn rounded(q: int, r: int, u: int) -> int {
    if 2 * r > u || (2 * r == u && q % 2 == 1) {
        q + 1
    } else {
        q
    }
}

/// `n` units rounded to the nearest multiple of its last place, ties to even.
pub open spec fn shortened(n: nat, digits: int, low: int) -> nat {
    let u = p(kept_place(n, digits, low));
    (rounded(n as int / u, n as int % u, u) * u) as nat
}

/// A number rounded to `digits` digits, none below place `low`; infinite where
/// that exceeds the number of code `largest`.
pub open spec fn limited(x: Binary64, digits: int, low: int, largest: u64) -> Binary64 {
    if !x.is_finite() {
        x
    } else {
        let code = nearest(shortened(x.units(), digits, low), 1);
        encoded(
            x.negative(),
            if code > largest {
                INFINITE_CODE as nat
            } else {
                code
            },
        )
    }
}

/// A number in single precision.
pub open spec fn single(x: Binary64) -> Binary64 {
    limited(x, 24, 925, SINGLE_BITS)
}

/// A number in the given format. The two formats of sixteen bits are reached
/// through single precision.
pub open spec fn narrowing(x: Binary64, f: Format) -> Binary64 {
    match f {
        Format::F64 => x,
        Format::F32 | Format::Flex32 => single(x),
        Format::F16 => limited(single(x), 11, 1050, HALF_BITS),
        Format::BF16 => limited(single(x), 8, 941, BRAIN_BITS),
    }
}

/// The bits of the largest number of a format. Numbers of the flexible format
/// are stored in single precision, but are reckoned with as in half precision.
pub open spec fn largest_bits(f: Format) -> u64 {
    match f {
        Format::F64 => LARGEST_BITS,
        Format::F32 => SINGLE_BITS,
        Format::Flex32 | Format::F16 => HALF_BITS,
        Format::BF16 => BRAIN_BITS,
    }
}

/// A number has one length.
pub proof fn lemma_length_unique(q: nat, l: int)
    requires
        l >= 1,
        p(l - 1) <= q < p(l),
    ensures
        length(q) == l,
{
    lemma_length(q);
    p_pos(l - 1);
    if length(q) < l {
        p_mono(length(q) as int, l - 1);
    }
    if length(q) > l {
        p_mono(l, length(q) - 1);
    }
}

/// Multiplying by `2^s` adds `s` digits.
pub proof fn lemma_length_scaled(q: nat, s: int)
    requires
        q > 0,
        s >= 0,
    ensures
        length((q * p(s)) as nat) == length(q) + s,
{
    lemma_length(q);
    let l = length(q) as int;
    p_values();
    p_add(l - 1, s);
    p_add(l, s);
    assert(p(l - 1) * p(s) <= q * p(s) < p(l) * p(s)) by (nonlinear_arith)
        requires
            p(l - 1) <= q < p(l),
            p(s) > 0,
    ;
    lemma_length_unique((q * p(s)) as nat, l + s);
}

/// Multiples of the last place stay as they are.
proof fn lemma_kept(d: nat, s: int, place: int)
    requires
        0 <= place <= s,
    ensures
        ({
            let n = d * p(s);
            let u = p(place);
            rounded(n / u, n % u, u) * u == n
        }),
{
    let u = p(place);
    let n = d * p(s);
    p_add(place, s - place);
    p_pos(place);
    assert(n == (d * p(s - place)) * u) by (nonlinear_arith)
        requires
            n == d * p(s),
            p(s) == u * p(s - place),
    ;
    vstd::arithmetic::div_mod::lemma_fundamental_div_mod_converse(n, u, d * p(s - place), 0);
}

/// Quotient and remainder of `d 2^s` by `2^(k + s)`.
proof fn lemma_cut(d: nat, s: int, k: int)
    requires
        s >= 0,
        k > 0,
    ensures
        ({
            let n = d * p(s);
            let u = p(k + s);
            &&& n / u == d as int / p(k)
            &&& n % u == (d as int % p(k)) * p(s)
            &&& rounded(n / u, n % u, u) == rounded(d as int / p(k), d as int % p(k), p(k))
        }),
{
    let w = p(k);
    let n = d * p(s);
    let u = p(k + s);
    let q = d as int / w;
    let r = d as int % w;
    p_add(k, s);
    vstd::arithmetic::div_mod::lemma_fundamental_div_mod(d as int, w);
    assert(n == q * u + r * p(s) && 0 <= r * p(s) < u) by (nonlinear_arith)
        requires
            n == d * p(s),
            d == w * q + r,
            u == w * p(s),
            0 <= r < w,
            p(s) > 0,
    ;
    vstd::arithmetic::div_mod::lemma_fundamental_div_mod_converse(n, u, q, r * p(s));
    assert(2 * (r * p(s)) > u <==> 2 * r > w) by (nonlinear_arith)
        requires
            u == w * p(s),
            p(s) > 0,
    ;
    assert(2 * (r * p(s)) == u <==> 2 * r == w) by (nonlinear_arith)
        requires
            u == w * p(s),
            p(s) > 0,
    ;
}

/// A number with all but the leading digits rounded away.
fn shorten(x: Binary64, digits: i32, low: i32) -> (r: Binary64)
    requires
        x.is_finite(),
        1 <= digits <= 53,
        0 <= low <= 2000,
    ensures
        r == encoded(
            x.negative(),
            nearest(shortened(x.units(), digits as int, low as int), 1),
        ),
{
    let (d, s) = parts(x);
    let negative: bool = x.bits >= SIGN;
    let ghost n = x.units();
    proof {
        p_values();
    }
    if d == 0 {
        proof {
            let u = p(kept_place(0, digits as int, low as int));
            p_pos(kept_place(0, digits as int, low as int));
            assert(n == 0) by (nonlinear_arith)
                requires
                    n == d * p(s as int),
                    d == 0,
            ;
            vstd::arithmetic::div_mod::lemma_fundamental_div_mod_converse(0, u, 0, 0);
            assert(0 * u == 0);
            lemma_nearest_zero(1);
        }
        return encode(negative, 0);
    }
    let l: i32 = digit_count(d as u128) as i32;
    proof {
        lemma_length_scaled(d as nat, s as int);
        lemma_length(d as nat);
        if l > 53 {
            p_mono(53, l - 1);
        }
    }
    let place: i32 = if l + s - digits > low {
        l + s - digits
    } else {
        low
    };
    assert(place == kept_place(n, digits as int, low as int));
    if place <= s {
        proof {
            lemma_kept(d as nat, s as int, place as int);
            lemma_rounds_to_itself(x);
        }
        return x;
    }
    let k: i32 = place - s;
    proof {
        lemma_cut(d as nat, s as int, k as int);
        p_pos(k as int);
        p_pos(place as int);
    }
    if k > 60 {
        proof {
            p_mono(60, k as int);
            p_mono(53, 60);
            p_add(53, 7);
            assert(p(7) == 128) by {
                vstd::arithmetic::power2::lemma2_to64();
            }
            vstd::arithmetic::div_mod::lemma_small_mod(d as nat, p(k as int) as nat);
            vstd::arithmetic::div_mod::lemma_basic_div(d as int, p(k as int));
            assert(0 * p(place as int) == 0);
            lemma_nearest_zero(1);
        }
        return encode(negative, 0);
    }
    let w = power(k as u32);
    let q: u128 = d as u128 / w;
    let rest: u128 = d as u128 % w;
    let up: bool = rest > w - rest || (rest == w - rest && q % 2 == 1);
    let kept: u128 = if up {
        q + 1
    } else {
        q
    };
    assert(q <= d) by (nonlinear_arith)
        requires
            q == d as u128 / w,
            w > 0,
    ;
    proof {
        assert(kept == rounded(d as int / p(k as int), d as int % p(k as int), p(k as int)));
        p_mono(54, 126);
        p_add(53, 1);
        assert(kept * p(place as int) >= 0) by (nonlinear_arith)
            requires
                p(place as int) > 0,
        ;
    }
    if kept == 0 {
        proof {
            assert(0 * p(place as int) == 0);
            lemma_nearest_zero(1);
        }
        return encode(negative, 0);
    }
    proof {
        lemma_exact(kept as nat, place as int, (kept * p(place as int)) as nat);
    }
    finish(negative, kept, place, false)
}

/// A number with all but the leading digits rounded away, infinite where that
/// exceeds the largest.
fn limit(x: Binary64, digits: i32, low: i32, largest: u64) -> (r: Binary64)
    requires
        1 <= digits <= 53,
        0 <= low <= 2000,
        largest < INFINITE_CODE,
    ensures
        r == limited(x, digits as int, low as int, largest),
{
    if x.bits % SIGN >= INFINITE_CODE {
        return x;
    }
    let y = shorten(x, digits, low);
    proof {
        lemma_encoded(
            x.negative(),
            nearest(shortened(x.units(), digits as int, low as int), 1),
        );
    }
    if y.bits % SIGN > largest {
        encode(x.bits >= SIGN, INFINITE_CODE as u128)
    } else {
        y
    }
}

/// A number in the given format.
pub fn narrow_number(x: Binary64, f: Format) -> (r: Binary64)
    ensures
        r == narrowing(x, f),
{
    match f {
        Format::F64 => x,
        Format::F32 => limit(x, 24, 925, SINGLE_BITS),
        Format::Flex32 => limit(x, 24, 925, SINGLE_BITS),
        Format::F16 => limit(limit(x, 24, 925, SINGLE_BITS), 11, 1050, HALF_BITS),
        Format::BF16 => limit(limit(x, 24, 925, SINGLE_BITS), 8, 941, BRAIN_BITS),
    }
}

/// The largest number of a format.
pub fn largest_number(f: Format) -> (r: Binary64)
    ensures
        r.bits == largest_bits(f),
{
    match f {
        Format::F64 => Binary64 { bits: LARGEST_BITS },
        Format::F32 => Binary64 { bits: SINGLE_BITS },
        Format::Flex32 => Binary64 { bits: HALF_BITS },
        Format::F16 => Binary64 { bits: HALF_BITS },
        Format::BF16 => Binary64 { bits: BRAIN_BITS },
    }
}

} // verus!
