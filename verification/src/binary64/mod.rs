//! Numbers in double precision, computed with integers.
//!
//! [`Binary64`] holds the bits of an IEEE 754 binary64 number. Sums, products,
//! quotients and square roots are the nearest number to the exact result, ties
//! to even, as the standard has them; they are proved so. Exponentials, error
//! functions and tangents are evaluated by the series of [`series`].
pub mod arithmetic;
pub mod bounds;
pub mod compare;
pub mod errors;
pub mod narrow;
pub mod rounded;
pub mod rounding;
pub mod series;
pub mod shifting;

use vstd::prelude::*;

use crate::binary64::arithmetic::{
    add_numbers, divide_numbers, from_integer, multiply_numbers, negate_number, root_number,
};
use crate::backend::Format;
use crate::binary64::compare::{is_equal, is_less};
use crate::binary64::narrow::{largest_number, narrow_number};
use crate::binary64::rounding::{digit_count, power, INFINITE_CODE, ORDER, SHIFT};
use crate::binary64::series::{error_number, exponential_number, tangent_number, PI_BITS};
use crate::scalar::Scalar;

verus! {

use crate::binary64::arithmetic::{integer, opposite, product, quotient, square_root, sum};
use crate::binary64::compare::{equal, precedes};
use crate::binary64::narrow::{largest_bits, narrowing};
use crate::binary64::rounding::{finished, lemma_length, p, p_add, p_mono, p_pos, p_values};
use crate::binary64::series::{circle, error, exponential, tangent};

/// The bit that holds the sign.
pub const SIGN: u64 = 0x8000_0000_0000_0000;

/// Exponent of the unit that magnitudes are measured in, negated.
pub const UNIT: i32 = 1074;

/// A number in double precision.
#[derive(Clone, Copy, Debug)]
pub struct Binary64 {
    pub bits: u64,
}

impl Binary64 {
    /// Whether the sign is negative.
    pub open spec fn negative(self) -> bool {
        self.bits >= SIGN
    }

    /// The bits without the sign: a number that grows with the magnitude.
    pub open spec fn code(self) -> int {
        self.bits as int % SIGN as int
    }

    /// Whether the number is neither infinite nor undefined.
    pub open spec fn is_finite(self) -> bool {
        self.code() < INFINITE_CODE
    }

    /// Whether the number is infinite.
    pub open spec fn is_infinite(self) -> bool {
        self.code() == INFINITE_CODE
    }

    /// Whether the number is the result of an undefined operation.
    pub open spec fn is_undefined(self) -> bool {
        self.code() > INFINITE_CODE
    }

    /// The significant digits, as a whole number.
    pub open spec fn digits(self) -> int {
        if self.code() < ORDER {
            self.code()
        } else {
            ORDER + self.code() % ORDER as int
        }
    }

    /// The exponent of the last digit, in units.
    pub open spec fn scale(self) -> int {
        if self.code() < ORDER {
            0
        } else {
            self.code() / ORDER as int - 1
        }
    }

    /// The magnitude in units.
    pub open spec fn units(self) -> nat {
        (self.digits() * p(self.scale())) as nat
    }

    /// The value in units.
    pub open spec fn value(self) -> int {
        if self.negative() {
            -(self.units() as int)
        } else {
            self.units() as int
        }
    }
}

/// The number with the given sign and code, infinite where the code is beyond
/// all finite ones.
pub open spec fn encoded(negative: bool, code: nat) -> Binary64 {
    let sign = if negative {
        SIGN as nat
    } else {
        0
    };
    let rest = if code >= INFINITE_CODE {
        INFINITE_CODE as nat
    } else {
        code
    };
    Binary64 { bits: (sign + rest) as u64 }
}

/// The result of an undefined operation.
pub open spec fn undefined() -> Binary64 {
    Binary64 { bits: 0x7ff8_0000_0000_0000 }
}

/// What sign, code, digits and scale are of an encoded number.
pub proof fn lemma_encoded(negative: bool, code: nat)
    ensures
        encoded(negative, code).negative() == negative,
        encoded(negative, code).code() == if code >= INFINITE_CODE {
            INFINITE_CODE as int
        } else {
            code as int
        },
{
}

/// Bounds on digits and scale, and what they make of the code.
pub proof fn lemma_decoded(x: Binary64)
    ensures
        0 <= x.code() < SIGN,
        0 <= x.digits() < 2 * ORDER,
        x.is_finite() ==> 0 <= x.scale() <= 2045,
        x.scale() > 0 ==> x.digits() >= ORDER,
        x.code() == x.scale() * ORDER + x.digits(),
        x.units() == x.digits() * p(x.scale()),
        x.bits == x.code() + if x.negative() {
            SIGN as int
        } else {
            0
        },
{
    p_pos(x.scale());
    assert(x.digits() * p(x.scale()) >= 0) by (nonlinear_arith)
        requires
            x.digits() >= 0,
            p(x.scale()) > 0,
    ;
}

/// The number with the given sign and code.
pub(crate) fn encode(negative: bool, code: u128) -> (r: Binary64)
    ensures
        r == encoded(negative, code as nat),
{
    let rest: u64 = if code >= INFINITE_CODE as u128 {
        INFINITE_CODE
    } else {
        code as u64
    };
    if negative {
        Binary64 { bits: SIGN + rest }
    } else {
        Binary64 { bits: rest }
    }
}

/// The number nearest to what lies from `q 2^t` units on, but below
/// `(q + 1) 2^t`; it is more than `q 2^t` where `sticky` holds.
pub(crate) fn finish(negative: bool, q: u128, t: i32, sticky: bool) -> (r: Binary64)
    requires
        0 < q < p(126),
        -SHIFT <= t <= SHIFT,
    ensures
        r == encoded(negative, finished(q as nat, t as int, sticky)),
{
    let l: i32 = digit_count(q) as i32;
    let s: i32 = if l + t > 53 {
        l + t - 53
    } else {
        0
    };
    proof {
        lemma_length(q as nat);
        p_values();
    }
    assert(0 <= s * ORDER <= 9000 * ORDER) by (nonlinear_arith)
        requires
            0 <= s <= 9000,
    ;
    let base: u128 = (s as u128) * (ORDER as u128);
    if s >= t {
        let k: u32 = (s - t) as u32;
        proof {
            p_pos(k as int);
            p_mono(l as int, k + 53);
            p_add(k as int, 53);
        }
        if k >= 127 {
            proof {
                p_mono(126, k as int);
                vstd::arithmetic::div_mod::lemma_small_mod(q as nat, p(k as int) as nat);
                vstd::arithmetic::div_mod::lemma_basic_div(q as int, p(k as int));
            }
            return encode(negative, base);
        }
        let w = power(k);
        let digits: u128 = q / w;
        let rest: u128 = q % w;
        assert(digits < 0x20_0000_0000_0000) by (nonlinear_arith)
            requires
                digits == q / w,
                q < w * 0x20_0000_0000_0000,
                w > 0,
        ;
        let half_up: bool = rest > w - rest || (rest == w - rest && (sticky || digits % 2 == 1));
        if half_up {
            encode(negative, base + digits + 1)
        } else {
            encode(negative, base + digits)
        }
    } else {
        let k: u32 = (t - s) as u32;
        proof {
            p_mono(l + k, 53);
            p_add(l as int, k as int);
            assert(q * p(k as int) <= p(l as int) * p(k as int)) by (nonlinear_arith)
                requires
                    q <= p(l as int),
                    p(k as int) > 0,
            ;
        }
        let w = power(k);
        encode(negative, base + q * w)
    }
}

/// The bits of the largest finite number.
pub const LARGEST_BITS: u64 = 0x7fef_ffff_ffff_ffff;

impl Scalar for Binary64 {
    open spec fn s_add(self, other: Self) -> Self {
        sum(self, other)
    }

    open spec fn s_sub(self, other: Self) -> Self {
        sum(self, opposite(other))
    }

    open spec fn s_mul(self, other: Self) -> Self {
        product(self, other)
    }

    open spec fn s_div(self, other: Self) -> Self {
        quotient(self, other)
    }

    open spec fn s_neg(self) -> Self {
        opposite(self)
    }

    open spec fn s_abs(self) -> Self {
        Binary64 { bits: self.code() as u64 }
    }

    open spec fn s_sqrt(self) -> Self {
        square_root(self)
    }

    open spec fn s_exp(self) -> Self {
        exponential(self)
    }

    open spec fn s_erf(self) -> Self {
        error(self)
    }

    open spec fn s_tan(self) -> Self {
        tangent(self)
    }

    open spec fn s_lt(self, other: Self) -> bool {
        precedes(self, other)
    }

    open spec fn s_le(self, other: Self) -> bool {
        precedes(self, other) || equal(self, other)
    }

    open spec fn s_eq(self, other: Self) -> bool {
        equal(self, other)
    }

    open spec fn s_finite(self) -> bool {
        self.is_finite()
    }

    open spec fn s_int(value: int) -> Self {
        integer(value)
    }

    open spec fn s_pi() -> Self {
        circle()
    }

    open spec fn s_cast(self, f: Format) -> Self {
        narrowing(self, f)
    }

    open spec fn s_largest(f: Format) -> Self {
        Binary64 { bits: largest_bits(f) }
    }

    fn plus(self, other: Self) -> (r: Self) {
        add_numbers(self, other)
    }

    fn minus(self, other: Self) -> (r: Self) {
        add_numbers(self, negate_number(other))
    }

    fn times(self, other: Self) -> (r: Self) {
        multiply_numbers(self, other)
    }

    fn over(self, other: Self) -> (r: Self) {
        divide_numbers(self, other)
    }

    fn negated(self) -> (r: Self) {
        negate_number(self)
    }

    fn magnitude(self) -> (r: Self) {
        Binary64 { bits: self.bits % SIGN }
    }

    fn root(self) -> (r: Self) {
        root_number(self)
    }

    fn exponential(self) -> (r: Self) {
        exponential_number(self)
    }

    fn error_function(self) -> (r: Self) {
        error_number(self)
    }

    fn tangent(self) -> (r: Self) {
        tangent_number(self)
    }

    fn less(self, other: Self) -> (r: bool) {
        is_less(self, other)
    }

    fn at_most(self, other: Self) -> (r: bool) {
        is_less(self, other) || is_equal(self, other)
    }

    fn equals(self, other: Self) -> (r: bool) {
        is_equal(self, other)
    }

    fn finite(self) -> (r: bool) {
        self.bits % SIGN < INFINITE_CODE
    }

    fn whole(value: i32) -> (r: Self) {
        from_integer(value)
    }

    fn pi() -> (r: Self) {
        Binary64 { bits: PI_BITS }
    }

    fn narrowed(self, f: Format) -> (r: Self) {
        narrow_number(self, f)
    }

    fn largest(f: Format) -> (r: Self) {
        largest_number(f)
    }
}

} // verus!
