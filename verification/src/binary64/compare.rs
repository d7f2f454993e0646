//! Order.
use vstd::prelude::*;

use crate::binary64::rounding::{INFINITE_CODE, ORDER};
use crate::binary64::{Binary64, SIGN};

verus! {

use crate::binary64::lemma_decoded;
use crate::binary64::rounding::{p, p_mono, p_pos};

/// The place of a number in the order of all numbers, both zeros at zero.
pub open spec fn rank(x: Binary64) -> int {
    if x.negative() {
        -x.code()
    } else {
        x.code()
    }
}

/// Whether `a` is less than `b`; nothing is less or more than an undefined
/// result.
pub open spec fn precedes(a: Binary64, b: Binary64) -> bool {
    !a.is_undefined() && !b.is_undefined() && rank(a) < rank(b)
}

/// Whether `a` and `b` are the same number; an undefined result is not even
/// itself.
pub open spec fn equal(a: Binary64, b: Binary64) -> bool {
    !a.is_undefined() && !b.is_undefined() && rank(a) == rank(b)
}

/// The magnitude grows with the code.
pub proof fn lemma_units_grow(a: Binary64, b: Binary64)
    requires
        a.is_finite(),
        b.is_finite(),
        a.code() < b.code(),
    ensures
        a.units() < b.units(),
{
    lemma_decoded(a);
    lemma_decoded(b);
    let x = a.scale();
    let y = b.scale();
    p_pos(x);
    p_pos(y);
    if x == y {
        assert(a.digits() * p(x) < b.digits() * p(y)) by (nonlinear_arith)
            requires
                a.digits() < b.digits(),
                x == y,
                p(x) > 0,
        ;
    } else {
        assert(x < y) by {
            if x > y {
                assert(a.scale() * ORDER >= (b.scale() + 1) * ORDER) by (nonlinear_arith)
                    requires
                        a.scale() >= b.scale() + 1,
                ;
            }
        }
        p_mono(x, y);
        assert(a.digits() * p(x) < b.digits() * p(y)) by (nonlinear_arith)
            requires
                0 <= a.digits() < 2 * ORDER,
                b.digits() >= ORDER,
                2 * p(x) <= p(y),
                p(x) > 0,
        ;
    }
}

/// Finite numbers are ordered as their values are.
pub proof fn law_order_of_values(a: Binary64, b: Binary64)
    requires
        a.is_finite(),
        b.is_finite(),
    ensures
        precedes(a, b) <==> a.value() < b.value(),
        equal(a, b) <==> a.value() == b.value(),
{
    lemma_decoded(a);
    lemma_decoded(b);
    let zero = Binary64 { bits: 0 };
    lemma_decoded(zero);
    assert(zero.units() == 0) by (nonlinear_arith)
        requires
            zero.units() == zero.digits() * p(zero.scale()),
            zero.digits() == 0,
    ;
    if a.code() < b.code() {
        lemma_units_grow(a, b);
    } else if b.code() < a.code() {
        lemma_units_grow(b, a);
    }
    if zero.code() < a.code() {
        lemma_units_grow(zero, a);
    }
    if zero.code() < b.code() {
        lemma_units_grow(zero, b);
    }
    assert(a.code() == b.code() ==> a.units() == b.units());
    assert(a.code() == 0 ==> a.units() == 0);
    assert(b.code() == 0 ==> b.units() == 0);
}

/// The place of a number in the order of all numbers.
fn rank_of(x: Binary64) -> (r: i64)
    ensures
        r == rank(x),
{
    let code: i64 = (x.bits % SIGN) as i64;
    if x.bits >= SIGN {
        -code
    } else {
        code
    }
}

/// Whether a number is the result of an undefined operation.
pub fn is_nan(x: Binary64) -> (r: bool)
    ensures
        r == x.is_undefined(),
{
    x.bits % SIGN > INFINITE_CODE
}

/// Whether `a` is less than `b`.
pub fn is_less(a: Binary64, b: Binary64) -> (r: bool)
    ensures
        r == precedes(a, b),
{
    !is_nan(a) && !is_nan(b) && rank_of(a) < rank_of(b)
}

/// Whether `a` and `b` are the same number.
pub fn is_equal(a: Binary64, b: Binary64) -> (r: bool)
    ensures
        r == equal(a, b),
{
    !is_nan(a) && !is_nan(b) && rank_of(a) == rank_of(b)
}

} // verus!
