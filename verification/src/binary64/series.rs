//! Exponentials, error functions and tangents by their power series.
use vstd::prelude::*;

use crate::binary64::arithmetic::{
    add_numbers, divide_numbers, from_integer, multiply_numbers, negate_number, root_number,
};
use crate::binary64::compare::is_less;
use crate::binary64::Binary64;

verus! {

use crate::binary64::arithmetic::{integer, opposite, product, quotient, square_root, sum};
use crate::binary64::compare::precedes;

/// The bits of the number nearest to the circle constant.
pub const PI_BITS: u64 = 0x4009_21fb_5444_2d18;

/// Terms of the exponential series.
pub const EXPONENTIAL_TERMS: i32 = 24;

/// Terms of the series of the error function.
pub const ERROR_TERMS: i32 = 200;

/// Terms of the series of sine and cosine.
pub const TRIGONOMETRIC_TERMS: i32 = 24;

/// How often the argument of the exponential is halved at most.
pub const HALVINGS: u32 = 11;

/// The number nearest to the circle constant.
pub open spec fn circle() -> Binary64 {
    Binary64 { bits: PI_BITS }
}

/// The rest of `1 + y + y^2/2! + ...` from term `k` on.
pub open spec fn exponential_from(y: Binary64, term: Binary64, total: Binary64, k: int) -> Binary64
    decreases EXPONENTIAL_TERMS - k,
{
    if k >= EXPONENTIAL_TERMS {
        total
    } else {
        let next = product(term, quotient(y, integer(k)));
        exponential_from(y, next, sum(total, next), k + 1)
    }
}

/// The exponential of a number that is not negative: the series up to one, and
/// the square of the exponential of half the number beyond, with up to `n`
/// halvings.
pub open spec fn rising(x: Binary64, n: nat) -> Binary64
    decreases n,
{
    if n > 0 && precedes(integer(1), x) {
        let half = rising(quotient(x, integer(2)), (n - 1) as nat);
        product(half, half)
    } else {
        exponential_from(x, integer(1), integer(1), 1)
    }
}

/// The exponential.
pub open spec fn exponential(x: Binary64) -> Binary64 {
    if precedes(x, integer(0)) {
        quotient(integer(1), rising(opposite(x), HALVINGS as nat))
    } else {
        rising(x, HALVINGS as nat)
    }
}

/// The rest of `x + 2 x^3/3 + 4 x^5/15 + ...` from term `k` on, for
/// `twice = 2 x^2`.
pub open spec fn error_from(twice: Binary64, term: Binary64, total: Binary64, k: int) -> Binary64
    decreases ERROR_TERMS - k,
{
    if k >= ERROR_TERMS {
        total
    } else {
        let next = product(term, quotient(twice, integer(2 * k + 1)));
        error_from(twice, next, sum(total, next), k + 1)
    }
}

/// The error function of a number that is not negative.
pub open spec fn error_rising(x: Binary64) -> Binary64 {
    if precedes(integer(6), x) {
        integer(1)
    } else {
        let square = product(x, x);
        product(
            product(quotient(integer(2), square_root(circle())), exponential(opposite(square))),
            error_from(product(integer(2), square), x, x, 1),
        )
    }
}

/// The error function.
pub open spec fn error(x: Binary64) -> Binary64 {
    if precedes(x, integer(0)) {
        opposite(error_rising(opposite(x)))
    } else {
        error_rising(x)
    }
}

/// The rest of an alternating series from term `k` on: each term is the last one
/// times `step` over `(2k + first - 1) (2k + first)`.
pub open spec fn alternating_from(
    step: Binary64,
    first: int,
    term: Binary64,
    total: Binary64,
    k: int,
) -> Binary64
    decreases TRIGONOMETRIC_TERMS - k,
{
    if k >= TRIGONOMETRIC_TERMS {
        total
    } else {
        let next = product(term, quotient(step, integer((2 * k + first - 1) * (2 * k + first))));
        alternating_from(step, first, next, sum(total, next), k + 1)
    }
}

/// The tangent: sine over cosine.
pub open spec fn tangent(x: Binary64) -> Binary64 {
    let step = opposite(product(x, x));
    quotient(
        alternating_from(step, 1, x, x, 1),
        alternating_from(step, 0, integer(1), integer(1), 1),
    )
}

/// The exponential of a number that is not negative.
fn rising_exponential(x: Binary64, n: u32) -> (r: Binary64)
    ensures
        r == rising(x, n as nat),
    decreases n,
{
    if n > 0 && is_less(from_integer(1), x) {
        let half = rising_exponential(divide_numbers(x, from_integer(2)), n - 1);
        return multiply_numbers(half, half);
    }
    let mut term = from_integer(1);
    let mut total = from_integer(1);
    let mut k: i32 = 1;
    let ghost whole = exponential_from(x, term, total, 1);
    while k < EXPONENTIAL_TERMS
        invariant
            1 <= k <= EXPONENTIAL_TERMS,
            whole == exponential_from(x, term, total, k as int),
        decreases EXPONENTIAL_TERMS - k,
    {
        term = multiply_numbers(term, divide_numbers(x, from_integer(k)));
        total = add_numbers(total, term);
        k += 1;
    }
    total
}

/// The exponential.
pub fn exponential_number(x: Binary64) -> (r: Binary64)
    ensures
        r == exponential(x),
{
    if is_less(x, from_integer(0)) {
        divide_numbers(from_integer(1), rising_exponential(negate_number(x), HALVINGS))
    } else {
        rising_exponential(x, HALVINGS)
    }
}

/// The error function of a number that is not negative.
fn rising_error(x: Binary64) -> (r: Binary64)
    ensures
        r == error_rising(x),
{
    if is_less(from_integer(6), x) {
        return from_integer(1);
    }
    let square = multiply_numbers(x, x);
    let twice = multiply_numbers(from_integer(2), square);
    let mut term = x;
    let mut total = x;
    let mut k: i32 = 1;
    let ghost whole = error_from(twice, x, x, 1);
    while k < ERROR_TERMS
        invariant
            1 <= k <= ERROR_TERMS,
            whole == error_from(twice, term, total, k as int),
        decreases ERROR_TERMS - k,
    {
        term = multiply_numbers(term, divide_numbers(twice, from_integer(2 * k + 1)));
        total = add_numbers(total, term);
        k += 1;
    }
    let factor = divide_numbers(from_integer(2), root_number(Binary64 { bits: PI_BITS }));
    multiply_numbers(
        multiply_numbers(factor, exponential_number(negate_number(square))),
        total,
    )
}

/// The error function.
pub fn error_number(x: Binary64) -> (r: Binary64)
    ensures
        r == error(x),
{
    if is_less(x, from_integer(0)) {
        negate_number(rising_error(negate_number(x)))
    } else {
        rising_error(x)
    }
}

/// The sum of an alternating series.
fn alternating(step: Binary64, first: i32, start: Binary64) -> (r: Binary64)
    requires
        0 <= first <= 1,
    ensures
        r == alternating_from(step, first as int, start, start, 1),
{
    let mut term = start;
    let mut total = start;
    let mut k: i32 = 1;
    while k < TRIGONOMETRIC_TERMS
        invariant
            1 <= k <= TRIGONOMETRIC_TERMS,
            0 <= first <= 1,
            alternating_from(step, first as int, start, start, 1) == alternating_from(
                step,
                first as int,
                term,
                total,
                k as int,
            ),
        decreases TRIGONOMETRIC_TERMS - k,
    {
        let low: i32 = 2 * k + first - 1;
        let high: i32 = 2 * k + first;
        assert(0 <= low * high <= 100 * 100) by (nonlinear_arith)
            requires
                0 <= low <= 100,
                0 <= high <= 100,
        ;
        term = multiply_numbers(term, divide_numbers(step, from_integer(low * high)));
        total = add_numbers(total, term);
        k += 1;
    }
    total
}

/// The tangent.
pub fn tangent_number(x: Binary64) -> (r: Binary64)
    ensures
        r == tangent(x),
{
    let step = negate_number(multiply_numbers(x, x));
    divide_numbers(alternating(step, 1, x), alternating(step, 0, from_integer(1)))
}

} // verus!
