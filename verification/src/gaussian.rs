//! The standard normal distribution and the rectified moments of its tail,
//! evaluated one number at a time.
use vstd::prelude::*;

use crate::scalar::Scalar;

verus! {

use crate::scalar::half;

/// How many terms of the normal series are summed at most.
pub const SERIES_TERMS: i32 = 200;

/// The level at which the continued fraction of the normal tail is cut off.
pub const FRACTION_DEPTH: i32 = 96;

/// The standard normal density, `exp(-x^2 / 2) / sqrt(2 pi)`.
pub open spec fn density<S: Scalar>(x: S) -> S {
    half::<S>().s_neg().s_mul(x).s_mul(x).s_exp().s_div(S::s_int(2).s_mul(S::s_pi()).s_sqrt())
}

/// The rest of the series `x + x^3/3 + x^5/(3*5) + ...`, from the term after
/// `term` on: term `k` is term `k - 1` times `x^2 / (2k + 1)`, and the sum ends
/// where a term no longer changes it, or with [`SERIES_TERMS`].
pub open spec fn series_from<S: Scalar>(x: S, term: S, sum: S, k: int) -> S
    decreases SERIES_TERMS - k,
{
    if k >= SERIES_TERMS {
        sum
    } else {
        let next_term = term.s_mul(x.s_mul(x).s_div(S::s_int(2 * k + 1)));
        let next = sum.s_add(next_term);
        if next.s_eq(sum) {
            sum
        } else {
            series_from(x, next_term, next, k + 1)
        }
    }
}

/// `x` restricted to the interval from `low` to `high`.
pub open spec fn clamped<S: Scalar>(x: S, low: S, high: S) -> S {
    if x.s_lt(low) {
        low
    } else if high.s_lt(x) {
        high
    } else {
        x
    }
}

/// The standard normal distribution function at `x`, for the density `pdf` at
/// `x`: one half plus the density times the series in `x`, kept within
/// `[0, 1]`.
pub open spec fn distribution<S: Scalar>(x: S, pdf: S) -> S {
    clamped(
        half::<S>().s_add(pdf.s_mul(series_from(x, x, x, 1))),
        S::s_int(0),
        S::s_int(1),
    )
}

/// Level `n` of the Laplace continued fraction of the normal tail at `t`:
/// `n / (t + (n + 1) / (t + ...))`, cut off after [`FRACTION_DEPTH`].
pub open spec fn tail_fraction<S: Scalar>(t: S, n: int) -> S
    decreases FRACTION_DEPTH + 1 - n,
{
    if n > FRACTION_DEPTH {
        S::s_int(0)
    } else {
        S::s_int(n).s_div(t.s_add(tail_fraction(t, n + 1)))
    }
}

/// The mean of the rectified normal with mean `-t` and unit variance, for the
/// density `pdf` at `t`.
pub open spec fn tail_mean<S: Scalar>(t: S, pdf: S) -> S {
    let r1 = S::s_int(1).s_div(t.s_add(tail_fraction(t, 2)));
    pdf.s_mul(r1).s_div(t.s_add(r1))
}

/// The variance that goes with [`tail_mean`].
pub open spec fn tail_variance<S: Scalar>(t: S, pdf: S) -> S {
    let mean = tail_mean(t, pdf);
    mean.s_mul(tail_fraction(t, 2)).s_sub(mean.s_mul(mean))
}

/// Standard normal density.
pub fn std_normal_pdf<S: Scalar>(x: S) -> (r: S)
    ensures
        r == density(x),
{
    let minus_half = S::whole(1).over(S::whole(2)).negated();
    minus_half.times(x).times(x).exponential().over(S::whole(2).times(S::pi()).root())
}

/// Standard normal distribution function from its convergent series
/// (Marsaglia, 2004), for the density `pdf` at `x`.
///
/// Meant for arguments of moderate size; far below zero the series cancels,
/// and [`negative_relu_moments`] takes its place.
pub fn std_normal_cdf<S: Scalar>(x: S, pdf: S) -> (r: S)
    ensures
        r == distribution(x, pdf),
{
    let mut term = x;
    let mut sum = x;
    let mut k: i32 = 1;
    let mut settled = false;
    while k < SERIES_TERMS && !settled
        invariant
            1 <= k <= SERIES_TERMS,
            settled ==> sum == series_from(x, x, x, 1),
            !settled ==> series_from(x, term, sum, k as int) == series_from(x, x, x, 1),
        decreases SERIES_TERMS - k + if settled { 0int } else { 1int },
    {
        term = term.times(x.times(x).over(S::whole(2 * k + 1)));
        let next = sum.plus(term);
        if next.equals(sum) {
            settled = true;
        } else {
            sum = next;
            k += 1;
        }
    }
    clamp(S::whole(1).over(S::whole(2)).plus(pdf.times(sum)), S::whole(0), S::whole(1))
}

/// `x` restricted to the interval from `low` to `high`.
pub fn clamp<S: Scalar>(x: S, low: S, high: S) -> (r: S)
    ensures
        r == clamped(x, low, high),
{
    if x.less(low) {
        low
    } else if high.less(x) {
        high
    } else {
        x
    }
}

/// Mean and variance of the rectified normal with mean `-t` and unit variance,
/// without subtracting nearly equal tail terms.
///
/// With `r_n = n / (t + r_(n+1))`, the ratio of the tail to its density is
/// `1 / (t + r_1)`; see DLMF 7.9 and 7.18.
pub fn negative_relu_moments<S: Scalar>(t: S, pdf: S) -> (r: (S, S))
    ensures
        r.0 == tail_mean(t, pdf),
        r.1 == tail_variance(t, pdf),
{
    let mut ratio = S::whole(0);
    let mut n: i32 = FRACTION_DEPTH;
    while n >= 2
        invariant
            1 <= n <= FRACTION_DEPTH,
            ratio == tail_fraction(t, n + 1),
        decreases n,
    {
        ratio = S::whole(n).over(t.plus(ratio));
        n -= 1;
    }
    let r1 = S::whole(1).over(t.plus(ratio));
    let mean = pdf.times(r1).over(t.plus(r1));
    (mean, mean.times(ratio).minus(mean.times(mean)))
}

} // verus!
