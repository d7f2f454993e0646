//! In double precision the rectifier's probabilities are finite.
use vstd::prelude::*;

use crate::backend::Format;
use crate::binary64::rounding::ORDER;
use crate::binary64::series::{ERROR_TERMS, EXPONENTIAL_TERMS, HALVINGS};
use crate::binary64::{Binary64, UNIT};
use crate::dense::Dense;
use crate::scalar::Scalar;

verus! {

use crate::binary64::arithmetic::{integer, opposite, product, quotient, square_root, sum};
use crate::binary64::bounds::{
    beyond, lemma_beyond_less, lemma_finite_units, lemma_integer_bounds, lemma_nearest_at_most,
    lemma_power_units, lemma_product_beyond, lemma_product_within, lemma_quotient_within,
    lemma_root_at_least, lemma_root_at_most, lemma_root_beyond, lemma_root_within, lemma_sum_beyond,
    lemma_sum_within, lemma_within_more, within,
};
use crate::binary64::compare::{lemma_units_grow, precedes};
use crate::binary64::rounding::{
    length, lemma_length, nearest, nearest_root, p, p_add, p_mono, p_pos,
};
use crate::binary64::series::{
    circle, error, error_from, error_rising, exponential, exponential_from, rising,
};
use crate::binary64::{lemma_decoded, lemma_encoded};
use crate::burn_sdp::rectify::{
    alpha_of, central_mass, density_of, first_ratio, in_tail, leaky_mean, leaky_variance, relu_mean,
    relu_variance, safe_deviation, safe_variance, second_ratio, smooth_mass, tail_mass, tail_point,
    tail_ratio,
};
use crate::laws::arithmetic::{is_zero, same};
use crate::laws::diagonal::law_leaky_without_slope;
use crate::laws::double::{law_dense_double_is_neutral, lemma_small_integers, lemma_times_zero};
use crate::scalar::{half, peak_density};

/// Plain vectors in double precision.
type D = Dense<Binary64>;

/// Small powers of two.
pub proof fn lemma_small_powers()
    ensures
        p(0) == 1,
        p(1) == 2,
        p(2) == 4,
        p(3) == 8,
        p(4) == 16,
        p(5) == 32,
        p(6) == 64,
        p(7) == 128,
        p(9) == 512,
{
    vstd::arithmetic::power2::lemma2_to64();
}

/// The number with the other sign has the same magnitude.
pub proof fn lemma_opposite(x: Binary64)
    ensures
        opposite(x).code() == x.code(),
        opposite(x).negative() == !x.negative(),
        opposite(x).units() == x.units(),
{
    lemma_decoded(x);
    lemma_decoded(opposite(x));
}

/// A number of code zero has value zero.
pub proof fn lemma_zero_value(x: Binary64)
    requires
        x.code() == 0,
    ensures
        x.value() == 0,
        x.units() == 0,
{
    lemma_decoded(x);
    assert(x.units() == 0) by (nonlinear_arith)
        requires
            x.units() == x.digits() * p(x.scale()),
            x.digits() == 0,
    ;
}

/// A number that is not zero has magnitude.
pub proof fn lemma_some_units(x: Binary64)
    requires
        x.is_finite(),
        x.code() > 0,
    ensures
        x.units() > 0,
{
    let zero = Binary64 { bits: 0 };
    lemma_zero_value(zero);
    lemma_units_grow(zero, x);
}

/// Products of numbers that are not negative are not.
pub proof fn lemma_product_sign(a: Binary64, b: Binary64)
    requires
        a.is_finite(),
        b.is_finite(),
        a.value() >= 0,
        b.value() >= 0,
        product(a, b).is_finite(),
    ensures
        product(a, b).value() >= 0,
{
    if a.negative() {
        if a.code() > 0 {
            lemma_some_units(a);
        }
        lemma_times_zero(b, a);
        crate::laws::double::law_double_commutes();
        reveal(crate::laws::arithmetic::multiplication_commutes);
        assert(a.s_mul(b) == b.s_mul(a));
        lemma_zero_value(product(a, b));
    } else if b.negative() {
        if b.code() > 0 {
            lemma_some_units(b);
        }
        lemma_times_zero(a, b);
        lemma_zero_value(product(a, b));
    } else {
        lemma_encoded(false, nearest(a.units() * b.units(), p(UNIT as int) as nat));
    }
}

/// Quotients of a number that is not negative by a positive whole number are not
/// negative.
pub proof fn lemma_quotient_sign(a: Binary64, b: Binary64)
    requires
        a.is_finite(),
        a.value() >= 0,
        beyond(b, 0),
        quotient(a, b).is_finite(),
    ensures
        quotient(a, b).value() >= 0,
{
    if a.negative() {
        if a.code() > 0 {
            lemma_some_units(a);
        }
        crate::laws::double::lemma_zero_over(a, b);
        lemma_zero_value(quotient(a, b));
    } else {
        lemma_encoded(
            false,
            nearest(a.units() * p(UNIT as int) as nat, b.units()),
        );
    }
}

/// The exponential series up to one.
pub proof fn lemma_exponential_series(y: Binary64, term: Binary64, total: Binary64, k: int)
    requires
        within(y, 0),
        y.value() >= 0,
        within(term, 0),
        term.value() >= 0,
        1 <= k <= EXPONENTIAL_TERMS,
        within(total, k),
        beyond(total, 0),
    ensures
        within(exponential_from(y, term, total, k), EXPONENTIAL_TERMS as int),
        beyond(exponential_from(y, term, total, k), 0),
    decreases EXPONENTIAL_TERMS - k,
{
    if k < EXPONENTIAL_TERMS {
        lemma_small_powers();
        lemma_integer_bounds(k, 0, 5);
        let part = quotient(y, integer(k));
        lemma_quotient_within(y, integer(k), 0, 0);
        lemma_quotient_sign(y, integer(k));
        let next = product(term, part);
        lemma_product_within(term, part, 0, 0);
        lemma_product_sign(term, part);
        lemma_within_more(next, 0, k);
        lemma_sum_within(total, next, k);
        lemma_sum_beyond(total, next, 0);
        lemma_exponential_series(y, next, sum(total, next), k + 1);
    }
}

/// The rising exponential is at least one, finite or not.
pub proof fn lemma_rising(y: Binary64, n: nat, j: int)
    requires
        0 <= j <= n,
        j <= 10,
        within(y, j),
        y.value() >= 0,
    ensures
        !rising(y, n).is_undefined(),
        !rising(y, n).negative(),
        rising(y, n).code() >= 1023 * ORDER,
        within(y, 0) ==> within(rising(y, n), EXPONENTIAL_TERMS as int),
    decreases n,
{
    lemma_small_integers();
    lemma_small_powers();
    lemma_integer_bounds(1, 0, 0);
    lemma_integer_bounds(2, 1, 1);
    lemma_decoded(y);
    if n > 0 && precedes(integer(1), y) {
        assert(j > 0);
        let part = quotient(y, integer(2));
        lemma_quotient_within(y, integer(2), j, 1);
        lemma_beyond_less(integer(2), 1, 0);
        lemma_quotient_sign(y, integer(2));
        lemma_rising(part, (n - 1) as nat, j - 1);
        let h = rising(part, (n - 1) as nat);
        if h.is_finite() {
            lemma_product_beyond(h, h, 0, 0);
        } else {
            lemma_encoded(false, crate::binary64::rounding::INFINITE_CODE as nat);
        }
    } else {
        assert(within(y, 0)) by {
            if y.negative() {
                if y.code() > 0 {
                    lemma_some_units(y);
                }
            }
        }
        lemma_within_more(integer(1), 0, 1);
        lemma_exponential_series(y, integer(1), integer(1), 1);
    }
}

/// The exponential of a negative number is at most one.
pub proof fn lemma_exponential_below(x: Binary64)
    requires
        within(x, 10),
        precedes(x, integer(0)),
    ensures
        within(exponential(x), 0),
        !exponential(x).negative(),
{
    lemma_small_integers();
    lemma_small_powers();
    lemma_integer_bounds(1, 0, 0);
    lemma_opposite(x);
    lemma_decoded(x);
    let one = integer(1);
    let y = opposite(x);
    lemma_rising(y, HALVINGS as nat, 10);
    let r = rising(y, HALVINGS as nat);
    if r.is_finite() {
        lemma_quotient_within(one, r, 0, 0);
    }
    lemma_encoded(false, nearest(one.units() * p(UNIT as int) as nat, r.units()));
    lemma_encoded(false, 0);
}

/// The exponential of a number that is not positive.
pub proof fn lemma_exponential_range(x: Binary64)
    requires
        within(x, 10),
        x.value() <= 0,
    ensures
        within(exponential(x), EXPONENTIAL_TERMS as int),
        exponential(x).value() >= 0,
{
    lemma_small_integers();
    lemma_small_powers();
    lemma_integer_bounds(1, 0, 0);
    lemma_opposite(x);
    lemma_decoded(x);
    let one = integer(1);
    if precedes(x, integer(0)) {
        let y = opposite(x);
        lemma_rising(y, HALVINGS as nat, 10);
        let r = rising(y, HALVINGS as nat);
        if r.is_finite() {
            lemma_quotient_within(one, r, 0, 0);
            lemma_quotient_sign(one, r);
            lemma_within_more(exponential(x), 0, EXPONENTIAL_TERMS as int);
        } else {
            lemma_encoded(false, 0);
            lemma_zero_value(exponential(x));
        }
    } else {
        // The number is zero.
        assert(x.code() == 0) by {
            if x.code() > 0 {
                lemma_some_units(x);
            }
        }
        lemma_zero_value(x);
        lemma_rising(x, HALVINGS as nat, 10);
    }
}

/// How far terms of the error series have grown, as an exponent.
pub open spec fn growth(k: int) -> int {
    if k <= 2 {
        3 + 6 * (k - 1)
    } else if k <= 4 {
        9 + 5 * (k - 2)
    } else if k <= 8 {
        19 + 4 * (k - 4)
    } else if k <= 16 {
        35 + 3 * (k - 8)
    } else if k <= 32 {
        59 + 2 * (k - 16)
    } else if k <= 64 {
        91 + (k - 32)
    } else {
        123
    }
}

/// The exponent of a lower bound on `2 k + 1`.
spec fn order(k: int) -> int {
    if k < 2 {
        1
    } else if k < 4 {
        2
    } else if k < 8 {
        3
    } else if k < 16 {
        4
    } else if k < 32 {
        5
    } else if k < 64 {
        6
    } else {
        7
    }
}

/// The error series stays finite.
pub proof fn lemma_error_series(twice: Binary64, term: Binary64, total: Binary64, k: int)
    requires
        within(twice, 7),
        1 <= k <= ERROR_TERMS,
        within(term, growth(k)),
        within(total, growth(k) + k),
    ensures
        within(error_from(twice, term, total, k), 323),
    decreases ERROR_TERMS - k,
{
    if k < ERROR_TERMS {
        lemma_small_powers();
        let n = integer(2 * k + 1);
        let part = quotient(twice, n);
        let next = product(term, part);
        let j = order(k);
        lemma_integer_bounds(2 * k + 1, j, 9);
        lemma_quotient_within(twice, n, 7, j);
        lemma_product_within(term, part, growth(k), 7 - j);
        lemma_within_more(next, growth(k + 1), growth(k + 1) + k);
        lemma_within_more(total, growth(k) + k, growth(k + 1) + k);
        lemma_sum_within(total, next, growth(k + 1) + k);
        lemma_error_series(twice, next, sum(total, next), k + 1);
    } else {
        lemma_within_more(total, growth(k) + k, 323);
    }
}

/// The circle constant lies between two and four.
pub proof fn lemma_circle()
    ensures
        beyond(circle(), 1),
        within(circle(), 2),
{
    lemma_decoded(circle());
}

/// The error function of a number that is not negative.
proof fn lemma_error_rising(x: Binary64)
    requires
        within(x, 5),
        x.value() >= 0,
    ensures
        within(error_rising(x), 348),
{
    lemma_small_integers();
    lemma_small_powers();
    lemma_decoded(x);
    lemma_integer_bounds(1, 0, 0);
    lemma_integer_bounds(2, 1, 1);
    lemma_integer_bounds(6, 2, 3);
    if precedes(integer(6), x) {
        lemma_within_more(integer(1), 0, 348);
    } else {
        assert(within(x, 3)) by {
            if x.negative() {
                if x.code() > 0 {
                    lemma_some_units(x);
                }
            }
        }
        let square = product(x, x);
        lemma_product_within(x, x, 3, 3);
        lemma_product_sign(x, x);
        lemma_opposite(square);
        lemma_within_more(square, 6, 10);
        lemma_exponential_range(opposite(square));
        lemma_circle();
        lemma_beyond_less(circle(), 1, 0);
        lemma_root_beyond(circle(), 0);
        lemma_quotient_within(integer(2), square_root(circle()), 1, 0);
        let factor = quotient(integer(2), square_root(circle()));
        let e = exponential(opposite(square));
        lemma_product_within(factor, e, 1, 24);
        lemma_product_within(integer(2), square, 1, 6);
        lemma_within_more(x, 3, 4);
        lemma_error_series(product(integer(2), square), x, x, 1);
        let total = error_from(product(integer(2), square), x, x, 1);
        lemma_product_within(product(factor, e), total, 25, 323);
    }
}

/// The error series at zero.
proof fn lemma_error_from_zero(twice: Binary64, term: Binary64, total: Binary64, k: int)
    requires
        twice.code() == 0,
        term.code() == 0,
        total.code() == 0,
        1 <= k <= ERROR_TERMS,
    ensures
        error_from(twice, term, total, k).code() == 0,
    decreases ERROR_TERMS - k,
{
    if k < ERROR_TERMS {
        lemma_small_powers();
        let n = integer(2 * k + 1);
        lemma_integer_bounds(2 * k + 1, 0, 9);
        assert(1023 * ORDER > 0);
        crate::laws::double::lemma_zero_over(twice, n);
        let part = quotient(twice, n);
        lemma_times_zero(term, part);
        let next = product(term, part);
        lemma_zero_value(total);
        lemma_zero_value(next);
        lemma_encoded(total.negative() && next.negative(), 0);
        lemma_error_from_zero(twice, next, sum(total, next), k + 1);
    }
}

/// The error function at zero is zero.
pub proof fn lemma_error_zero(x: Binary64)
    requires
        x.code() == 0,
    ensures
        error_rising(x).code() == 0,
{
    lemma_small_integers();
    lemma_small_powers();
    lemma_integer_bounds(2, 1, 1);
    lemma_integer_bounds(6, 2, 3);
    let square = product(x, x);
    lemma_times_zero(x, x);
    lemma_times_zero(integer(2), square);
    lemma_opposite(square);
    lemma_zero_value(square);
    lemma_zero_value(opposite(square));
    assert(within(opposite(square), 10));
    lemma_exponential_range(opposite(square));
    lemma_circle();
    lemma_beyond_less(circle(), 1, 0);
    lemma_root_beyond(circle(), 0);
    lemma_quotient_within(integer(2), square_root(circle()), 1, 0);
    let factor = quotient(integer(2), square_root(circle()));
    let e = exponential(opposite(square));
    lemma_product_within(factor, e, 1, 24);
    lemma_error_from_zero(product(integer(2), square), x, x, 1);
    let total = error_from(product(integer(2), square), x, x, 1);
    lemma_times_zero(product(factor, e), total);
}

/// The error function.
pub proof fn lemma_error_range(x: Binary64)
    requires
        within(x, 5),
    ensures
        within(error(x), 348),
{
    lemma_small_integers();
    lemma_decoded(x);
    lemma_opposite(x);
    if precedes(x, integer(0)) {
        let y = opposite(x);
        lemma_error_rising(y);
        lemma_opposite(error_rising(y));
    } else {
        if x.negative() {
            assert(x.code() == 0);
            lemma_zero_value(x);
        }
        lemma_error_rising(x);
    }
}

/// One half, its root, and the density at zero.
pub proof fn lemma_constants()
    ensures
        within(half::<Binary64>(), 0),
        half::<Binary64>().value() >= 0,
        within(half::<Binary64>().s_sqrt(), 0),
        within(peak_density::<Binary64>(), 0),
        peak_density::<Binary64>().value() >= 0,
{
    lemma_small_integers();
    lemma_small_powers();
    lemma_integer_bounds(1, 0, 0);
    lemma_integer_bounds(2, 1, 1);
    let one = integer(1);
    let two = integer(2);
    lemma_beyond_less(two, 1, 0);
    lemma_quotient_within(one, two, 0, 0);
    lemma_quotient_sign(one, two);
    let h = half::<Binary64>();
    assert(!h.negative()) by {
        lemma_encoded(false, nearest(one.units() * p(UNIT as int) as nat, two.units()));
    }
    lemma_root_within(h, 0);
    lemma_circle();
    lemma_product_within(two, circle(), 1, 2);
    lemma_product_beyond(two, circle(), 1, 1);
    let w = product(two, circle());
    lemma_beyond_less(w, 2, 0);
    lemma_root_beyond(w, 0);
    lemma_quotient_within(one, square_root(w), 0, 0);
    lemma_quotient_sign(one, square_root(w));
}

/// The ratio of mean to deviation is at most sixteen.
pub proof fn lemma_alpha_range(mu: Binary64, v: Binary64)
    requires
        mu.is_finite(),
        v.is_finite(),
    ensures
        within(alpha_of::<Dense<Binary64>>(Format::F64, mu, v), 4),
        beyond(safe_deviation::<Dense<Binary64>>(Format::F64, v), -537),
        within(safe_deviation::<Dense<Binary64>>(Format::F64, v), 512),
{
    lemma_small_integers();
    lemma_small_powers();
    lemma_integer_bounds(1, 0, 0);
    lemma_integer_bounds(8, 3, 3);
    let w = safe_variance::<Dense<Binary64>>(Format::F64, v);
    let sigma = safe_deviation::<Dense<Binary64>>(Format::F64, v);
    lemma_decoded(v);
    assert(w.is_finite() && w.code() > 0 && !w.negative());
    lemma_some_units(w);
    // At least one unit and less than 2^1024.
    let n = w.units() * p(UNIT as int) as nat;
    p_pos(UNIT as int);
    p_add(537, 537);
    lemma_finite_units(w);
    p_add(UNIT + 512, UNIT + 512);
    p_add(UNIT + 1024, UNIT as int);
    assert(p(537) * p(537) <= n <= p(UNIT + 512) * p(UNIT + 512)) by (nonlinear_arith)
        requires
            n == w.units() * p(UNIT as int),
            1 <= w.units() <= p(UNIT + 1024),
            p(537) * p(537) == p(UNIT as int),
            p(UNIT + 1024) * p(UNIT as int) == p(UNIT + 512) * p(UNIT + 512),
            p(UNIT as int) > 0,
    ;
    lemma_root_at_least(n, 537);
    lemma_root_at_most(n, UNIT + 512);
    lemma_encoded(false, nearest_root(n));
    assert(within(sigma, 512));
    assert(beyond(sigma, -537));
    lemma_power_units(sigma, -537);
    // Eight deviations are at most sixteen.
    let eight = integer(8);
    let limit = product(sigma, eight);
    lemma_product_within(sigma, eight, 512, 3);
    lemma_power_units(eight, 3);
    let k = length(sigma.units()) - 1;
    lemma_length(sigma.units());
    p_pos(537);
    if k < 537 {
        p_mono(k + 1, 537);
    }
    p_add(k + 1, 3);
    p_add(k + 4, UNIT as int);
    p_add(3, UNIT as int);
    p_add(4, k);
    let m = sigma.units() * eight.units();
    assert(m <= p(k + 4) * p(UNIT as int)) by (nonlinear_arith)
        requires
            m == sigma.units() * eight.units(),
            eight.units() == p(UNIT + 3),
            p(UNIT + 3) == p(3) * p(UNIT as int),
            sigma.units() < p(k + 1),
            p(k + 4) == p(k + 1) * p(3),
            p(UNIT as int) > 0,
            p(3) > 0,
    ;
    lemma_nearest_at_most(m, p(UNIT as int) as nat, k + 4);
    lemma_power_units(sigma, 512);
    if k > UNIT + 512 {
        p_mono(UNIT + 513, k);
        p_add(1, UNIT + 512);
    }
    assert(within(limit, k + 4 - UNIT)) by {
        lemma_encoded(sigma.negative() != eight.negative(), nearest(m, p(UNIT as int) as nat));
    }
    lemma_power_units(limit, k + 4 - UNIT);
    assert(limit.units() <= 16 * sigma.units());
    // So is the bounded mean.
    lemma_opposite(limit);
    lemma_decoded(mu);
    lemma_decoded(limit);
    lemma_decoded(opposite(limit));
    let zero = integer(0);
    let above = if precedes(limit, mu) {
        limit
    } else {
        mu
    };
    let bounded = if precedes(mu, opposite(limit)) {
        opposite(limit)
    } else {
        above
    };
    assert(bounded.is_finite() && bounded.units() <= limit.units()) by {
        if bounded == mu && mu.code() < limit.code() {
            lemma_units_grow(mu, limit);
        }
        assert(bounded.code() <= limit.code()) by {
            lemma_encoded(
                sigma.negative() != eight.negative(),
                nearest(m, p(UNIT as int) as nat),
            );
        }
    }
    let a = bounded.units() * p(UNIT as int) as nat;
    p_add(4, UNIT as int);
    assert(a <= p(UNIT + 4) * sigma.units()) by (nonlinear_arith)
        requires
            a == bounded.units() * p(UNIT as int),
            bounded.units() <= 16 * sigma.units(),
            p(UNIT + 4) == 16 * p(UNIT as int),
            p(UNIT as int) > 0,
    ;
    lemma_nearest_at_most(a, sigma.units(), UNIT + 4);
    assert(sigma.code() > 0);
    lemma_encoded(bounded.negative() != sigma.negative(), nearest(a, sigma.units()));
    assert(alpha_of::<Dense<Binary64>>(Format::F64, mu, v) == quotient(bounded, sigma));
}

/// The density.
pub proof fn lemma_density_range(a: Binary64)
    requires
        within(a, 4),
    ensures
        within(density_of::<Dense<Binary64>>(Format::F64, a), 24),
{
    lemma_constants();
    let h = half::<Binary64>();
    let square = product(a, a);
    lemma_product_within(a, a, 4, 4);
    lemma_opposite(h);
    let e = product(square, opposite(h));
    lemma_product_within(square, opposite(h), 8, 0);
    assert(e.value() <= 0) by {
        lemma_encoded(false, nearest(a.units() * a.units(), p(UNIT as int) as nat));
        assert(!square.negative());
        lemma_encoded(
            square.negative() != opposite(h).negative(),
            nearest(square.units() * opposite(h).units(), p(UNIT as int) as nat),
        );
        if h.negative() {
            assert(h.code() == 0) by {
                if h.code() > 0 {
                    lemma_some_units(h);
                }
            }
            lemma_times_zero(square, opposite(h));
            lemma_zero_value(e);
        }
    }
    lemma_within_more(e, 8, 10);
    lemma_exponential_range(e);
    lemma_product_within(exponential(e), peak_density::<Binary64>(), 24, 0);
}

/// The levels of the continued fraction.
proof fn lemma_ratio_range(t: Binary64, n: int, depth: int)
    requires
        within(t, 4),
        beyond(t, 1),
        1 <= n <= depth <= 96,
    ensures
        within(tail_ratio::<Dense<Binary64>>(Format::F64, t, n, depth), 7),
        tail_ratio::<Dense<Binary64>>(Format::F64, t, n, depth).value() >= 0,
    decreases depth - n,
{
    lemma_small_integers();
    lemma_small_powers();
    lemma_integer_bounds(1, 0, 0);
    lemma_integer_bounds(depth, 0, 7);
    lemma_integer_bounds(n, 0, 7);
    let one = integer(1);
    if n >= depth {
        lemma_quotient_within(one, t, 0, 1);
        lemma_beyond_less(t, 1, 0);
        lemma_quotient_sign(one, t);
        lemma_within_more(quotient(one, t), -1, 0);
        lemma_product_within(quotient(one, t), integer(depth), 0, 7);
        lemma_product_sign(quotient(one, t), integer(depth));
    } else {
        lemma_ratio_range(t, n + 1, depth);
        let r = tail_ratio::<Dense<Binary64>>(Format::F64, t, n + 1, depth);
        let s = sum(t, r);
        lemma_within_more(t, 4, 7);
        lemma_sum_within(t, r, 7);
        lemma_sum_beyond(t, r, 1);
        lemma_quotient_within(one, s, 0, 1);
        lemma_beyond_less(s, 1, 0);
        lemma_quotient_sign(one, s);
        lemma_within_more(quotient(one, s), -1, 0);
        lemma_product_within(quotient(one, s), integer(n), 0, 7);
        lemma_product_sign(quotient(one, s), integer(n));
    }
}

/// The continued fraction and the tail probability.
pub proof fn lemma_tail_range(a: Binary64)
    requires
        within(a, 4),
    ensures
        within(second_ratio::<D>(Format::F64, tail_point::<D>(Format::F64, a)), 7),
        within(first_ratio::<D>(Format::F64, tail_point::<D>(Format::F64, a)), 0),
        within(tail_mass::<D>(Format::F64, a), 23),
{
    lemma_small_integers();
    lemma_small_powers();
    lemma_integer_bounds(1, 0, 0);
    lemma_integer_bounds(2, 1, 1);
    let one = integer(1);
    lemma_density_range(a);
    let t = tail_point::<D>(Format::F64, a);
    lemma_opposite(a);
    lemma_decoded(a);
    lemma_decoded(opposite(a));
    lemma_within_more(integer(2), 1, 4);
    assert(within(t, 4));
    assert(beyond(t, 1));
    lemma_ratio_range(t, 2, 96);
    let r2 = second_ratio::<D>(Format::F64, t);
    lemma_within_more(t, 4, 7);
    lemma_sum_within(t, r2, 7);
    lemma_sum_beyond(t, r2, 1);
    lemma_quotient_within(one, sum(t, r2), 0, 1);
    lemma_beyond_less(sum(t, r2), 1, 0);
    lemma_quotient_sign(one, sum(t, r2));
    let r1 = first_ratio::<D>(Format::F64, t);
    lemma_within_more(r1, -1, 0);
    lemma_within_more(r1, -1, 7);
    lemma_sum_within(t, r1, 7);
    lemma_sum_beyond(t, r1, 1);
    lemma_quotient_within(density_of::<D>(Format::F64, a), sum(t, r1), 24, 1);
}

/// The probability by the error function.
pub proof fn lemma_central_range(a: Binary64)
    requires
        within(a, 4),
    ensures
        within(central_mass::<D>(Format::F64, a), 349),
{
    lemma_small_integers();
    lemma_small_powers();
    lemma_constants();
    lemma_integer_bounds(1, 0, 0);
    let one = integer(1);
    let c = half::<Binary64>().s_sqrt();
    lemma_product_within(a, c, 4, 0);
    lemma_within_more(product(a, c), 4, 5);
    lemma_error_range(product(a, c));
    let e = error(product(a, c));
    lemma_within_more(one, 0, 348);
    lemma_sum_within(e, one, 348);
    lemma_product_within(sum(e, one), half::<Binary64>(), 349, 0);
}

/// In double precision the probability that a normal is positive is finite,
/// whatever its mean and its variance.
pub proof fn law_double_mass_is_finite(mu: Binary64, v: Binary64)
    requires
        mu.is_finite(),
        v.is_finite(),
    ensures
        smooth_mass::<Dense<Binary64>>(Format::F64, mu, v).is_finite(),
        within(smooth_mass::<Dense<Binary64>>(Format::F64, mu, v), 349),
{
    let a = alpha_of::<D>(Format::F64, mu, v);
    lemma_alpha_range(mu, v);
    lemma_tail_range(a);
    lemma_central_range(a);
    if in_tail::<D>(Format::F64, a) {
        lemma_within_more(tail_mass::<D>(Format::F64, a), 23, 349);
    }
}

/// In double precision the leaky rectifier at slope zero is the rectifier, for
/// every finite mean and variance.
pub proof fn law_double_leaky_without_slope(alpha: Binary64, mu: Binary64, v: Binary64)
    requires
        is_zero(alpha),
        mu.is_finite(),
        v.is_finite(),
    ensures
        same(
            leaky_mean::<Dense<Binary64>>(Format::F64, alpha, mu, v),
            relu_mean::<Dense<Binary64>>(Format::F64, mu, v),
        ),
        same(
            leaky_variance::<Dense<Binary64>>(Format::F64, alpha, mu, v),
            relu_variance::<Dense<Binary64>>(Format::F64, mu, v),
        ),
{
    law_dense_double_is_neutral(Format::F64);
    law_double_mass_is_finite(mu, v);
    law_leaky_without_slope::<Dense<Binary64>>(Format::F64, alpha, mu, v);
}

} // verus!
