//! The normal series from below, in real numbers.
use vstd::prelude::*;

use crate::binary64::{Binary64, UNIT};
use crate::gaussian::SERIES_TERMS;
use crate::scalar::Scalar;

verus! {

use crate::binary64::arithmetic::{integer, lemma_rounds_to_itself, product, quotient, sum};
use crate::binary64::bounds::{
    lemma_integer_bounds, lemma_nearest_rises, lemma_power_units, lemma_product_within,
    lemma_quotient_within, lemma_sum_within, lemma_within_more, within,
};
use crate::binary64::compare::{equal, law_order_of_values, lemma_units_grow};
use crate::binary64::errors::{
    epsilon, exact, least, lemma_product_error, lemma_quotient_error, lemma_sum_error, size,
};
use crate::binary64::rounding::{nearest, p, p_add, p_pos};
use crate::binary64::{lemma_decoded, lemma_encoded};
use crate::gaussian::series_from;
use crate::laws::accuracy::lemma_sizes;
use crate::laws::finite::{
    lemma_product_sign, lemma_quotient_sign, lemma_small_powers, lemma_zero_value,
};
use crate::laws::mills::series_below;
use crate::laws::normal::{lemma_exact_integer, lemma_not_negative, lemma_tiny};
use crate::laws::ratio::{is_moderate, lemma_moderate};
use crate::laws::symmetry::{lemma_exact_order, lemma_scaled};

/// How many terms the bound sums.
pub const BOUND_TERMS: i32 = 8;

/// The rest of the series in real numbers, for `w = x^2`.
pub open spec fn partial_from(w: real, term: real, total: real, k: int) -> real
    decreases BOUND_TERMS - k,
{
    if k >= BOUND_TERMS {
        total
    } else {
        partial_from(
            w,
            term * (w / (2 * k + 1) as real),
            total + term * (w / (2 * k + 1) as real),
            k + 1,
        )
    }
}

/// The magnitude of what is at most a power of two.
pub proof fn lemma_within_exact(x: Binary64, k: int)
    requires
        within(x, k),
        0 <= k <= 1000,
    ensures
        size(exact(x)) <= p(k) as real,
{
    reveal(exact);
    lemma_power_units(x, k);
    p_add(UNIT as int, k);
    p_pos(UNIT as int);
    let (c, u, q) = (p(UNIT as int), x.units(), p(k));
    assert(u <= c * q);
    let (rc, rv, rq) = (c as real, x.value() as real, q as real);
    assert((c * q) as real == rc * rq) by (nonlinear_arith)
        requires
            rc == c as real,
            rq == q as real,
    ;
    let r = rv / rc;
    assert(r * rc == rv) by (nonlinear_arith)
        requires
            r == rv / rc,
            rc > 0 as real,
    ;
    assert(r <= rq) by (nonlinear_arith)
        requires
            r * rc <= rc * rq,
            rc > 0 as real,
    ;
    assert(-r <= rq) by (nonlinear_arith)
        requires
            -(r * rc) <= rc * rq,
            rc > 0 as real,
    ;
}

/// Adding what is not negative does not make a sum smaller.
proof fn lemma_sum_rises(a: Binary64, b: Binary64)
    requires
        a.is_finite(),
        b.is_finite(),
        a.value() >= 0,
        b.value() >= 0,
        sum(a, b).is_finite(),
    ensures
        sum(a, b).value() >= a.value(),
        exact(sum(a, b)) >= exact(a),
{
    let v = a.value() + b.value();
    let c = sum(a, b);
    lemma_encoded(a.negative() && b.negative(), 0);
    lemma_encoded(false, nearest(v as nat, 1));
    if v == 0 {
        lemma_zero_value(c);
    } else {
        lemma_rounds_to_itself(a);
        assert(a.value() == a.units());
        lemma_nearest_rises(a.units(), v as nat, 1);
        lemma_decoded(a);
        lemma_decoded(c);
        if a.code() < c.code() {
            lemma_units_grow(a, c);
        }
    }
    lemma_exact_order(c, a);
    law_order_of_values(c, a);
}

/// The ratio of terms of the series.
proof fn lemma_ratio_within(x: Binary64, k: int)
    requires
        within(x, 1),
        x.value() >= 0,
        1 <= k < SERIES_TERMS,
    ensures
        ({
            let q = quotient(product(x, x), integer(2 * k + 1));
            &&& within(q, if k == 1 { 1 } else { 0 })
            &&& q.value() >= 0
            &&& product(x, x).is_finite()
        }),
{
    lemma_small_powers();
    let n = integer(2 * k + 1);
    lemma_product_within(x, x, 1, 1);
    lemma_decoded(x);
    lemma_product_sign(x, x);
    if k == 1 {
        lemma_integer_bounds(2 * k + 1, 1, 2);
        lemma_quotient_within(product(x, x), n, 2, 1);
        crate::binary64::bounds::lemma_beyond_less(n, 1, 0);
    } else {
        lemma_integer_bounds(2 * k + 1, 2, 9);
        lemma_quotient_within(product(x, x), n, 2, 2);
        crate::binary64::bounds::lemma_beyond_less(n, 2, 0);
    }
    lemma_quotient_sign(product(x, x), n);
}

/// The series stays finite and does not fall.
pub proof fn lemma_series_rises(x: Binary64, term: Binary64, total: Binary64, k: int)
    requires
        within(x, 1),
        x.value() >= 0,
        1 <= k <= SERIES_TERMS,
        within(term, if k == 1 { 1 } else { 2 }),
        term.value() >= 0,
        within(total, 2 + k),
        total.value() >= 0,
    ensures
        series_from(x, term, total, k).is_finite(),
        series_from(x, term, total, k).value() >= 0,
        exact(series_from(x, term, total, k)) >= exact(total),
        within(series_from(x, term, total, k), 202),
    decreases SERIES_TERMS - k,
{
    lemma_within_more(total, 2 + k, 202);
    if k < SERIES_TERMS {
        lemma_ratio_within(x, k);
        let q = quotient(product(x, x), integer(2 * k + 1));
        let next = product(term, q);
        if k == 1 {
            lemma_product_within(term, q, 1, 1);
        } else {
            lemma_product_within(term, q, 2, 0);
        }
        lemma_product_sign(term, q);
        lemma_within_more(next, 2, 2 + k);
        lemma_sum_within(total, next, 2 + k);
        lemma_sum_rises(total, next);
        lemma_series_rises(x, next, sum(total, next), k + 1);
    }
}

/// What is left of the bound is at most a multiple of its next term.
proof fn lemma_partial_rest(w: real, t: real, s: real, k: int)
    requires
        0 as real <= w <= 4 as real,
        0 as real <= t,
        1 <= k <= BOUND_TERMS,
    ensures
        partial_from(w, t, s, k) <= s + (9 - k) as real * (t * (w / (2 * k + 1) as real)),
        t * (w / (2 * k + 1) as real) >= 0 as real,
    decreases BOUND_TERMS - k,
{
    let n = (2 * k + 1) as real;
    let q = w / n;
    assert(q >= 0 as real) by (nonlinear_arith)
        requires
            q == w / n,
            w >= 0 as real,
            n > 0 as real,
    ;
    lemma_not_negative(t, q);
    let m = t * q;
    if k < BOUND_TERMS {
        lemma_partial_rest(w, m, s + m, k + 1);
        let h = (2 * (k + 1) + 1) as real;
        let r = w / h;
        assert(r <= 1 as real) by (nonlinear_arith)
            requires
                r == w / h,
                w <= 4 as real,
                h >= 5 as real,
        ;
        assert(m * r <= m) by (nonlinear_arith)
            requires
                m >= 0 as real,
                r <= 1 as real,
        ;
        let c = (9 - (k + 1)) as real;
        lemma_scaled(c, m * r, m);
        let d = (9 - k) as real;
        assert(d * m == c * m + m) by (nonlinear_arith)
            requires
                d == c + 1 as real,
        ;
    } else {
        let d = (9 - k) as real;
        lemma_not_negative(d, m);
    }
}

/// How far a term is off, in roundings.
spec fn slack(k: int) -> real
    decreases k,
{
    if k <= 1 {
        0 as real
    } else {
        2 as real * slack(k - 1) + 40 as real
    }
}

/// Terms are hardly off.
proof fn lemma_slack(k: int)
    requires
        1 <= k <= BOUND_TERMS,
    ensures
        0 as real <= slack(k) <= 5100 as real,
{
    reveal_with_fuel(slack, 9);
}

/// The ratio of terms, against real numbers.
proof fn lemma_ratio_error(x: Binary64, k: int)
    requires
        is_moderate(x),
        1 <= k < BOUND_TERMS,
    ensures
        ({
            let q = (exact(x) * exact(x)) / (2 * k + 1) as real;
            &&& size(exact(quotient(product(x, x), integer(2 * k + 1))) - q) <= 6 as real * epsilon()
            &&& 0 as real <= q
            &&& k == 1 ==> 3 as real * q <= 4 as real
            &&& k >= 2 ==> 5 as real * q <= 4 as real
            &&& exact(x) * exact(x) <= 4 as real
        }),
{
    lemma_tiny();
    lemma_moderate(x);
    lemma_decoded(x);
    lemma_ratio_within(x, k);
    lemma_exact_integer(2 * k + 1);
    let (e, l, r) = (epsilon(), least(), exact(x));
    let w = r * r;
    assert(0 as real <= w <= 4 as real) by (nonlinear_arith)
        requires
            w == r * r,
            0 as real <= r <= 2 as real,
    ;
    let square = product(x, x);
    lemma_product_error(x, x);
    lemma_scaled(e, size(w) + l, 5 as real);
    let v = exact(square);
    let n = (2 * k + 1) as real;
    lemma_quotient_error(square, integer(2 * k + 1));
    let (a, q) = (v / n, w / n);
    assert(a * n == v) by (nonlinear_arith)
        requires
            a == v / n,
            n > 0 as real,
    ;
    assert(q * n == w) by (nonlinear_arith)
        requires
            q == w / n,
            n > 0 as real,
    ;
    let d = a - q;
    assert(d * n == v - w) by (nonlinear_arith)
        requires
            a * n == v,
            q * n == w,
            d == a - q,
    ;
    lemma_sizes(d, n);
    assert(size(d) <= 2 as real * e) by (nonlinear_arith)
        requires
            size(d) * n <= 5 as real * e,
            n >= 3 as real,
            e > 0 as real,
            size(d) >= 0 as real,
    ;
    assert(q >= 0 as real && 3 as real * q <= 4 as real) by (nonlinear_arith)
        requires
            q * n == w,
            0 as real <= w <= 4 as real,
            n >= 3 as real,
    ;
    if k >= 2 {
        assert(5 as real * q <= 4 as real) by (nonlinear_arith)
            requires
                q * n == w,
                q >= 0 as real,
                w <= 4 as real,
                n >= 5 as real,
        ;
    }
    lemma_scaled(e, size(a) + l, 3 as real);
}

/// The error of one more term of the series.
proof fn lemma_series_step(
    t: real,
    q: real,
    th: real,
    qh: real,
    nh: real,
    d: real,
    e: real,
    l: real,
)
    requires
        0 as real <= t <= 3 as real,
        0 as real <= q,
        3 as real * q <= 5 as real,
        size(th - t) <= d,
        size(qh - q) <= 6 as real * e,
        size(nh - th * qh) <= e * (size(th * qh) + l),
        0 as real <= d,
        10 as real * d <= 1 as real,
        (0 as real) < e,
        1000 as real * e <= 1 as real,
        (0 as real) < l <= e,
    ensures
        size(nh - t * q) <= 2 as real * d + 40 as real * e,
{
    let (a, b) = (th - t, qh - q);
    assert(th * qh == t * q + a * qh + t * b) by (nonlinear_arith)
        requires
            a == th - t,
            b == qh - q,
    ;
    lemma_sizes(a, qh);
    lemma_sizes(t, b);
    let (sa, sb, sq) = (size(a), size(b), size(qh));
    assert(sq <= 2 as real);
    assert(sa * sq <= 2 as real * d) by (nonlinear_arith)
        requires
            0 as real <= sa <= d,
            0 as real <= sq <= 2 as real,
    ;
    assert(t * sb <= 18 as real * e) by (nonlinear_arith)
        requires
            0 as real <= t <= 3 as real,
            0 as real <= sb <= 6 as real * e,
    ;
    assert(t * q <= 5 as real && t * q >= 0 as real) by (nonlinear_arith)
        requires
            0 as real <= t <= 3 as real,
            0 as real <= q,
            3 as real * q <= 5 as real,
    ;
    assert(size(th * qh) <= 6 as real);
    lemma_scaled(e, size(th * qh) + l, 7 as real);
}

/// The series is at least its first terms, up to rounding.
proof fn lemma_partial_below(
    x: Binary64,
    term: Binary64,
    total: Binary64,
    k: int,
    t: real,
    s: real,
)
    requires
        is_moderate(x),
        1 <= k <= BOUND_TERMS,
        within(term, if k == 1 { 1 } else { 2 }),
        term.value() >= 0,
        within(total, 2 + k),
        total.value() >= 0,
        0 as real <= t <= 3 as real,
        k == 1 ==> t <= 2 as real,
        size(exact(term) - t) <= slack(k) * epsilon(),
        exact(total) >= s - (11000 * (k - 1)) as real * epsilon(),
    ensures
        series_from(x, term, total, k).is_finite(),
        exact(series_from(x, term, total, k)) >= partial_from(
            exact(x) * exact(x),
            t,
            s,
            k,
        ) - 200000 as real * epsilon(),
    decreases BOUND_TERMS - k,
{
    lemma_tiny();
    lemma_decoded(x);
    lemma_series_rises(x, term, total, k);
    let e = epsilon();
    let g = (11000 * (k - 1)) as real;
    assert(g * e <= 77000 as real * e) by (nonlinear_arith)
        requires
            g <= 77000 as real,
            e > 0 as real,
    ;
    if k < BOUND_TERMS {
        lemma_ratio_within(x, k);
        lemma_ratio_error(x, k);
        lemma_slack(k);
        lemma_slack(k + 1);
        let q = quotient(product(x, x), integer(2 * k + 1));
        let next = product(term, q);
        if k == 1 {
            lemma_product_within(term, q, 1, 1);
        } else {
            lemma_product_within(term, q, 2, 0);
        }
        lemma_product_sign(term, q);
        lemma_within_more(next, 2, 2 + k);
        lemma_sum_within(total, next, 2 + k);
        lemma_sum_rises(total, next);
        lemma_product_error(term, q);
        lemma_sum_error(total, next);
        let w = exact(x) * exact(x);
        let rq = w / (2 * k + 1) as real;
        let c = slack(k);
        let d = c * e;
        assert(0 as real <= d && 10 as real * d <= 1 as real) by (nonlinear_arith)
            requires
                d == c * e,
                0 as real <= c <= 6000 as real,
                1000000 as real * e <= 1 as real,
                e > 0 as real,
        ;
        lemma_series_step(t, rq, exact(term), exact(q), exact(next), d, e, least());
        let m = t * rq;
        lemma_not_negative(t, rq);
        let c2 = slack(k + 1);
        assert(c2 == 2 as real * c + 40 as real);
        assert(c2 * e == 2 as real * (c * e) + 40 as real * e) by (nonlinear_arith)
            requires
                c2 == 2 as real * c + 40 as real,
        ;
        assert(m <= 3 as real) by {
            if k == 1 {
                assert(m <= 3 as real) by (nonlinear_arith)
                    requires
                        m == t * rq,
                        0 as real <= t <= 2 as real,
                        0 as real <= rq,
                        3 as real * rq <= 4 as real,
                ;
            } else {
                assert(m <= 3 as real) by (nonlinear_arith)
                    requires
                        m == t * rq,
                        0 as real <= t <= 3 as real,
                        0 as real <= rq,
                        5 as real * rq <= 4 as real,
                ;
            }
        }
        // The sum is at most two thousand.
        lemma_within_more(total, 2 + k, 10);
        lemma_within_more(next, 2, 10);
        lemma_within_exact(total, 10);
        lemma_within_exact(next, 10);
        vstd::arithmetic::power2::lemma2_to64();
        assert(p(10) == 1024);
        let big = exact(total) + exact(next);
        lemma_scaled(e, size(big), 2048 as real);
        assert(c2 * e <= 6000 as real * e) by (nonlinear_arith)
            requires
                c2 <= 6000 as real,
                e > 0 as real,
        ;
        if equal(sum(total, next), total) {
            law_order_of_values(sum(total, next), total);
            lemma_exact_order(sum(total, next), total);
            lemma_exact_order(total, sum(total, next));
            lemma_moderate(x);
            lemma_not_negative(exact(x), exact(x));
            lemma_partial_rest(w, t, s, k);
            let h = (9 - k) as real;
            assert(h * m <= 8 as real * m) by (nonlinear_arith)
                requires
                    h <= 8 as real,
                    m >= 0 as real,
            ;
        } else {
            let g2 = (11000 * k) as real;
            assert(g2 * e == g * e + 11000 as real * e) by (nonlinear_arith)
                requires
                    g2 == g + 11000 as real,
            ;
            lemma_partial_below(x, next, sum(total, next), k + 1, m, s + m);
        }
    }
}

/// A term of the series, times the argument.
proof fn lemma_term_times(x: real, t: real, w: real, a: real, c: real, n: real)
    requires
        x * t == a / c,
        c > 0 as real,
        n > 0 as real,
    ensures
        x * (t * (w / n)) == (a * w) / (c * n),
{
    let q = w / n;
    assert(x * (t * q) == (x * t) * q) by (nonlinear_arith);
    let b = a / c;
    assert(b * c == a) by (nonlinear_arith)
        requires
            b == a / c,
            c > 0 as real,
    ;
    assert(q * n == w) by (nonlinear_arith)
        requires
            q == w / n,
            n > 0 as real,
    ;
    let m = c * n;
    assert(m > 0 as real) by (nonlinear_arith)
        requires
            m == c * n,
            c > 0 as real,
            n > 0 as real,
    ;
    let r = (a * w) / m;
    assert(r * m == a * w) by (nonlinear_arith)
        requires
            r == (a * w) / m,
            m > 0 as real,
    ;
    assert((b * q) * (c * n) == (b * c) * (q * n)) by (nonlinear_arith);
    let z = b * q;
    assert(z == r) by (nonlinear_arith)
        requires
            z * m == r * m,
            m > 0 as real,
    ;
}

/// Eight terms, times a number.
proof fn lemma_eight_times(
    x: real,
    a: real,
    b: real,
    c: real,
    d: real,
    e: real,
    f: real,
    g: real,
    h: real,
)
    ensures
        x * (a + b + c + d + e + f + g + h) == x * a + x * b + x * c + x * d + x * e + x * f + x * g + x
            * h,
{
    assert(x * (a + b + c + d + e + f + g + h) == x * a + x * b + x * c + x * d + x * e + x * f + x * g
        + x * h) by (nonlinear_arith);
}

/// The first terms make the bound.
proof fn lemma_partial_unrolled(x: real)
    ensures
        1 as real + x * partial_from(x * x, x, x, 1) == series_below(x * x),
{
    let w = x * x;
    assert(w == w / 1 as real);
    let w2 = w * w;
    let t1 = x * (w / 3 as real);
    lemma_term_times(x, x, w, w, 1 as real, 3 as real);
    let w3 = w2 * w;
    let t2 = t1 * (w / 5 as real);
    lemma_term_times(x, t1, w, w2, 3 as real, 5 as real);
    let w4 = w3 * w;
    let t3 = t2 * (w / 7 as real);
    lemma_term_times(x, t2, w, w3, 15 as real, 7 as real);
    let w5 = w4 * w;
    let t4 = t3 * (w / 9 as real);
    lemma_term_times(x, t3, w, w4, 105 as real, 9 as real);
    let w6 = w5 * w;
    let t5 = t4 * (w / 11 as real);
    lemma_term_times(x, t4, w, w5, 945 as real, 11 as real);
    let w7 = w6 * w;
    let t6 = t5 * (w / 13 as real);
    lemma_term_times(x, t5, w, w6, 10395 as real, 13 as real);
    let w8 = w7 * w;
    let t7 = t6 * (w / 15 as real);
    lemma_term_times(x, t6, w, w7, 135135 as real, 15 as real);
    let total = x + t1 + t2 + t3 + t4 + t5 + t6 + t7;
    reveal_with_fuel(partial_from, 9);
    assert(partial_from(w, x, x, 1) == total);
    lemma_eight_times(x, x, t1, t2, t3, t4, t5, t6, t7);
    reveal(series_below);
}

/// One more than the argument times the series is at least the bound, up to
/// rounding.
pub proof fn lemma_series_bound(x: Binary64)
    requires
        is_moderate(x),
    ensures
        series_from(x, x, x, 1).is_finite(),
        within(series_from(x, x, x, 1), 202),
        exact(series_from(x, x, x, 1)) >= exact(x),
        1 as real + exact(x) * exact(series_from(x, x, x, 1)) >= series_below(
            exact(x) * exact(x),
        ) - 400000 as real * epsilon(),
{
    lemma_tiny();
    lemma_moderate(x);
    lemma_decoded(x);
    lemma_within_more(x, 1, 3);
    assert(0 as real * epsilon() == 0 as real);
    assert(slack(1) * epsilon() == 0 as real) by {
        assert(slack(1) == 0 as real);
    }
    lemma_series_rises(x, x, x, 1);
    lemma_partial_below(x, x, x, 1, exact(x), exact(x));
    lemma_partial_unrolled(exact(x));
    let (r, e) = (exact(x), epsilon());
    let (a, b) = (exact(series_from(x, x, x, 1)), partial_from(r * r, r, r, 1));
    let c = 200000 as real * e;
    lemma_scaled(r, b - c, a);
    assert(r * (b - c) == r * b - r * c) by (nonlinear_arith);
    assert(r * c <= 2 as real * c) by (nonlinear_arith)
        requires
            r <= 2 as real,
            c >= 0 as real,
    ;
}

} // verus!
