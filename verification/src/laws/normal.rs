//! The exponential and the normal density near zero, in real numbers.
use vstd::prelude::*;

use crate::binary64::series::EXPONENTIAL_TERMS;
use crate::binary64::{Binary64, UNIT};
use crate::scalar::Scalar;

verus! {

use crate::binary64::arithmetic::{integer, product, quotient, sum};
use crate::binary64::bounds::{
    beyond, lemma_integer_bounds, lemma_product_within, lemma_quotient_beyond, lemma_quotient_within,
    lemma_sum_beyond, lemma_sum_within, lemma_within_more, within,
};
use crate::binary64::compare::precedes;
use crate::binary64::errors::{
    epsilon, exact, least, lemma_epsilon, lemma_product_error, lemma_quotient_error,
    lemma_sum_error, size,
};
use crate::binary64::rounding::{p, p_add, p_mono, p_pos, p_values};
use crate::binary64::series::{exponential_from, rising};
use crate::binary64::lemma_decoded;
use crate::laws::accuracy::lemma_sizes;
use crate::laws::double::lemma_small_integers;
use crate::laws::finite::{
    lemma_exponential_series, lemma_product_sign, lemma_quotient_sign, lemma_small_powers,
};
use crate::laws::mills::exp_above;
use crate::laws::symmetry::{lemma_exact_order, lemma_half, lemma_scaled};

/// Errors are small.
pub proof fn lemma_tiny()
    ensures
        epsilon() > 0 as real,
        1000000000000 as real * epsilon() <= 1 as real,
        (0 as real) < least(),
        least() <= epsilon(),
{
    lemma_epsilon();
    p_values();
    let k = p(53) as real;
    assert(1000000000000 as real * (1 as real / k) <= 1 as real) by (nonlinear_arith)
        requires
            k >= 1000000000000 as real,
    ;
    p_add(53, 1021);
    p_mono(52, 1021);
    let (u, m, a) = (p(UNIT as int), p(1021), p(52));
    assert(u == p(53) * m);
    let (ru, rm, ra) = (u as real, m as real, a as real);
    assert(ru == k * rm) by (nonlinear_arith)
        requires
            u == p(53) * m,
            k == p(53) as real,
            ru == u as real,
            rm == m as real,
    ;
    let q = ra / ru;
    assert(q * ru == ra) by (nonlinear_arith)
        requires
            q == ra / ru,
            ru > 0 as real,
    ;
    assert(q * (k * rm) == (q * k) * rm) by (nonlinear_arith);
    let h = q * k;
    assert(h <= 1 as real) by (nonlinear_arith)
        requires
            h * rm == ra,
            ra <= rm,
            rm > 0 as real,
    ;
    let e = 1 as real / k;
    assert(q <= e) by (nonlinear_arith)
        requires
            q * k <= 1 as real,
            e == 1 as real / k,
            k > 0 as real,
    ;
}

/// Small whole numbers stand for themselves.
pub proof fn lemma_exact_integer(n: int)
    requires
        1 <= n <= 500,
    ensures
        integer(n).is_finite(),
        integer(n).code() > 0,
        !integer(n).negative(),
        exact(integer(n)) == n as real,
{
    lemma_small_powers();
    p_values();
    lemma_integer_bounds(n, 0, 9);
    crate::binary64::shifting::lemma_kept(false, n as nat, UNIT as int);
    reveal(exact);
    p_pos(UNIT as int);
    let c = p(UNIT as int);
    assert(integer(n).units() == n * c);
    let (u, r) = (c as real, n as real);
    assert((n * c) as real == r * u) by (nonlinear_arith)
        requires
            u == c as real,
            r == n as real,
    ;
    assert((r * u) / u == r) by (nonlinear_arith)
        requires
            u > 0 as real,
    ;
}

/// The rest of the exponential series in real numbers.
pub open spec fn exp_from(y: real, term: real, total: real, k: int) -> real
    decreases EXPONENTIAL_TERMS - k,
{
    if k >= EXPONENTIAL_TERMS {
        total
    } else {
        exp_from(
            y,
            term * (y / k as real),
            total + term * (y / k as real),
            k + 1,
        )
    }
}

/// The error of one more term.
proof fn lemma_exp_step(
    t: real,
    q: real,
    th: real,
    qh: real,
    nh: real,
    d: real,
    e: real,
    l: real,
)
    requires
        0 as real <= t <= 1 as real,
        0 as real <= q <= 1 as real,
        size(th - t) <= d,
        size(qh - q) <= e * (size(q) + l),
        size(nh - th * qh) <= e * (size(th * qh) + l),
        0 as real <= d,
        2 as real * d <= 1 as real,
        (0 as real) < e,
        1000 as real * e <= 1 as real,
        (0 as real) < l <= e,
    ensures
        size(nh - t * q) <= d + 8 as real * e,
        0 as real <= t * q <= 1 as real,
{
    let (a, b) = (th - t, qh - q);
    lemma_scaled(e, size(q) + l, 2 as real);
    assert(size(b) <= 2 as real * e);
    assert(th * qh == t * q + a * qh + t * b) by (nonlinear_arith)
        requires
            a == th - t,
            b == qh - q,
    ;
    lemma_sizes(a, qh);
    lemma_sizes(t, b);
    lemma_sizes(t, q);
    let (sa, sb, st, sq) = (size(a), size(b), size(t), size(qh));
    assert(sq <= 1 as real + 2 as real * e);
    assert(sa * sq <= d + 2 as real * (e * d)) by (nonlinear_arith)
        requires
            0 as real <= sa <= d,
            0 as real <= sq <= 1 as real + 2 as real * e,
            e > 0 as real,
    ;
    assert(e * d <= e / 2 as real) by (nonlinear_arith)
        requires
            2 as real * d <= 1 as real,
            e > 0 as real,
    ;
    assert(st * sb <= 2 as real * e) by (nonlinear_arith)
        requires
            0 as real <= st <= 1 as real,
            0 as real <= sb <= 2 as real * e,
    ;
    assert(0 as real <= t * q <= 1 as real) by (nonlinear_arith)
        requires
            0 as real <= t <= 1 as real,
            0 as real <= q <= 1 as real,
    ;
    assert(size(th * qh - t * q) <= d + 3 as real * e);
    assert(size(th * qh) <= 2 as real);
    lemma_scaled(e, size(th * qh) + l, 3 as real);
}

/// The exponential series up to one, against real numbers.
proof fn lemma_exp_series(
    y: Binary64,
    term: Binary64,
    total: Binary64,
    k: int,
    t: real,
    s: real,
)
    requires
        within(y, 0),
        y.value() >= 0,
        0 as real <= exact(y) <= 1 as real,
        within(term, 0),
        term.value() >= 0,
        1 <= k <= EXPONENTIAL_TERMS,
        within(total, k),
        beyond(total, 0),
        0 as real <= t <= 1 as real,
        0 as real <= s <= k as real,
        size(exact(term) - t) <= (8 * (k - 1)) as real * epsilon(),
        size(exact(total) - s) <= (300 * (k - 1)) as real * epsilon(),
    ensures
        size(
            exact(exponential_from(y, term, total, k)) - exp_from(exact(y), t, s, k),
        ) <= 7200 as real * epsilon(),
    decreases EXPONENTIAL_TERMS - k,
{
    lemma_tiny();
    let e = epsilon();
    if k < EXPONENTIAL_TERMS {
        lemma_small_powers();
        lemma_integer_bounds(k, 0, 5);
        lemma_exact_integer(k);
        let part = quotient(y, integer(k));
        lemma_quotient_within(y, integer(k), 0, 0);
        lemma_quotient_sign(y, integer(k));
        let next = product(term, part);
        lemma_product_within(term, part, 0, 0);
        lemma_product_sign(term, part);
        lemma_within_more(next, 0, k);
        lemma_sum_within(total, next, k);
        lemma_sum_beyond(total, next, 0);
        lemma_quotient_error(y, integer(k));
        lemma_product_error(term, part);
        lemma_sum_error(total, next);
        let (r, n) = (exact(y), k as real);
        let q = r / n;
        assert(0 as real <= q <= 1 as real) by (nonlinear_arith)
            requires
                q == r / n,
                0 as real <= r <= 1 as real,
                n >= 1 as real,
        ;
        let c = (8 * (k - 1)) as real;
        let d = c * e;
        assert(2 as real * d <= 1 as real) by (nonlinear_arith)
            requires
                d == c * e,
                0 as real <= c <= 200 as real,
                1000 as real * e <= 1 as real,
        ;
        assert(d >= 0 as real) by (nonlinear_arith)
            requires
                d == c * e,
                c >= 0 as real,
                e > 0 as real,
        ;
        lemma_exp_step(t, q, exact(term), exact(part), exact(next), d, e, least());
        let m = t * q;
        let (c2, c3) = ((8 * k) as real, (300 * (k - 1)) as real);
        assert(c2 * e == c * e + 8 as real * e) by (nonlinear_arith)
            requires
                c2 == c + 8 as real,
        ;
        let big = exact(total) + exact(next);
        let f = c3 * e;
        assert(f <= 1 as real) by (nonlinear_arith)
            requires
                f == c3 * e,
                0 as real <= c3 <= 7200 as real,
                1000000 as real * e <= 1 as real,
        ;
        assert(size(big) <= 30 as real);
        lemma_scaled(e, size(big), 30 as real);
        let c4 = (300 * k) as real;
        assert(c4 * e == c3 * e + 300 as real * e) by (nonlinear_arith)
            requires
                c4 == c3 + 300 as real,
        ;
        assert(c2 * e <= 200 as real * e) by (nonlinear_arith)
            requires
                c2 <= 200 as real,
                e > 0 as real,
        ;
        lemma_exp_series(y, next, sum(total, next), k + 1, m, s + m);
    } else {
        let c = (300 * (k - 1)) as real;
        assert(c * e <= 7200 as real * e) by (nonlinear_arith)
            requires
                c <= 7200 as real,
                e > 0 as real,
        ;
    }
}

/// What is left of the exponential series is bounded by its next term.
proof fn lemma_exp_rest(y: real, t: real, s: real, k: int)
    requires
        0 as real <= y <= 1 as real,
        0 as real <= t,
        2 <= k,
    ensures
        s <= exp_from(y, t, s, k),
        exp_from(y, t, s, k) <= s + t * (y / (k - 1) as real),
    decreases EXPONENTIAL_TERMS - k,
{
    let (n, m) = (k as real, (k - 1) as real);
    let (q, r) = (y / n, y / m);
    assert(q * n == y) by (nonlinear_arith)
        requires
            q == y / n,
            n > 0 as real,
    ;
    assert(r * m == y) by (nonlinear_arith)
        requires
            r == y / m,
            m > 0 as real,
    ;
    assert(q >= 0 as real && r >= 0 as real) by (nonlinear_arith)
        requires
            q * n == y,
            r * m == y,
            y >= 0 as real,
            n > 0 as real,
            m > 0 as real,
    ;
    let a = t * q;
    assert(a >= 0 as real) by (nonlinear_arith)
        requires
            a == t * q,
            t >= 0 as real,
            q >= 0 as real,
    ;
    assert(t * r >= 0 as real) by (nonlinear_arith)
        requires
            t >= 0 as real,
            r >= 0 as real,
    ;
    if k < EXPONENTIAL_TERMS {
        lemma_exp_rest(y, a, s + a, k + 1);
        // a + a y / k <= t y / (k - 1)
        assert(q <= 1 as real / n) by (nonlinear_arith)
            requires
                q * n == y,
                y <= 1 as real,
                n > 0 as real,
        ;
        let b = 1 as real + q;
        assert(a * q + a == t * (q * b)) by (nonlinear_arith)
            requires
                a == t * q,
                b == 1 as real + q,
        ;
        assert(q * b <= r) by {
            // q m (1 + q) <= q n, as (n - 1) (1 + 1 / n) <= n.
            assert(q * n <= 1 as real);
            assert(m * b <= n) by (nonlinear_arith)
                requires
                    m == n - 1 as real,
                    b == 1 as real + q,
                    q * n <= 1 as real,
                    q >= 0 as real,
                    n >= 2 as real,
            ;
            let c = q * b;
            assert(c * m == q * (m * b)) by (nonlinear_arith)
                requires
                    c == q * b,
            ;
            assert(q * (m * b) <= q * n) by (nonlinear_arith)
                requires
                    m * b <= n,
                    q >= 0 as real,
            ;
            assert(c <= r) by (nonlinear_arith)
                requires
                    c * m <= r * m,
                    m > 0 as real,
            ;
        }
        lemma_scaled(t, q * b, r);
    }
}

/// The exponential series lies below its bound.
pub proof fn lemma_exp_below(y: real)
    requires
        0 as real <= y <= 1 as real,
    ensures
        1 as real <= exp_from(y, 1 as real, 1 as real, 1),
        exp_from(y, 1 as real, 1 as real, 1) <= exp_above(y),
{
    let y2 = y * y;
    let y3 = y2 * y;
    let y4 = y3 * y;
    let y5 = y4 * y;
    let one = 1 as real;
    reveal_with_fuel(exp_from, 6);
    let (t2, t3, t4, t5) = (y2 / 2 as real, y3 / 6 as real, y4 / 24 as real, y5 / 120 as real);
    assert(one * (y / 1 as real) == y);
    assert(y * (y / 2 as real) == t2) by (nonlinear_arith)
        requires
            y2 == y * y,
            t2 == y2 / 2 as real,
    ;
    assert(t2 * (y / 3 as real) == t3) by (nonlinear_arith)
        requires
            y3 == y2 * y,
            t2 == y2 / 2 as real,
            t3 == y3 / 6 as real,
    ;
    assert(t3 * (y / 4 as real) == t4) by (nonlinear_arith)
        requires
            y4 == y3 * y,
            t3 == y3 / 6 as real,
            t4 == y4 / 24 as real,
    ;
    assert(t4 * (y / 5 as real) == t5) by (nonlinear_arith)
        requires
            y5 == y4 * y,
            t4 == y4 / 24 as real,
            t5 == y5 / 120 as real,
    ;
    let s = one + y + t2 + t3 + t4 + t5;
    assert(exp_from(y, one, one, 1) == exp_from(y, t5, s, 6));
    lemma_not_negative(y, y);
    lemma_not_negative(y2, y);
    lemma_not_negative(y3, y);
    lemma_not_negative(y4, y);
    lemma_exp_rest(y, t5, s, 6);
    assert(t5 * (y / 5 as real) <= t5 / 5 as real) by (nonlinear_arith)
        requires
            t5 >= 0 as real,
            y <= 1 as real,
    ;
    reveal(exp_above);
}

/// A product of numbers that are not negative.
pub proof fn lemma_not_negative(a: real, b: real)
    requires
        a >= 0 as real,
        b >= 0 as real,
    ensures
        a * b >= 0 as real,
{
    assert(a * b >= 0 as real) by (nonlinear_arith)
        requires
            a >= 0 as real,
            b >= 0 as real,
    ;
}

/// The bound of the exponential is less than three.
pub proof fn lemma_exp_above_small(y: real)
    requires
        0 as real <= y <= 1 as real,
    ensures
        1 as real <= exp_above(y) <= 3 as real,
{
    let y2 = y * y;
    let y3 = y2 * y;
    let y4 = y3 * y;
    let y5 = y4 * y;
    lemma_at_most_one(1 as real, y);
    lemma_at_most_one(y, y);
    lemma_at_most_one(y2, y);
    lemma_at_most_one(y3, y);
    lemma_at_most_one(y4, y);
    reveal(exp_above);
}

/// A product of numbers between zero and one.
pub proof fn lemma_at_most_one(a: real, b: real)
    requires
        0 as real <= a <= 1 as real,
        0 as real <= b <= 1 as real,
    ensures
        0 as real <= a * b <= 1 as real,
{
    assert(0 as real <= a * b <= 1 as real) by (nonlinear_arith)
        requires
            0 as real <= a <= 1 as real,
            0 as real <= b <= 1 as real,
    ;
}

/// The value of what is at most one.
proof fn lemma_unit_interval(y: Binary64)
    requires
        within(y, 0),
        y.value() >= 0,
    ensures
        0 as real <= exact(y) <= 1 as real,
        !precedes(integer(1), y),
{
    lemma_half();
    lemma_small_integers();
    lemma_decoded(y);
    lemma_exact_order(integer(1), y);
    lemma_exact_order(y, integer(0));
    crate::binary64::compare::law_order_of_values(y, integer(0));
    crate::laws::finite::lemma_zero_value(integer(0));
}

/// The rising exponential up to one.
pub proof fn lemma_rising_low(y: Binary64, n: nat)
    requires
        within(y, 0),
        y.value() >= 0,
    ensures
        rising(y, n).is_finite(),
        beyond(rising(y, n), 0),
        0 as real <= exact(y) <= 1 as real,
        exact(rising(y, n)) <= exp_above(exact(y)) + 7200 as real * epsilon(),
{
    lemma_unit_interval(y);
    lemma_half();
    lemma_small_integers();
    lemma_small_powers();
    lemma_integer_bounds(1, 0, 0);
    lemma_within_more(integer(1), 0, 1);
    lemma_exponential_series(y, integer(1), integer(1), 1);
    assert(0 as real * epsilon() == 0 as real);
    lemma_decoded(integer(1));
    lemma_exp_series(y, integer(1), integer(1), 1, 1 as real, 1 as real);
    lemma_exp_below(exact(y));
}

/// The rising exponential from one to two.
pub proof fn lemma_rising_high(y: Binary64, n: nat)
    requires
        n >= 1,
        within(y, 1),
        y.value() >= 0,
        precedes(integer(1), y),
    ensures
        ({
            let z = exact(quotient(y, integer(2)));
            &&& rising(y, n).is_finite()
            &&& beyond(rising(y, n), 0)
            &&& 1 as real <= 2 as real * z
            &&& z <= 1 as real
            &&& size(2 as real * z - exact(y)) <= 4 as real * epsilon()
            &&& exact(rising(y, n)) <= exp_above(z) * exp_above(z) + 60000 as real * epsilon()
        }),
{
    lemma_tiny();
    lemma_half();
    lemma_small_integers();
    lemma_small_powers();
    lemma_integer_bounds(1, 0, 0);
    lemma_integer_bounds(2, 1, 1);
    lemma_exact_integer(2);
    lemma_decoded(y);
    let e = epsilon();
    let part = quotient(y, integer(2));
    lemma_quotient_within(y, integer(2), 1, 1);
    crate::binary64::bounds::lemma_beyond_less(integer(2), 1, 0);
    lemma_quotient_sign(y, integer(2));
    lemma_quotient_beyond(y, integer(2), 0, 1);
    lemma_quotient_error(y, integer(2));
    let (r, z) = (exact(y), exact(part));
    lemma_rising_low(part, (n - 1) as nat);
    // At least one half.
    crate::laws::signs::lemma_half_beyond();
    let half = crate::scalar::half::<Binary64>();
    assert(z >= 1 as real / 2 as real) by {
        crate::laws::finite::lemma_constants();
        lemma_exact_order(part, half);
        lemma_decoded(half);
        lemma_decoded(part);
        lemma_quotient_within(integer(1), integer(2), 0, 1);
    }
    assert(r <= 2 as real) by {
        lemma_exact_order(integer(2), y);
        lemma_decoded(integer(2));
    }
    assert(r >= 0 as real) by {
        lemma_exact_order(y, integer(0));
    }
    let q = r / 2 as real;
    lemma_scaled(e, size(q) + least(), 2 as real);
    let h = rising(part, (n - 1) as nat);
    let x = exp_above(z);
    lemma_exp_above_small(z);
    let k = exact(h);
    assert(k >= 1 as real) by {
        lemma_exact_order(h, integer(1));
        lemma_decoded(h);
    }
    let d = 7200 as real * e;
    assert(k * k <= (x + d) * (x + d)) by (nonlinear_arith)
        requires
            0 as real <= k <= x + d,
    ;
    assert((x + d) * (x + d) == x * x + 2 as real * (x * d) + d * d) by (nonlinear_arith);
    assert(x * d <= 3 as real * d) by (nonlinear_arith)
        requires
            x <= 3 as real,
            d >= 0 as real,
    ;
    assert(d * d <= d) by (nonlinear_arith)
        requires
            0 as real <= d <= 1 as real,
    ;
    assert(x * x <= 9 as real) by (nonlinear_arith)
        requires
            1 as real <= x <= 3 as real,
    ;
    assert(h.is_finite() && within(h, 2)) by {
        lemma_exact_integer(4);
        lemma_integer_bounds(4, 2, 2);
        lemma_exact_order(integer(4), h);
        lemma_decoded(h);
        lemma_decoded(integer(4));
    }
    lemma_product_within(h, h, 2, 2);
    crate::binary64::bounds::lemma_product_beyond(h, h, 0, 0);
    lemma_product_error(h, h);
    let kk = k * k;
    assert(kk >= 0 as real) by (nonlinear_arith)
        requires
            kk == k * k,
    ;
    lemma_scaled(e, size(kk) + least(), 20 as real);
}

} // verus!
