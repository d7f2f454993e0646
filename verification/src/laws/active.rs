//! Active features keep their covariance in double precision, up to rounding.
use vstd::prelude::*;

use crate::backend::Format;
use crate::binary64::Binary64;
use crate::dense::Dense;
use crate::scalar::Scalar;

verus! {

use crate::binary64::arithmetic::{integer, opposite, product, quotient, sum};
use crate::binary64::bounds::{beyond, within};
use crate::binary64::compare::precedes;
use crate::binary64::errors::{
    epsilon, exact, least, lemma_epsilon, lemma_exact_opposite, lemma_quotient_error, size,
};
use crate::binary64::lemma_decoded;
use crate::burn_sdp::full::{pair_correlation, pair_series, rectified_covariance};
use crate::burn_sdp::rectify::{alpha_of, is_active, is_inactive, safe_deviation};
use crate::gaussian::clamped;
use crate::laws::accuracy::{growth, is_near, lemma_growth, lemma_sizes};
use crate::laws::double::{lemma_plus_zero, lemma_small_integers, lemma_times_zero};
use crate::laws::finite::lemma_alpha_range;
use crate::laws::symmetry::{lemma_exact_order, lemma_factors_finite, lemma_half, lemma_mirror};
use crate::laws::tame::lemma_correlation_range;
use crate::laws::unit::{lemma_grown_product, lemma_grown_self, lemma_near_bound};
use crate::scalar::half;

/// Plain vectors in double precision.
type D = Dense<Binary64>;

/// A near number over an exact one.
pub proof fn lemma_near_over(
    a: Binary64,
    b: Binary64,
    x: real,
    y: real,
    s: real,
    k: nat,
)
    requires
        is_near(a, x, s, growth(k)),
        a.is_finite(),
        b.is_finite(),
        b.code() > 0,
        !b.negative(),
        y == exact(b),
        quotient(a, b).is_finite(),
    ensures
        y > 0 as real,
        is_near(quotient(a, b), x / y, s / y + least(), growth(k + 1)),
{
    lemma_quotient_error(a, b);
    lemma_near_bound(a, x, s, growth(k));
    lemma_epsilon();
    lemma_growth(k, 1);
    let (u, e, l) = (exact(a), epsilon(), least());
    let g = growth(k);
    let (p, q, m) = (u / y, x / y, s / y);
    assert(size(x) <= s && g >= 1 as real) by {
        reveal(is_near);
    }
    lemma_over(u, y);
    lemma_over(x, y);
    lemma_over(s, y);
    // (p - q) y = u - x
    assert((p - q) * y == p * y - q * y) by (nonlinear_arith);
    lemma_sizes(p - q, y);
    lemma_sizes(q, y);
    let d = g - 1 as real;
    assert(d * (m * y) == (d * m) * y) by (nonlinear_arith);
    let z = size(p - q);
    assert(z <= d * m) by (nonlinear_arith)
        requires
            z * y <= (d * m) * y,
            y > 0 as real,
    ;
    let w = size(q);
    assert(w <= m) by (nonlinear_arith)
        requires
            w * y <= m * y,
            y > 0 as real,
    ;
    assert(d * m + m == g * m) by (nonlinear_arith)
        requires
            d == g - 1 as real,
    ;
    assert(size(p) <= g * m);
    let t = exact(quotient(a, b));
    assert(size(t - q) <= e * (size(p) + l) + d * m);
    crate::laws::symmetry::lemma_scaled(e, size(p) + l, g * m + l);
    let h = growth(k + 1);
    assert(h == g * (1 as real + e));
    assert(e * (g * m + l) + d * m == (h - 1 as real) * m + e * l) by (nonlinear_arith)
        requires
            h == g * (1 as real + e),
            d == g - 1 as real,
    ;
    assert(h - 1 as real >= e) by (nonlinear_arith)
        requires
            h == g * (1 as real + e),
            g >= 1 as real,
            e > 0 as real,
    ;
    let f = h - 1 as real;
    assert(e * l <= f * l) by (nonlinear_arith)
        requires
            e <= f,
            l > 0 as real,
    ;
    assert(f * (m + l) == f * m + f * l) by (nonlinear_arith);
    reveal(is_near);
}

/// A ratio times its denominator.
proof fn lemma_over(x: real, y: real)
    requires
        y > 0 as real,
    ensures
        (x / y) * y == x,
{
    let q = x / y;
    assert(q * y == x) by (nonlinear_arith)
        requires
            q == x / y,
            y > 0 as real,
    ;
}

/// Nothing but the two open factors remains of the series of active features.
proof fn lemma_active_series(c: Binary64, mu: Binary64, v: Binary64, nu: Binary64, w: Binary64)
    requires
        c.is_finite(),
        mu.is_finite(),
        v.is_finite(),
        nu.is_finite(),
        w.is_finite(),
        is_active::<D>(Format::F64, mu, v) && !is_inactive::<D>(Format::F64, mu, v),
        is_active::<D>(Format::F64, nu, w) && !is_inactive::<D>(Format::F64, nu, w),
    ensures
        within(pair_correlation::<D>(Format::F64, c, v, w), 0),
        pair_series::<D>(
            Format::F64,
            pair_correlation::<D>(Format::F64, c, v, w),
            mu,
            v,
            nu,
            w,
        ) == integer(1),
{
    let f = Format::F64;
    lemma_alpha_range(mu, v);
    lemma_alpha_range(nu, w);
    lemma_correlation_range(c, v, w);
    lemma_small_integers();
    crate::laws::finite::lemma_constants();
    crate::laws::finite::lemma_small_powers();
    crate::binary64::bounds::lemma_integer_bounds(1, 0, 0);
    crate::binary64::bounds::lemma_integer_bounds(6, 2, 3);
    crate::binary64::bounds::lemma_quotient_within(integer(1), integer(6), 0, 2);
    let rho = pair_correlation::<D>(f, c, v, w);
    let (zero, one) = (integer(0), integer(1));
    let sixth = quotient(one, integer(6));
    let h = half::<Binary64>();
    let dens = product(zero, zero);
    lemma_times_zero(zero, zero);
    let (k, l) = (
        product(alpha_of::<D>(f, mu, v), zero),
        product(alpha_of::<D>(f, nu, w), zero),
    );
    lemma_times_zero(alpha_of::<D>(f, mu, v), zero);
    lemma_times_zero(alpha_of::<D>(f, nu, w), zero);
    lemma_times_zero(k, l);
    let first = product(dens, h);
    lemma_turned_zero(dens, h);
    let cubic = product(product(k, l), sixth);
    lemma_turned_zero(product(k, l), sixth);
    lemma_times_zero(rho, cubic);
    let inner = sum(first, product(rho, cubic));
    lemma_plus_zero(first, product(rho, cubic));
    lemma_decoded(inner);
    lemma_decoded(first);
    assert(inner.code() == 0);
    lemma_times_zero(rho, inner);
    lemma_decoded(one);
    let gates = product(one, one);
    crate::laws::double::law_double_is_neutral();
    crate::laws::arithmetic::mul_one(one, one);
    lemma_decoded(gates);
    assert(gates == one);
    let series = sum(gates, product(rho, inner));
    lemma_plus_zero(gates, product(rho, inner));
    lemma_decoded(series);
    assert(series == one);
}

/// A zero times a finite number.
proof fn lemma_turned_zero(z: Binary64, x: Binary64)
    requires
        z.code() == 0,
        x.is_finite(),
    ensures
        product(z, x).code() == 0,
{
    lemma_times_zero(x, z);
    crate::laws::double::law_double_commutes();
    reveal(crate::laws::arithmetic::multiplication_commutes);
    assert(x.s_mul(z) == z.s_mul(x));
}

/// A near number, confined to an interval that holds the number it is near.
proof fn lemma_near_clamped(q: Binary64, x: real, m: real, k: nat)
    requires
        is_near(q, x, m, growth(k)),
        -1 as real <= x <= 1 as real,
    ensures
        is_near(clamped(q, integer(-1), integer(1)), x, m, growth(k)),
{
    reveal(is_near);
    lemma_half();
    lemma_small_integers();
    lemma_mirror(integer(1));
    lemma_exact_opposite(integer(1));
    lemma_decoded(integer(-1));
    lemma_decoded(integer(1));
    lemma_decoded(opposite(integer(1)));
    assert(integer(-1) == opposite(integer(1)));
    lemma_exact_order(q, integer(-1));
    lemma_exact_order(integer(1), q);
}

/// The magnitude of a covariance that is divided by two deviations and
/// multiplied by them again.
pub open spec fn active_mass(c: real, larger: real, smaller: real) -> real {
    (larger * smaller + least()) * ((size(c) / larger + least()) / smaller + least()) + least()
}

/// In double precision two active features keep their covariance up to
/// rounding, for a covariance that is at most the product of the deviations:
/// the error is at most `(1 + 2^-53)^4 - 1` times the magnitude.
pub proof fn law_double_active_keeps_covariance(
    c: Binary64,
    mu: Binary64,
    v: Binary64,
    nu: Binary64,
    w: Binary64,
)
    requires
        c.is_finite(),
        mu.is_finite(),
        v.is_finite(),
        nu.is_finite(),
        w.is_finite(),
        is_active::<D>(Format::F64, mu, v) && !is_inactive::<D>(Format::F64, mu, v),
        is_active::<D>(Format::F64, nu, w) && !is_inactive::<D>(Format::F64, nu, w),
        size(exact(c)) <= exact(safe_deviation::<D>(Format::F64, v)) * exact(
            safe_deviation::<D>(Format::F64, w),
        ),
        rectified_covariance::<D>(Format::F64, c, mu, v, nu, w).is_finite(),
        larger_first(c, v, w).is_finite(),
        both_divided(c, v, w).is_finite(),
    ensures
        size(
            exact(rectified_covariance::<D>(Format::F64, c, mu, v, nu, w)) - exact(c),
        ) <= (growth(4) - 1 as real) * active_mass(
            exact(c),
            exact(larger(v, w)),
            exact(smaller(v, w)),
        ),
{
    lemma_alpha_range(mu, v);
    lemma_alpha_range(nu, w);
    lemma_active_form(c, mu, v, nu, w);
    let (a, b) = (safe_deviation::<D>(Format::F64, v), safe_deviation::<D>(Format::F64, w));
    let rho = pair_correlation::<D>(Format::F64, c, v, w);
    lemma_active_product(c, a, b, larger(v, w), smaller(v, w), rho, product(rho, integer(1)));
}

/// What is left of the covariance of active features.
proof fn lemma_active_form(c: Binary64, mu: Binary64, v: Binary64, nu: Binary64, w: Binary64)
    requires
        c.is_finite(),
        mu.is_finite(),
        v.is_finite(),
        nu.is_finite(),
        w.is_finite(),
        is_active::<D>(Format::F64, mu, v) && !is_inactive::<D>(Format::F64, mu, v),
        is_active::<D>(Format::F64, nu, w) && !is_inactive::<D>(Format::F64, nu, w),
    ensures
        ({
            let (a, b) = (
                safe_deviation::<D>(Format::F64, v),
                safe_deviation::<D>(Format::F64, w),
            );
            let rho = pair_correlation::<D>(Format::F64, c, v, w);
            &&& within(rho, 0)
            &&& rho == clamped(both_divided(c, v, w), integer(-1), integer(1))
            &&& crate::laws::arithmetic::same(product(rho, integer(1)), rho)
            &&& rectified_covariance::<D>(Format::F64, c, mu, v, nu, w) == product(
                product(a, b),
                product(rho, integer(1)),
            )
        }),
{
    lemma_active_series(c, mu, v, nu, w);
    lemma_correlation_form(c, v, w);
    let rho = pair_correlation::<D>(Format::F64, c, v, w);
    crate::laws::double::law_double_is_neutral();
    assert(crate::laws::arithmetic::is_one(integer(1))) by {
        lemma_small_integers();
    }
    crate::laws::arithmetic::mul_one(rho, integer(1));
}

/// What a correlation is.
proof fn lemma_correlation_form(c: Binary64, v: Binary64, w: Binary64)
    ensures
        pair_correlation::<D>(Format::F64, c, v, w) == clamped(
            both_divided(c, v, w),
            integer(-1),
            integer(1),
        ),
{
}

/// The larger of two deviations.
pub open spec fn larger(v: Binary64, w: Binary64) -> Binary64 {
    let (a, b) = (safe_deviation::<D>(Format::F64, v), safe_deviation::<D>(Format::F64, w));
    if precedes(a, b) {
        b
    } else {
        a
    }
}

/// The smaller of two deviations.
pub open spec fn smaller(v: Binary64, w: Binary64) -> Binary64 {
    let (a, b) = (safe_deviation::<D>(Format::F64, v), safe_deviation::<D>(Format::F64, w));
    if precedes(a, b) {
        a
    } else {
        b
    }
}

/// A covariance over the larger deviation.
pub open spec fn larger_first(c: Binary64, v: Binary64, w: Binary64) -> Binary64 {
    quotient(c, larger(v, w))
}

/// A covariance over both deviations.
pub open spec fn both_divided(c: Binary64, v: Binary64, w: Binary64) -> Binary64 {
    quotient(larger_first(c, v, w), smaller(v, w))
}

/// The covariance by way of the correlation.
proof fn lemma_active_product(
    c: Binary64,
    a: Binary64,
    b: Binary64,
    x: Binary64,
    y: Binary64,
    rho: Binary64,
    kept: Binary64,
)
    requires
        c.is_finite(),
        beyond(a, -537),
        beyond(b, -537),
        (x == a && y == b) || (x == b && y == a),
        size(exact(c)) <= exact(a) * exact(b),
        quotient(c, x).is_finite(),
        quotient(quotient(c, x), y).is_finite(),
        rho == clamped(quotient(quotient(c, x), y), integer(-1), integer(1)),
        crate::laws::arithmetic::same(kept, rho),
        within(rho, 0),
        product(product(a, b), kept).is_finite(),
    ensures
        size(exact(product(product(a, b), kept)) - exact(c)) <= (growth(4) - 1 as real)
            * active_mass(exact(c), exact(x), exact(y)),
{
    let (k, r, s) = (exact(c), exact(x), exact(y));
    let l = least();
    lemma_epsilon();
    lemma_growth(0, 1);
    lemma_grown_self(c);
    let once = quotient(c, x);
    lemma_near_over(c, x, k, r, size(k), 0);
    lemma_near_over(once, y, k / r, s, size(k) / r + l, 1);
    let q = (k / r) / s;
    let m = (size(k) / r + l) / s + l;
    // The real correlation is at most one.
    lemma_over(k, r);
    lemma_over(k / r, s);
    assert((q * s) * r == k);
    let rs = r * s;
    assert(exact(a) * exact(b) == rs) by {
        let (u, w) = (exact(a), exact(b));
        assert(u * w == w * u) by (nonlinear_arith);
    }
    assert(rs > 0 as real) by (nonlinear_arith)
        requires
            rs == r * s,
            r > 0 as real,
            s > 0 as real,
    ;
    assert((q * s) * r == q * rs) by (nonlinear_arith)
        requires
            rs == r * s,
    ;
    assert(q <= 1 as real) by (nonlinear_arith)
        requires
            q * rs <= rs,
            rs > 0 as real,
    ;
    assert(-1 as real <= q) by (nonlinear_arith)
        requires
            -rs <= q * rs,
            rs > 0 as real,
    ;
    lemma_near_clamped(quotient(once, y), q, m, 2);
    assert(is_near(kept, q, m, growth(2))) by {
        lemma_decoded(kept);
        lemma_decoded(rho);
        reveal(is_near);
        if kept != rho {
            crate::binary64::errors::lemma_exact_zero(kept);
            crate::binary64::errors::lemma_exact_zero(rho);
        }
    }
    lemma_factors_finite(product(a, b), kept);
    lemma_grown_self(a);
    lemma_grown_self(b);
    let (u, w) = (exact(a), exact(b));
    lemma_grown_product(a, b, u, w, u, w, 0, 0);
    lemma_grown_product(product(a, b), kept, u * w, q, u * w + l, m, 1, 2);
    assert((u * w) * q == k) by {
        assert(rs * q == q * rs) by (nonlinear_arith);
    }
    lemma_near_bound(product(product(a, b), kept), k, (rs + l) * m + l, growth(4));
}

} // verus!
