//! The rectified moments in every range, and the functions they are made of.
use vstd::prelude::*;

use crate::backend::Format;
use crate::scalar::Scalar;

verus! {

use crate::backend::{lowered, raised, sign_of, Model};
use crate::burn_sdp::cross::{cross_gate, gated};
use crate::burn_sdp::rectify;
use crate::burn_sdp::rectify::{central_mass, central_variance, density_of, tail_mass};
use crate::gaussian::{
    clamped, density, distribution, series_from, tail_fraction, tail_mean, tail_variance,
};
use crate::laws::arithmetic::{
    field_cancel, field_div, ring_add_comm, ring_dist, ring_mul_assoc, ring_mul_comm, ring_sub,
    ring_units, ring_zero,
};
use crate::laws::ordered::{
    field_halves, is_ordered_field, ord_cases, ord_ints, ord_root, ord_trans, ring_mul_neg,
};
use crate::laws::positive::{div_positive, lemma_fraction_positive, plus_positive};
use crate::laws::reflection::{law_relu_variance_closed_form, lemma_back};
use crate::laws::stein::lemma_ratio_is_plain;
use crate::laws::sums::{lemma_sum_eq, sum_to};
use crate::laws::tensors::{casts_nothing, lemma_cast};
use crate::scalar::{half, peak_density};
use crate::tensor::{group_tables, Block, Grid};
use crate::vector::{at_least, relu_mean, relu_variance, unit_relu_variance};

/// `x^n`.
pub open spec fn power<S: Scalar>(x: S, n: nat) -> S
    decreases n,
{
    if n == 0 {
        S::s_int(1)
    } else {
        power(x, (n - 1) as nat).s_mul(x)
    }
}

/// `1 * 3 * ... * (2 k + 1)`.
pub open spec fn odd_factorial<S: Scalar>(k: nat) -> S
    decreases k,
{
    if k == 0 {
        S::s_int(1)
    } else {
        odd_factorial::<S>((k - 1) as nat).s_mul(S::s_int(2 * k as int + 1))
    }
}

/// `x^(2k+1) / (1 * 3 * ... * (2k+1))`.
pub open spec fn odd_term<S: Scalar>(x: S, k: nat) -> S {
    power(x, 2 * k + 1).s_div(odd_factorial::<S>(k))
}

/// Products of odd numbers are not zero.
proof fn lemma_odd_factorial<S: Scalar>(k: nat)
    requires
        is_ordered_field::<S>(),
    ensures
        S::s_int(0).s_lt(odd_factorial::<S>(k)),
        odd_factorial::<S>(k) != S::s_int(0),
    decreases k,
{
    if k > 0 {
        lemma_odd_factorial::<S>((k - 1) as nat);
        reveal(crate::laws::ordered::multiplication_ordered);
        ord_ints::<S>(0, 2 * k as int + 1);
    } else {
        ord_ints::<S>(0, 1);
    }
    ord_cases(S::s_int(0), odd_factorial::<S>(k));
}

/// Each term is the one before times `x^2 / (2 k + 1)`.
proof fn lemma_next_term<S: Scalar>(x: S, k: nat)
    requires
        is_ordered_field::<S>(),
        k >= 1,
    ensures
        odd_term(x, k) == odd_term(x, (k - 1) as nat).s_mul(
            x.s_mul(x).s_div(S::s_int(2 * k as int + 1)),
        ),
{
    let j = (k - 1) as nat;
    let n = S::s_int(2 * k as int + 1);
    let (a, b) = (odd_factorial::<S>(j), odd_factorial::<S>(k));
    lemma_odd_factorial::<S>(j);
    lemma_odd_factorial::<S>(k);
    ord_ints::<S>(0, 2 * k as int + 1);
    ord_cases(S::s_int(0), n);
    let (p, q) = (power(x, 2 * j + 1), power(x, 2 * k + 1));
    assert(q == p.s_mul(x.s_mul(x))) by {
        reveal_with_fuel(power, 3);
        ring_mul_assoc(p, x, x);
    }
    let (t, w) = (odd_term(x, j), x.s_mul(x).s_div(n));
    field_div(p, a);
    field_div(x.s_mul(x), n);
    field_div(q, b);
    // (t w) (a n) = (t a) (w n) = p (x x) = q
    crate::laws::stein::lemma_mul_shuffle(t, w, a, n);
    field_cancel(odd_term(x, k), t.s_mul(w), b);
}

/// From a term that is zero on, all are.
proof fn lemma_zero_terms<S: Scalar>(x: S, k: nat, n: nat)
    requires
        is_ordered_field::<S>(),
        k <= n,
        odd_term(x, k) == S::s_int(0),
    ensures
        odd_term(x, n) == S::s_int(0),
    decreases n - k,
{
    if k < n {
        lemma_zero_terms(x, k, (n - 1) as nat);
        lemma_next_term(x, n);
        ring_zero(x.s_mul(x).s_div(S::s_int(2 * n as int + 1)));
    }
}

/// Zeros at the end of a sum.
proof fn lemma_sum_settled<S: Scalar>(x: S, k: nat, n: nat)
    requires
        is_ordered_field::<S>(),
        k <= n,
        odd_term(x, k) == S::s_int(0),
    ensures
        sum_to(n, |j: int| odd_term(x, j as nat)) == sum_to(k, |j: int| odd_term(x, j as nat)),
    decreases n - k,
{
    if k < n {
        lemma_sum_settled(x, k, (n - 1) as nat);
        lemma_zero_terms(x, k, (n - 1) as nat);
        ring_units(sum_to((n - 1) as nat, |j: int| odd_term(x, j as nat)));
    }
}

/// The series from its `k`-th term on.
proof fn lemma_series_sum<S: Scalar>(x: S, k: nat)
    requires
        is_ordered_field::<S>(),
        1 <= k <= 200,
    ensures
        series_from(
            x,
            odd_term(x, (k - 1) as nat),
            sum_to(k, |j: int| odd_term(x, j as nat)),
            k as int,
        ) == sum_to(200, |j: int| odd_term(x, j as nat)),
    decreases 200 - k,
{
    let f = |j: int| odd_term(x, j as nat);
    let total = sum_to(k, f);
    if k < 200 {
        lemma_next_term(x, k);
        let term = odd_term(x, k);
        let next = total.s_add(term);
        assert(sum_to(k + 1, f) == next);
        ord_cases(next, total);
        if next == total {
            crate::laws::arithmetic::ring_cancel(total, term);
            lemma_sum_settled(x, k, 200);
        } else {
            lemma_series_sum(x, k + 1);
        }
    }
}

/// The normal series is `x + x^3/3 + x^5/(3*5) + ...`, two hundred terms of it.
pub proof fn law_normal_series<S: Scalar>(x: S)
    requires
        is_ordered_field::<S>(),
    ensures
        series_from(x, x, x, 1) == sum_to(
            200,
            |k: int| power(x, (2 * k + 1) as nat).s_div(odd_factorial::<S>(k as nat)),
        ),
{
    let f = |j: int| odd_term(x, j as nat);
    reveal_with_fuel(power, 3);
    reveal_with_fuel(sum_to, 3);
    ring_units(x);
    ord_ints::<S>(0, 1);
    ord_cases(S::s_int(0), S::s_int(1));
    field_div(x, S::s_int(1));
    ring_units(x.s_div(S::s_int(1)));
    assert(odd_term(x, 0) == x);
    assert(sum_to(1, f) == x);
    lemma_series_sum(x, 1);
    lemma_sum_eq(
        200,
        f,
        |k: int| power(x, (2 * k + 1) as nat).s_div(odd_factorial::<S>(k as nat)),
    );
}

/// Half of a number.
pub proof fn lemma_half_of<S: Scalar>(y: S)
    requires
        is_ordered_field::<S>(),
    ensures
        half::<S>().s_mul(y) == y.s_div(S::s_int(2)),
        y.s_mul(half::<S>()) == y.s_div(S::s_int(2)),
        y.s_div(S::s_int(2)).s_add(y.s_div(S::s_int(2))) == y,
{
    let two = S::s_int(2);
    ord_ints::<S>(0, 2);
    ord_cases(S::s_int(0), two);
    let h = half::<S>();
    field_div(S::s_int(1), two);
    field_div(y, two);
    // (h y) 2 = (h 2) y = y
    ring_mul_assoc(h, y, two);
    ring_mul_comm(y, two);
    ring_mul_assoc(h, two, y);
    ring_units(y);
    field_cancel(h.s_mul(y), y.s_div(two), two);
    ring_mul_comm(h, y);
    field_halves::<S>();
    ring_dist(y, h, h);
}

/// The standard normal density times `sqrt(2 pi)` is `exp(-x^2 / 2)`.
pub proof fn law_density<S: Scalar>(x: S)
    requires
        is_ordered_field::<S>(),
        S::s_int(0).s_lt(S::s_pi()),
    ensures
        density(x).s_mul(S::s_int(2).s_mul(S::s_pi()).s_sqrt()) == x.s_mul(x).s_div(
            S::s_int(2),
        ).s_neg().s_exp(),
{
    lemma_peak_root::<S>();
    let h = half::<S>();
    lemma_half_of(x.s_mul(x));
    ring_mul_neg(h, x);
    ring_mul_neg(h.s_mul(x), x);
    ring_mul_assoc(h, x, x);
    field_div(
        h.s_neg().s_mul(x).s_mul(x).s_exp(),
        S::s_int(2).s_mul(S::s_pi()).s_sqrt(),
    );
}

/// The root of twice the circle constant is not zero.
proof fn lemma_peak_root<S: Scalar>()
    requires
        is_ordered_field::<S>(),
        S::s_int(0).s_lt(S::s_pi()),
    ensures
        S::s_int(2).s_mul(S::s_pi()).s_sqrt() != S::s_int(0),
{
    let zero = S::s_int(0);
    let w = S::s_int(2).s_mul(S::s_pi());
    ord_ints::<S>(0, 2);
    reveal(crate::laws::ordered::multiplication_ordered);
    ord_cases(zero, w);
    ord_root(w);
}

/// The normal density of a tensor's entry times `sqrt(2 pi)` is
/// `exp(-a^2 / 2)`.
pub proof fn law_tensor_density<M: Model>(f: Format, a: M::Elem)
    requires
        is_ordered_field::<M::Elem>(),
        casts_nothing::<M>(f),
        M::Elem::s_int(0).s_lt(M::Elem::s_pi()),
    ensures
        density_of::<M>(f, a).s_mul(
            M::Elem::s_int(2).s_mul(M::Elem::s_pi()).s_sqrt(),
        ) == a.s_mul(a).s_div(M::Elem::s_int(2)).s_neg().s_exp(),
{
    let h = half::<M::Elem>();
    let peak = peak_density::<M::Elem>();
    let root = M::Elem::s_int(2).s_mul(M::Elem::s_pi()).s_sqrt();
    lemma_cast::<M>(f, h.s_neg());
    lemma_cast::<M>(f, peak);
    lemma_peak_root::<M::Elem>();
    lemma_half_of(a.s_mul(a));
    ring_mul_neg(a.s_mul(a), h);
    field_div(M::Elem::s_int(1), root);
    let e = a.s_mul(a).s_mul(h.s_neg()).s_exp();
    ring_mul_assoc(e, peak, root);
    ring_units(e);
}

/// Twice the normal distribution function by the error function is
/// `1 + erf(a sqrt(1/2))`.
pub proof fn law_tensor_mass<M: Model>(f: Format, a: M::Elem)
    requires
        is_ordered_field::<M::Elem>(),
        casts_nothing::<M>(f),
    ensures
        central_mass::<M>(f, a).s_add(central_mass::<M>(f, a)) == M::Elem::s_int(1).s_add(
            a.s_mul(M::Elem::s_int(1).s_div(M::Elem::s_int(2)).s_sqrt()).s_erf(),
        ),
{
    let (h, one) = (half::<M::Elem>(), M::Elem::s_int(1));
    lemma_cast::<M>(f, h.s_sqrt());
    lemma_cast::<M>(f, h);
    lemma_cast::<M>(f, one);
    let e = a.s_mul(h.s_sqrt()).s_erf();
    ring_add_comm(e, one);
    lemma_half_of(one.s_add(e));
}

/// The distribution function is one half plus the density times the series,
/// between zero and one.
pub proof fn law_distribution<S: Scalar>(x: S, pdf: S)
    requires
        is_ordered_field::<S>(),
    ensures
        ({
            let z = S::s_int(1).s_div(S::s_int(2)).s_add(pdf.s_mul(series_from(x, x, x, 1)));
            &&& z.s_lt(S::s_int(0)) ==> distribution(x, pdf) == S::s_int(0)
            &&& S::s_int(1).s_lt(z) ==> distribution(x, pdf) == S::s_int(1)
            &&& S::s_int(0).s_le(z) && z.s_le(S::s_int(1)) ==> distribution(x, pdf) == z
        }),
{
    let z = half::<S>().s_add(pdf.s_mul(series_from(x, x, x, 1)));
    ord_ints::<S>(0, 1);
    ord_cases(z, S::s_int(0));
    ord_cases(S::s_int(0), z);
    ord_cases(z, S::s_int(1));
    ord_cases(S::s_int(1), z);
    if z.s_lt(S::s_int(0)) && S::s_int(1).s_lt(z) {
        ord_trans(S::s_int(1), z, S::s_int(0));
        ord_cases(S::s_int(0), S::s_int(1));
    }
}

/// A clamped number is the number between the limits, and otherwise the limit
/// that it lies beyond.
pub proof fn law_clamped<S: Scalar>(x: S, low: S, high: S)
    requires
        is_ordered_field::<S>(),
        low.s_le(high),
    ensures
        low.s_le(clamped(x, low, high)),
        clamped(x, low, high).s_le(high),
        low.s_le(x) && x.s_le(high) ==> clamped(x, low, high) == x,
        x.s_lt(low) ==> clamped(x, low, high) == low,
        high.s_lt(x) ==> clamped(x, low, high) == high,
{
    ord_cases(x, low);
    ord_cases(low, x);
    ord_cases(x, high);
    ord_cases(high, x);
    ord_cases(low, high);
    ord_cases(low, low);
    ord_cases(high, high);
    if x.s_lt(low) && high.s_lt(x) {
        ord_trans(high, x, low);
        ord_cases(high, low);
    }
}

/// Raising and lowering to a limit are the greater and the lesser of two
/// numbers, and the sign of a number is minus one, zero or one.
pub proof fn law_limits_and_signs<M: Model>(f: Format, x: M::Elem, y: M::Elem)
    requires
        is_ordered_field::<M::Elem>(),
        casts_nothing::<M>(f),
    ensures
        x.s_le(raised(x, y)) && y.s_le(raised(x, y)) && (raised(x, y) == x || raised(x, y) == y),
        lowered(x, y).s_le(x) && lowered(x, y).s_le(y) && (lowered(x, y) == x || lowered(x, y)
            == y),
        x.s_le(at_least(x, y)) && y.s_le(at_least(x, y)) && (at_least(x, y) == x || at_least(x, y)
            == y),
        x.s_lt(M::Elem::s_int(0)) ==> sign_of::<M>(f, x) == M::Elem::s_int(-1),
        x == M::Elem::s_int(0) ==> sign_of::<M>(f, x) == M::Elem::s_int(0),
        M::Elem::s_int(0).s_lt(x) ==> sign_of::<M>(f, x) == M::Elem::s_int(1),
{
    ord_cases(x, y);
    ord_cases(y, x);
    ord_cases(x, x);
    ord_cases(y, y);
    let zero = M::Elem::s_int(0);
    lemma_cast::<M>(f, zero);
    lemma_cast::<M>(f, M::Elem::s_int(1));
    lemma_cast::<M>(f, M::Elem::s_int(-1));
    ord_cases(x, zero);
    ord_cases(zero, x);
}

/// The levels of the continued fraction of the normal tail: level `n` times the
/// argument and the next level is `n`, up to level 96, beyond which there is
/// nothing.
pub proof fn law_tail_fraction<S: Scalar>(t: S, n: int)
    requires
        is_ordered_field::<S>(),
        S::s_int(0).s_lt(t),
        1 <= n,
    ensures
        n <= 96 ==> tail_fraction(t, n).s_mul(t.s_add(tail_fraction(t, n + 1))) == S::s_int(n),
        n > 96 ==> tail_fraction(t, n) == S::s_int(0),
{
    if n <= 96 {
        lemma_fraction_positive(t, n + 1);
        plus_positive(t, tail_fraction(t, n + 1));
        ord_cases(S::s_int(0), t.s_add(tail_fraction(t, n + 1)));
        field_div(S::s_int(n), t.s_add(tail_fraction(t, n + 1)));
    }
}

/// The moments of the tail beyond `t`, for the density `pdf` at `t`: with the
/// probability `T` of the tail, `T (t + r) = pdf` for the first level `r` of the
/// continued fraction, `mean + t T = pdf`, and the second moment plus `t mean` is
/// `T`.
pub proof fn law_vector_tail_moments<S: Scalar>(t: S, pdf: S, r: S, mass: S)
    requires
        is_ordered_field::<S>(),
        S::s_int(0).s_lt(t),
        r.s_mul(t.s_add(tail_fraction(t, 2))) == S::s_int(1),
        mass.s_mul(t.s_add(r)) == pdf,
    ensures
        tail_mean(t, pdf).s_add(t.s_mul(mass)) == pdf,
        tail_variance(t, pdf).s_add(tail_mean(t, pdf).s_mul(tail_mean(t, pdf))).s_add(
            t.s_mul(tail_mean(t, pdf)),
        ) == mass,
{
    let zero = S::s_int(0);
    let r2 = tail_fraction(t, 2);
    lemma_fraction_positive(t, 2);
    plus_positive(t, r2);
    let s = t.s_add(r2);
    ord_cases(zero, s);
    field_div(S::s_int(1), s);
    field_cancel(r, S::s_int(1).s_div(s), s);
    ord_ints::<S>(0, 1);
    div_positive(S::s_int(1), s);
    ord_cases(zero, r);
    plus_positive(t, r);
    ord_cases(zero, t.s_add(r));
    field_div(pdf, t.s_add(r));
    field_cancel(mass, pdf.s_div(t.s_add(r)), t.s_add(r));
    crate::laws::reflection::lemma_tail_terms(t, pdf);
    let m = tail_mean(t, pdf);
    let (mr, mm) = (m.s_mul(r2), m.s_mul(m));
    ring_sub(mr, mm);
    lemma_back(mr, mm);
}

/// What the rectifier does to a vector's entry at its limits: a fixed input is
/// rectified, eight deviations above zero an input passes, and eight below it
/// vanishes.
pub proof fn law_vector_relu_limits<S: Scalar>(mu: S, v: S)
    requires
        is_ordered_field::<S>(),
        S::s_int(0).s_le(v),
    ensures
        v == S::s_int(0) && S::s_int(0).s_le(mu) ==> relu_mean(mu, v) == mu,
        v == S::s_int(0) && mu.s_lt(S::s_int(0)) ==> relu_mean(mu, v) == S::s_int(0),
        v == S::s_int(0) ==> relu_variance(mu, v) == S::s_int(0),
        v != S::s_int(0) && S::s_int(8).s_le(mu.s_div(v.s_sqrt())) ==> relu_mean(mu, v) == mu
            && relu_variance(mu, v) == v,
        v != S::s_int(0) && mu.s_div(v.s_sqrt()).s_le(S::s_int(-8)) ==> relu_mean(mu, v)
            == S::s_int(0) && relu_variance(mu, v) == S::s_int(0),
{
    let zero = S::s_int(0);
    let a = mu.s_div(v.s_sqrt());
    ord_cases(v, zero);
    ord_cases(mu, zero);
    ord_cases(zero, mu);
    ord_ints::<S>(-8, 8);
    ord_cases(S::s_int(8), a);
    ord_cases(a, S::s_int(-8));
    if S::s_int(8).s_le(a) && a.s_le(S::s_int(-8)) {
        if S::s_int(8).s_lt(a) {
            ord_trans(S::s_int(-8), S::s_int(8), a);
        }
        ord_cases(S::s_int(-8), S::s_int(8));
        ord_cases(S::s_int(-8), a);
    }
}

/// What the rectifier does to a vector's entry from two deviations below zero up
/// to eight above it: the mean is `mu Phi + sigma phi`, and the variance
/// `(mu^2 + v) Phi + mu sigma phi` less the squared mean, or zero where that is
/// negative.
pub proof fn law_vector_relu_central<S: Scalar>(mu: S, v: S)
    requires
        is_ordered_field::<S>(),
        S::s_int(0).s_lt(v),
        S::s_int(-2).s_le(mu.s_div(v.s_sqrt())),
        mu.s_div(v.s_sqrt()).s_lt(S::s_int(8)),
    ensures
        ({
            let sigma = v.s_sqrt();
            let phi = density(mu.s_div(sigma));
            let p = distribution(mu.s_div(sigma), phi);
            let mean = mu.s_mul(p).s_add(sigma.s_mul(phi));
            let variance = mu.s_mul(mu).s_add(v).s_mul(p).s_add(
                mu.s_mul(sigma).s_mul(phi),
            ).s_sub(mean.s_mul(mean));
            &&& relu_mean(mu, v) == mean
            &&& S::s_int(0).s_le(variance) ==> relu_variance(mu, v) == variance
            &&& variance.s_lt(S::s_int(0)) ==> relu_variance(mu, v) == S::s_int(0)
        }),
{
    let zero = S::s_int(0);
    let a = mu.s_div(v.s_sqrt());
    let phi = density(a);
    let p = distribution(a, phi);
    lemma_range(v, a);
    law_relu_variance_closed_form(mu, v, p, phi);
    let u = v.s_mul(unit_relu_variance(a, p, phi));
    ord_cases(u, zero);
    ord_cases(zero, u);
}

/// Where a ratio from minus two to eight lies.
proof fn lemma_range<S: Scalar>(v: S, a: S)
    requires
        is_ordered_field::<S>(),
        S::s_int(0).s_lt(v),
        a.s_lt(S::s_int(8)),
    ensures
        !v.s_eq(S::s_int(0)),
        !S::s_int(8).s_le(a),
        S::s_int(-2).s_le(a) ==> !a.s_lt(S::s_int(-2)) && !a.s_le(S::s_int(-8)),
        S::s_int(-8).s_lt(a) ==> !a.s_le(S::s_int(-8)),
{
    let zero = S::s_int(0);
    ord_cases(zero, v);
    ord_cases(v, zero);
    ord_cases(S::s_int(8), a);
    ord_cases(a, S::s_int(8));
    ord_cases(a, S::s_int(-2));
    ord_cases(S::s_int(-2), a);
    ord_cases(a, S::s_int(-8));
    ord_cases(S::s_int(-8), a);
    ord_ints::<S>(-8, -2);
    if S::s_int(-2).s_lt(a) {
        ord_trans(S::s_int(-8), S::s_int(-2), a);
    }
}

/// What the rectifier does to a vector's entry from eight to two deviations below
/// zero: mean and variance are those of the tail beyond `-mu / sigma`, times
/// deviation and variance.
pub proof fn law_vector_relu_tail<S: Scalar>(mu: S, v: S)
    requires
        is_ordered_field::<S>(),
        S::s_int(0).s_lt(v),
        S::s_int(-8).s_lt(mu.s_div(v.s_sqrt())),
        mu.s_div(v.s_sqrt()).s_lt(S::s_int(-2)),
    ensures
        ({
            let a = mu.s_div(v.s_sqrt());
            &&& relu_mean(mu, v) == v.s_sqrt().s_mul(tail_mean(a.s_neg(), density(a)))
            &&& relu_variance(mu, v) == v.s_mul(tail_variance(a.s_neg(), density(a)))
        }),
{
    let a = mu.s_div(v.s_sqrt());
    ord_ints::<S>(-2, 8);
    ord_trans(a, S::s_int(-2), S::s_int(8));
    lemma_range(v, a);
}

/// What the rectifier does to a tensor's entry at its limits.
pub proof fn law_tensor_relu_limits<M: Model>(f: Format, mu: M::Elem, v: M::Elem)
    requires
        is_ordered_field::<M::Elem>(),
        casts_nothing::<M>(f),
        M::Elem::s_int(0).s_le(v),
    ensures
        ({
            let zero = M::Elem::s_int(0);
            let sigma = v.s_sqrt();
            let (m, s) = (rectify::relu_mean::<M>(f, mu, v), rectify::relu_variance::<M>(f, mu, v));
            let g = cross_gate::<M>(f, mu, v);
            &&& v == zero && zero.s_le(mu) ==> m == mu && s == zero && g == zero
            &&& v == zero && mu.s_lt(zero) ==> m == zero && s == zero && g == zero
            &&& v != zero && sigma.s_mul(M::Elem::s_int(8)).s_le(mu) ==> m == mu && s == v && g
                == M::Elem::s_int(1)
            &&& v != zero && mu.s_le(sigma.s_mul(M::Elem::s_int(-8))) ==> m == zero && s == zero
                && g == zero
        }),
{
    let zero = M::Elem::s_int(0);
    lemma_cast::<M>(f, zero);
    lemma_cast::<M>(f, M::Elem::s_int(1));
    ord_cases(zero, v);
    ord_cases(v, zero);
    ord_cases(mu, zero);
    ord_cases(zero, mu);
    if v != zero {
        lemma_ratio_is_plain::<M>(f, mu, v);
    }
}

/// What the rectifier does to a tensor's entry between its limits: from two
/// deviations below zero on, the mean is `mu Phi + sigma phi`, the variance
/// `(mu^2 + v) Phi + mu sigma phi` less the squared mean, or zero where that is
/// negative, and covariances are multiplied by `Phi`; below, mean, variance and
/// factor are those of the tail.
pub proof fn law_tensor_relu_between_limits<M: Model>(f: Format, mu: M::Elem, v: M::Elem)
    requires
        is_ordered_field::<M::Elem>(),
        casts_nothing::<M>(f),
        M::Elem::s_int(0).s_lt(v),
        v.s_sqrt().s_mul(M::Elem::s_int(-8)).s_lt(mu),
        mu.s_lt(v.s_sqrt().s_mul(M::Elem::s_int(8))),
    ensures
        ({
            let zero = M::Elem::s_int(0);
            let sigma = v.s_sqrt();
            let a = mu.s_div(sigma);
            let (m, s) = (rectify::relu_mean::<M>(f, mu, v), rectify::relu_variance::<M>(f, mu, v));
            let g = cross_gate::<M>(f, mu, v);
            let (p, phi) = (central_mass::<M>(f, a), density_of::<M>(f, a));
            let variance = mu.s_mul(mu).s_add(v).s_mul(p).s_add(
                mu.s_mul(sigma).s_mul(phi),
            ).s_sub(m.s_mul(m));
            let tail = v.s_mul(rectify::tail_variance::<M>(f, a));
            &&& !a.s_lt(M::Elem::s_int(-2)) ==> m == mu.s_mul(p).s_add(sigma.s_mul(phi)) && g == p
            &&& !a.s_lt(M::Elem::s_int(-2)) && zero.s_le(variance) ==> s == variance
            &&& !a.s_lt(M::Elem::s_int(-2)) && variance.s_lt(zero) ==> s == zero
            &&& a.s_lt(M::Elem::s_int(-2)) ==> m == sigma.s_mul(rectify::tail_mean::<M>(f, a)) && g
                == tail_mass::<M>(f, a)
            &&& a.s_lt(M::Elem::s_int(-2)) && zero.s_le(tail) ==> s == tail
            &&& a.s_lt(M::Elem::s_int(-2)) && tail.s_lt(zero) ==> s == zero
        }),
{
    let zero = M::Elem::s_int(0);
    let sigma = v.s_sqrt();
    let a = mu.s_div(sigma);
    lemma_cast::<M>(f, zero);
    lemma_cast::<M>(f, M::Elem::s_int(-2));
    lemma_ratio_is_plain::<M>(f, mu, v);
    ord_cases(sigma.s_mul(M::Elem::s_int(8)), mu);
    ord_cases(mu, sigma.s_mul(M::Elem::s_int(8)));
    ord_cases(mu, sigma.s_mul(M::Elem::s_int(-8)));
    ord_cases(sigma.s_mul(M::Elem::s_int(-8)), mu);
    let (p, phi) = (central_mass::<M>(f, a), density_of::<M>(f, a));
    law_relu_variance_closed_form(mu, v, p, phi);
    crate::laws::stein::lemma_unit_forms::<M>(f, a);
    let (x, y) = (v.s_mul(central_variance::<M>(f, a)), v.s_mul(
        rectify::tail_variance::<M>(f, a),
    ));
    ord_cases(x, zero);
    ord_cases(zero, x);
    ord_cases(y, zero);
    ord_cases(zero, y);
}

/// A rectifier of the right variable multiplies every covariance by a factor of
/// the feature that it stands for, in the same row of the batch.
pub proof fn law_cross_relu_entries<M: Model>(
    f: Format,
    cross_cov: Block<M::Elem>,
    mean: Grid<M::Elem>,
    var: Grid<M::Elem>,
    b: int,
    i: int,
    j: int,
)
    requires
        cross_cov.has(b, i, j),
    ensures
        gated::<M>(f, cross_cov, mean, var).dims() == cross_cov.dims(),
        gated::<M>(f, cross_cov, mean, var).at(b, i, j) == cross_cov.at(b, i, j).s_mul(
            cross_gate::<M>(f, mean.at(b, j), var.at(b, j)),
        ),
{
    broadcast use group_tables;

}

/// A variance of at most zero stands for a fixed input, in whatever arithmetic:
/// the rectifier gives the mean without its negative part and the leaky one the
/// mean with it scaled, both with variance zero, and covariances end.
pub proof fn law_fixed_inputs<M: Model>(f: Format, a: M::Elem, mu: M::Elem, v: M::Elem)
    requires
        v.s_le(M::cast(f, M::Elem::s_int(0))),
    ensures
        ({
            let zero = M::cast(f, M::Elem::s_int(0));
            let up = if mu.s_lt(zero) {
                zero
            } else {
                mu
            };
            let down = if zero.s_lt(mu) {
                zero
            } else {
                mu
            };
            &&& rectify::relu_mean::<M>(f, mu, v) == up
            &&& rectify::relu_variance::<M>(f, mu, v) == zero
            &&& rectify::leaky_mean::<M>(f, a, mu, v) == up.s_add(down.s_mul(M::cast(f, a)))
            &&& rectify::leaky_variance::<M>(f, a, mu, v) == zero
            &&& cross_gate::<M>(f, mu, v) == zero
        }),
{
}

} // verus!
