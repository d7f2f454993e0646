//! Rectified means and variances are not negative.
use vstd::prelude::*;

use crate::backend::Format;
use crate::scalar::Scalar;

verus! {

use crate::backend::Model;
use crate::burn_sdp::rectify::{
    alpha_of, central_mass, density_of, first_ratio, in_tail, is_fixed, is_inactive,
    relu_mean as burn_relu_mean, safe_deviation, second_ratio, tail_mean as rectify_tail_mean,
    tail_point, tail_ratio,
};
use crate::gaussian::{density, distribution, tail_fraction, tail_mean, tail_variance, FRACTION_DEPTH};
use crate::laws::arithmetic::{
    field_div, ring_add_comm, ring_dist, ring_ints, ring_mul_assoc, ring_mul_comm, ring_sub,
    ring_units, ring_zero,
};
use crate::laws::ordered::{
    is_ordered_field, multiplication_ordered, ord_add, ord_cases, ord_diff, ord_ints, ord_neg,
    ord_root, ord_scale, ord_trans, ring_mul_neg,
};
use crate::laws::tensors::{casts_nothing, lemma_cast};
use crate::scalar::{half, peak_density};
use crate::vector::{relu_mean, relu_variance};

/// Whether exponentials are positive, and at most one below zero; and whether
/// the circle constant is at least one.
#[verifier::opaque]
pub open spec fn exponentials_fit<S: Scalar>() -> bool {
    &&& forall|x: S| S::s_int(0).s_lt(#[trigger] x.s_exp())
    &&& forall|x: S| x.s_le(S::s_int(0)) ==> (#[trigger] x.s_exp()).s_le(S::s_int(1))
    &&& S::s_int(1).s_le(S::s_pi())
}

/// Being at most is transitive.
pub proof fn le_trans<S: Scalar>(a: S, b: S, c: S)
    requires
        is_ordered_field::<S>(),
        a.s_le(b),
        b.s_le(c),
    ensures
        a.s_le(c),
{
    ord_cases(a, b);
    ord_cases(b, c);
    ord_cases(a, c);
    if a.s_lt(b) && b.s_lt(c) {
        ord_trans(a, b, c);
    }
}

/// A factor that is not negative keeps what is at most.
pub proof fn le_scale<S: Scalar>(x: S, a: S, b: S)
    requires
        is_ordered_field::<S>(),
        S::s_int(0).s_le(x),
        a.s_le(b),
    ensures
        x.s_mul(a).s_le(x.s_mul(b)),
{
    ord_cases(S::s_int(0), x);
    if x == S::s_int(0) {
        ring_zero(a);
        ring_zero(b);
        ord_cases(x, x);
    } else {
        ord_scale(x, a, b);
    }
}

/// A sum of a number and one that is not negative is at least the number.
proof fn le_plus<S: Scalar>(a: S, x: S)
    requires
        is_ordered_field::<S>(),
        S::s_int(0).s_le(x),
    ensures
        a.s_le(a.s_add(x)),
{
    let zero = S::s_int(0);
    ord_add(zero, x, a);
    ring_units(a);
    ring_add_comm(x, a);
    ord_cases(zero, x);
    ord_cases(a, a.s_add(x));
}

/// Adding a number keeps what is at most.
proof fn le_add<S: Scalar>(a: S, b: S, c: S)
    requires
        is_ordered_field::<S>(),
        a.s_le(b),
    ensures
        a.s_add(c).s_le(b.s_add(c)),
        c.s_add(a).s_le(c.s_add(b)),
{
    ord_add(a, b, c);
    ord_cases(a, b);
    ord_cases(a.s_add(c), b.s_add(c));
    ring_add_comm(a, c);
    ring_add_comm(b, c);
}

/// A positive number over a positive number is positive.
pub proof fn div_positive<S: Scalar>(a: S, b: S)
    requires
        is_ordered_field::<S>(),
        S::s_int(0).s_lt(a),
        S::s_int(0).s_lt(b),
    ensures
        S::s_int(0).s_lt(a.s_div(b)),
{
    let zero = S::s_int(0);
    ord_cases(zero, b);
    field_div(a, b);
    ord_scale(b, zero, a.s_div(b));
    ring_zero(b);
}

/// A positive number plus one that is not negative is positive.
pub proof fn plus_positive<S: Scalar>(a: S, x: S)
    requires
        is_ordered_field::<S>(),
        S::s_int(0).s_lt(a),
        S::s_int(0).s_le(x),
    ensures
        S::s_int(0).s_lt(a.s_add(x)),
        a.s_add(x) != S::s_int(0),
{
    let zero = S::s_int(0);
    le_plus(a, x);
    ord_cases(a, a.s_add(x));
    if a.s_lt(a.s_add(x)) {
        ord_trans(zero, a, a.s_add(x));
    }
    ord_cases(zero, a.s_add(x));
}

/// The levels of the continued fraction are positive.
pub proof fn lemma_fraction_positive<S: Scalar>(t: S, n: int)
    requires
        is_ordered_field::<S>(),
        S::s_int(0).s_lt(t),
        1 <= n,
    ensures
        S::s_int(0).s_le(tail_fraction(t, n)),
        n <= FRACTION_DEPTH ==> S::s_int(0).s_lt(tail_fraction(t, n)),
    decreases FRACTION_DEPTH + 1 - n,
{
    let zero = S::s_int(0);
    if n > FRACTION_DEPTH {
        ord_cases(zero, zero);
    } else {
        lemma_fraction_positive(t, n + 1);
        plus_positive(t, tail_fraction(t, n + 1));
        ord_ints::<S>(0, n);
        div_positive(S::s_int(n), t.s_add(tail_fraction(t, n + 1)));
        ord_cases(zero, tail_fraction(t, n));
    }
}

/// The density is positive and at most one.
proof fn lemma_density_range<S: Scalar>(x: S)
    requires
        is_ordered_field::<S>(),
        exponentials_fit::<S>(),
    ensures
        S::s_int(0).s_lt(density(x)),
        density(x).s_le(S::s_int(1)),
{
    let zero = S::s_int(0);
    let one = S::s_int(1);
    let two = S::s_int(2);
    let h = half::<S>();
    // The exponent is not positive.
    ord_ints::<S>(0, 1);
    ord_ints::<S>(0, 2);
    ord_ints::<S>(1, 2);
    div_positive(one, two);
    let exponent = h.s_neg().s_mul(x).s_mul(x);
    ring_mul_assoc(h.s_neg(), x, x);
    ring_mul_neg(h, x.s_mul(x));
    lemma_square_not_negative(x);
    ord_cases(zero, h);
    le_scale(h, zero, x.s_mul(x));
    ring_zero(h);
    let w = h.s_mul(x.s_mul(x));
    ord_neg(zero, w);
    ring_units(zero);
    crate::laws::ordered::lemma_neg_unique(zero, zero);
    ord_cases(zero, w);
    ord_cases(exponent, zero);
    let e = exponent.s_exp();
    assert(zero.s_lt(e) && e.s_le(one) && one.s_le(S::s_pi())) by {
        reveal(exponentials_fit);
    }
    // The root of 2 pi is at least one.
    let r = two.s_mul(S::s_pi()).s_sqrt();
    ord_cases(zero, two);
    ord_cases(one, two);
    le_scale(two, one, S::s_pi());
    ring_units(two);
    le_trans(one, two, two.s_mul(S::s_pi()));
    lemma_root_at_least_one(two.s_mul(S::s_pi()));
    lemma_less_at_most(zero, one, r);
    div_positive(e, r);
    // e = (e / r) r is at least e / r.
    let d = e.s_div(r);
    ord_cases(zero, d);
    ord_cases(zero, r);
    field_div(e, r);
    le_scale(d, one, r);
    ring_units(d);
    le_trans(d, e, one);
}

/// `a < b` and `b <= c` give `a < c`.
proof fn lemma_less_at_most<S: Scalar>(a: S, b: S, c: S)
    requires
        is_ordered_field::<S>(),
        a.s_lt(b),
        b.s_le(c),
    ensures
        a.s_lt(c),
{
    ord_cases(b, c);
    if b.s_lt(c) {
        ord_trans(a, b, c);
    }
}

/// Squares are not negative.
pub proof fn lemma_square_not_negative<S: Scalar>(x: S)
    requires
        is_ordered_field::<S>(),
    ensures
        S::s_int(0).s_le(x.s_mul(x)),
{
    let zero = S::s_int(0);
    ord_cases(zero, x);
    ord_cases(zero, x.s_mul(x));
    if zero.s_lt(x) {
        crate::laws::ordered::ord_square(x);
    } else if x == zero {
        ring_zero(zero);
    } else {
        let n = x.s_neg();
        ord_neg(x, zero);
        ring_units(zero);
        crate::laws::ordered::lemma_neg_unique(zero, zero);
        crate::laws::ordered::ord_square(n);
        ring_mul_neg(n, x);
        ring_mul_neg(x, x);
        crate::laws::ordered::ring_neg_twice(x.s_mul(x), x);
    }
}

/// A number that is at least one has a root that is at least one.
proof fn lemma_root_at_least_one<S: Scalar>(v: S)
    requires
        is_ordered_field::<S>(),
        S::s_int(1).s_le(v),
    ensures
        S::s_int(1).s_le(v.s_sqrt()),
{
    let zero = S::s_int(0);
    let one = S::s_int(1);
    let r = v.s_sqrt();
    ord_ints::<S>(0, 1);
    lemma_less_at_most(zero, one, v);
    ord_cases(zero, v);
    ord_root(v);
    ord_cases(one, r);
    if r.s_lt(one) {
        // r r < r < 1 <= v = r r
        ord_scale(r, r, one);
        ring_units(r);
        ord_trans(r.s_mul(r), r, one);
        lemma_less_at_most(v, one, v);
        ord_cases(v, v);
    }
}

/// Beyond two deviations the tail mean is at most the second ratio of the
/// continued fraction, so that the tail variance is not negative.
proof fn lemma_tail_variance<S: Scalar>(t: S, pdf: S)
    requires
        is_ordered_field::<S>(),
        S::s_int(2).s_lt(t),
        S::s_int(0).s_lt(pdf),
        pdf.s_le(S::s_int(1)),
    ensures
        S::s_int(0).s_le(tail_variance(t, pdf)),
{
    let zero = S::s_int(0);
    let one = S::s_int(1);
    let two = S::s_int(2);
    let three = S::s_int(3);
    ord_ints::<S>(0, 1);
    ord_ints::<S>(0, 2);
    ord_ints::<S>(0, 3);
    ord_ints::<S>(1, 2);
    ord_trans(zero, two, t);
    ord_trans(one, two, t);
    ord_cases(one, t);
    ord_cases(zero, t);
    ord_cases(two, t);
    let f4 = tail_fraction(t, 4);
    let f3 = tail_fraction(t, 3);
    let r2 = tail_fraction(t, 2);
    lemma_fraction_positive(t, 4);
    lemma_fraction_positive(t, 3);
    lemma_fraction_positive(t, 2);
    plus_positive(t, f4);
    plus_positive(t, f3);
    plus_positive(t, r2);
    // f3 <= f3 (t + f4) = 3
    field_div(three, t.s_add(f4));
    le_plus(t, f4);
    le_trans(one, t, t.s_add(f4));
    le_scale(f3, one, t.s_add(f4));
    ring_units(f3);
    // r2 (t + 3) >= r2 (t + f3) = 2
    let top = t.s_add(three);
    field_div(two, t.s_add(f3));
    le_add(f3, three, t);
    le_scale(r2, t.s_add(f3), top);
    // r1 t <= r1 (t + r2) = 1
    let r1 = one.s_div(t.s_add(r2));
    field_div(one, t.s_add(r2));
    div_positive(one, t.s_add(r2));
    ord_cases(zero, r1);
    le_plus(t, r2);
    le_scale(r1, t, t.s_add(r2));
    // mean (t + r1) = pdf r1 <= r1
    let mean = tail_mean(t, pdf);
    let share = pdf.s_mul(r1);
    plus_positive(t, r1);
    assert(zero.s_lt(share)) by {
        reveal(multiplication_ordered);
    }
    div_positive(share, t.s_add(r1));
    field_div(share, t.s_add(r1));
    ord_cases(zero, mean);
    le_scale(r1, pdf, one);
    ring_units(r1);
    ring_mul_comm(r1, pdf);
    le_plus(t, r1);
    le_scale(mean, t, t.s_add(r1));
    le_trans(mean.s_mul(t), share, r1);
    // mean t t <= r1 t <= 1
    let mtt = mean.s_mul(t).s_mul(t);
    le_scale(t, mean.s_mul(t), r1);
    ring_mul_comm(t, mean.s_mul(t));
    ring_mul_comm(t, r1);
    le_trans(mtt, r1.s_mul(t), one);
    // t + 3 <= 2 (t t)
    lemma_quadratic_wins(t);
    // mean (t + 3) <= mean (2 (t t)) = 2 (mean t t) <= 2
    let tt = t.s_mul(t);
    le_scale(mean, top, two.s_mul(tt));
    ring_mul_assoc(mean, two, tt);
    ring_mul_comm(mean, two);
    ring_mul_assoc(two, mean, tt);
    ring_mul_assoc(mean, t, t);
    ord_cases(zero, two);
    le_scale(two, mtt, one);
    ring_units(two);
    le_trans(mean.s_mul(top), two.s_mul(mtt), two);
    le_trans(mean.s_mul(top), two, r2.s_mul(top));
    // mean <= r2
    ord_cases(zero, three);
    plus_positive(t, three);
    ring_mul_comm(mean, top);
    ring_mul_comm(r2, top);
    ord_scale(top, mean, r2);
    // mean r2 - mean mean = mean (r2 - mean) >= 0
    le_scale(mean, mean, r2);
    let x = mean.s_mul(mean);
    let y = mean.s_mul(r2);
    ord_cases(x, y);
    ord_diff(x, y);
    ord_cases(zero, y.s_sub(x));
    if x == y {
        ring_sub(y, x);
    }
}

/// `t + 3 <= 2 t^2` beyond two.
proof fn lemma_quadratic_wins<S: Scalar>(t: S)
    requires
        is_ordered_field::<S>(),
        S::s_int(2).s_lt(t),
    ensures
        t.s_add(S::s_int(3)).s_le(S::s_int(2).s_mul(t.s_mul(t))),
{
    let zero = S::s_int(0);
    let two = S::s_int(2);
    let three = S::s_int(3);
    let tt = t.s_mul(t);
    ord_ints::<S>(0, 2);
    ord_ints::<S>(3, 4);
    ord_cases(three, S::s_int(4));
    ord_trans(zero, two, t);
    ord_cases(zero, t);
    ord_cases(two, t);
    ord_cases(zero, two);
    // 2 t <= t t and 4 <= 2 t
    le_scale(t, two, t);
    ring_mul_comm(t, two);
    le_scale(two, two, t);
    ring_units(two);
    ring_dist(two, S::s_int(1), S::s_int(1));
    ring_ints::<S>(1, 1);
    ring_ints::<S>(2, 2);
    ring_units(t);
    let t2 = two.s_mul(t);
    le_trans(three, S::s_int(4), t2);
    le_trans(three, t2, tt);
    // t <= 2 t <= t t
    ord_ints::<S>(1, 2);
    ord_cases(S::s_int(1), two);
    le_scale(t, S::s_int(1), two);
    le_trans(t, t2, tt);
    // t + 3 <= t t + t t
    le_add(t, tt, three);
    le_add(three, tt, tt);
    le_trans(t.s_add(three), tt.s_add(three), tt.s_add(tt));
    ring_dist(tt, S::s_int(1), S::s_int(1));
    ring_units(tt);
    ring_mul_comm(tt, two);
}

/// The tail mean is positive.
proof fn lemma_tail_mean_positive<S: Scalar>(t: S, pdf: S)
    requires
        is_ordered_field::<S>(),
        S::s_int(0).s_lt(t),
        S::s_int(0).s_lt(pdf),
    ensures
        S::s_int(0).s_lt(tail_mean(t, pdf)),
{
    let r2 = tail_fraction(t, 2);
    lemma_fraction_positive(t, 2);
    plus_positive(t, r2);
    ord_ints::<S>(0, 1);
    let r1 = S::s_int(1).s_div(t.s_add(r2));
    div_positive(S::s_int(1), t.s_add(r2));
    ord_cases(S::s_int(0), r1);
    plus_positive(t, r1);
    assert(S::s_int(0).s_lt(pdf.s_mul(r1))) by {
        reveal(multiplication_ordered);
    }
    div_positive(pdf.s_mul(r1), t.s_add(r1));
}

/// A product of numbers that are not negative is not negative.
pub proof fn product_not_negative<S: Scalar>(a: S, b: S)
    requires
        is_ordered_field::<S>(),
        S::s_int(0).s_le(a),
        S::s_int(0).s_le(b),
    ensures
        S::s_int(0).s_le(a.s_mul(b)),
{
    le_scale(a, S::s_int(0), b);
    ring_zero(a);
}

/// A sum of numbers that are not negative is not negative.
pub proof fn sum_not_negative<S: Scalar>(a: S, b: S)
    requires
        is_ordered_field::<S>(),
        S::s_int(0).s_le(a),
        S::s_int(0).s_le(b),
    ensures
        S::s_int(0).s_le(a.s_add(b)),
{
    le_plus(a, b);
    le_trans(S::s_int(0), a, a.s_add(b));
}

/// A number that is not negative over a positive one is not negative.
proof fn div_not_negative<S: Scalar>(a: S, b: S)
    requires
        is_ordered_field::<S>(),
        S::s_int(0).s_le(a),
        S::s_int(0).s_lt(b),
    ensures
        S::s_int(0).s_le(a.s_div(b)),
{
    let zero = S::s_int(0);
    ord_cases(zero, a);
    ord_cases(zero, b);
    ord_cases(zero, a.s_div(b));
    if zero.s_lt(a) {
        div_positive(a, b);
    } else {
        field_div(a, b);
        ring_zero(b);
        crate::laws::arithmetic::field_cancel(a.s_div(b), zero, b);
    }
}

/// The rectified mean is not negative where the mean is not, in the tail, and
/// at the limits.
pub proof fn law_vector_relu_mean_not_negative<S: Scalar>(mu: S, v: S)
    requires
        is_ordered_field::<S>(),
        exponentials_fit::<S>(),
        S::s_int(0).s_le(v),
        S::s_int(0).s_le(mu) || v == S::s_int(0) || mu.s_div(v.s_sqrt()).s_lt(S::s_int(-2)),
    ensures
        S::s_int(0).s_le(relu_mean(mu, v)),
{
    let zero = S::s_int(0);
    ord_cases(zero, zero);
    ord_cases(v, zero);
    ord_cases(zero, mu);
    if v != zero {
        ord_cases(zero, v);
        ord_root(v);
        let sigma = v.s_sqrt();
        let alpha = mu.s_div(sigma);
        let phi = density(alpha);
        lemma_density_range(alpha);
        ord_cases(zero, sigma);
        ord_cases(zero, phi);
        ord_ints::<S>(0, 8);
        ord_ints::<S>(-2, 0);
        if S::s_int(8).s_le(alpha) {
            lemma_less_at_most(zero, S::s_int(8), alpha);
            field_div(mu, sigma);
            ord_cases(zero, alpha);
            product_not_negative(alpha, sigma);
        } else if !alpha.s_le(S::s_int(-8)) && alpha.s_lt(S::s_int(-2)) {
            ord_neg(alpha, S::s_int(-2));
            ring_ints::<S>(-2, 2);
            crate::laws::ordered::lemma_neg_unique(S::s_int(-2), S::s_int(2));
            ord_ints::<S>(0, 2);
            ord_trans(zero, S::s_int(2), alpha.s_neg());
            lemma_tail_mean_positive(alpha.s_neg(), phi);
            ord_cases(zero, tail_mean(alpha.s_neg(), phi));
            product_not_negative(sigma, tail_mean(alpha.s_neg(), phi));
        } else if !alpha.s_le(S::s_int(-8)) {
            let p = distribution(alpha, phi);
            ord_ints::<S>(0, 1);
            ord_cases(zero, S::s_int(1));
            ord_cases(zero, p);
            product_not_negative(mu, p);
            product_not_negative(sigma, phi);
            sum_not_negative(mu.s_mul(p), sigma.s_mul(phi));
        }
    }
}

/// Whether the error function is not negative above zero.
#[verifier::opaque]
pub open spec fn error_function_rises<S: Scalar>() -> bool {
    forall|x: S| S::s_int(0).s_le(x) ==> S::s_int(0).s_le(#[trigger] x.s_erf())
}

/// The levels of the continued fraction on tensors are positive.
pub proof fn lemma_ratio_positive<M: Model>(f: Format, t: M::Elem, n: int, depth: int)
    requires
        is_ordered_field::<M::Elem>(),
        casts_nothing::<M>(f),
        M::Elem::s_int(0).s_lt(t),
        1 <= n <= depth,
    ensures
        M::Elem::s_int(0).s_lt(tail_ratio::<M>(f, t, n, depth)),
    decreases depth - n,
{
    let one = M::Elem::s_int(1);
    lemma_cast::<M>(f, one);
    lemma_cast::<M>(f, M::Elem::s_int(depth));
    lemma_cast::<M>(f, M::Elem::s_int(n));
    ord_ints::<M::Elem>(0, 1);
    ord_ints::<M::Elem>(0, depth);
    ord_ints::<M::Elem>(0, n);
    reveal(multiplication_ordered);
    if n >= depth {
        div_positive(one, t);
    } else {
        lemma_ratio_positive::<M>(f, t, n + 1, depth);
        let next = tail_ratio::<M>(f, t, n + 1, depth);
        ord_cases(M::Elem::s_int(0), next);
        plus_positive(t, next);
        div_positive(one, t.s_add(next));
    }
}

/// The density on tensors is positive.
proof fn lemma_density_of_positive<M: Model>(f: Format, a: M::Elem)
    requires
        is_ordered_field::<M::Elem>(),
        casts_nothing::<M>(f),
        exponentials_fit::<M::Elem>(),
    ensures
        M::Elem::s_int(0).s_lt(density_of::<M>(f, a)),
{
    let zero = M::Elem::s_int(0);
    let one = M::Elem::s_int(1);
    let two = M::Elem::s_int(2);
    lemma_cast::<M>(f, half::<M::Elem>().s_neg());
    lemma_cast::<M>(f, peak_density::<M::Elem>());
    ord_ints::<M::Elem>(0, 1);
    ord_ints::<M::Elem>(0, 2);
    reveal(exponentials_fit);
    lemma_less_at_most(zero, one, M::Elem::s_pi());
    reveal(multiplication_ordered);
    let w = two.s_mul(M::Elem::s_pi());
    ord_cases(zero, w);
    ord_root(w);
    div_positive(one, w.s_sqrt());
    let e = a.s_mul(a).s_mul(half::<M::Elem>().s_neg()).s_exp();
    assert(zero.s_lt(e));
}

/// The same on tensors: the rectified mean is not negative where the mean is
/// not, in the tail, and at the limits.
pub proof fn law_relu_mean_not_negative<M: Model>(f: Format, mu: M::Elem, v: M::Elem)
    requires
        is_ordered_field::<M::Elem>(),
        casts_nothing::<M>(f),
        exponentials_fit::<M::Elem>(),
        error_function_rises::<M::Elem>(),
        M::Elem::s_int(0).s_le(mu) || is_fixed::<M>(f, v) || is_inactive::<M>(f, mu, v) || in_tail::<
            M,
        >(f, alpha_of::<M>(f, mu, v)),
    ensures
        M::Elem::s_int(0).s_le(burn_relu_mean::<M>(f, mu, v)),
{
    let zero = M::Elem::s_int(0);
    let one = M::Elem::s_int(1);
    lemma_cast::<M>(f, zero);
    lemma_cast::<M>(f, one);
    lemma_cast::<M>(f, M::Elem::s_int(8));
    lemma_cast::<M>(f, M::Elem::s_int(2));
    lemma_cast::<M>(f, M::Elem::s_int(-2));
    ord_cases(zero, zero);
    ord_cases(zero, mu);
    ord_cases(v, zero);
    ord_cases(zero, v);
    if !is_fixed::<M>(f, v) {
        ord_root(v);
        let sigma = safe_deviation::<M>(f, v);
        let a = alpha_of::<M>(f, mu, v);
        ord_cases(zero, sigma);
        lemma_density_of_positive::<M>(f, a);
        let phi = density_of::<M>(f, a);
        ord_cases(zero, phi);
        if zero.s_le(mu) {
            // The bounded ratio is not negative either.
            let limit = sigma.s_mul(M::Elem::s_int(8));
            ord_ints::<M::Elem>(0, 8);
            reveal(multiplication_ordered);
            ord_cases(zero, limit);
            ord_neg(zero, limit);
            ring_units(zero);
            crate::laws::ordered::lemma_neg_unique(zero, zero);
            ord_cases(limit.s_neg(), zero);
            ord_cases(mu, limit.s_neg());
            if mu.s_lt(limit.s_neg()) {
                ord_trans(mu, limit.s_neg(), zero);
                ord_cases(mu, zero);
            }
            div_not_negative(limit, sigma);
            div_not_negative(mu, sigma);
            assert(zero.s_le(a));
            ord_ints::<M::Elem>(-2, 0);
            ord_cases(a, M::Elem::s_int(-2));
            ord_cases(zero, a);
            if a.s_lt(M::Elem::s_int(-2)) {
                ord_trans(a, M::Elem::s_int(-2), zero);
            }
            let h = half::<M::Elem>();
            lemma_cast::<M>(f, h);
            lemma_cast::<M>(f, h.s_sqrt());
            ord_ints::<M::Elem>(0, 1);
            ord_ints::<M::Elem>(0, 2);
            ord_cases(zero, one);
            div_positive(one, M::Elem::s_int(2));
            ord_cases(zero, h);
            ord_root(h);
            product_not_negative(a, h.s_sqrt());
            let e = a.s_mul(h.s_sqrt()).s_erf();
            assert(zero.s_le(e)) by {
                reveal(error_function_rises);
            }
            sum_not_negative(e, one);
            product_not_negative(e.s_add(one), h);
            let p = central_mass::<M>(f, a);
            product_not_negative(mu, p);
            product_not_negative(sigma, phi);
            sum_not_negative(mu.s_mul(p), sigma.s_mul(phi));
        } else if !is_inactive::<M>(f, mu, v) {
            let t = tail_point::<M>(f, a);
            ord_neg(a, M::Elem::s_int(-2));
            ring_ints::<M::Elem>(-2, 2);
            crate::laws::ordered::lemma_neg_unique(M::Elem::s_int(-2), M::Elem::s_int(2));
            ord_ints::<M::Elem>(0, 2);
            ord_trans(zero, M::Elem::s_int(2), a.s_neg());
            ord_cases(a.s_neg(), M::Elem::s_int(2));
            assert(zero.s_lt(t));
            lemma_ratio_positive::<M>(f, t, 2, crate::burn_sdp::rectify::fraction_depth(f));
            let r2 = second_ratio::<M>(f, t);
            ord_cases(zero, r2);
            plus_positive(t, r2);
            ord_ints::<M::Elem>(0, 1);
            div_positive(one, t.s_add(r2));
            let r1 = first_ratio::<M>(f, t);
            ord_cases(zero, r1);
            plus_positive(t, r1);
            div_positive(phi, t.s_add(r1));
            reveal(multiplication_ordered);
            let m = rectify_tail_mean::<M>(f, a);
            assert(zero.s_lt(m));
            assert(zero.s_lt(sigma.s_mul(m)));
            ord_cases(zero, sigma.s_mul(m));
            // Eight deviations above zero cannot be two below.
            ord_ints::<M::Elem>(-2, 8);
            ord_cases(M::Elem::s_int(8), a);
            if M::Elem::s_int(8).s_le(a) {
                lemma_less_at_most(M::Elem::s_int(-2), M::Elem::s_int(8), a);
                ord_cases(M::Elem::s_int(-2), a);
            }
        }
    }
}

/// The rectifier's variance is not negative.
pub proof fn law_vector_relu_variance_not_negative<S: Scalar>(mu: S, v: S)
    requires
        is_ordered_field::<S>(),
        exponentials_fit::<S>(),
        S::s_int(0).s_le(v),
    ensures
        S::s_int(0).s_le(relu_variance(mu, v)),
{
    let zero = S::s_int(0);
    ord_cases(zero, zero);
    ord_cases(v, zero);
    let alpha = mu.s_div(v.s_sqrt());
    let phi = density(alpha);
    if alpha.s_lt(S::s_int(-2)) {
        let t = alpha.s_neg();
        ord_neg(alpha, S::s_int(-2));
        ring_ints::<S>(-2, 2);
        crate::laws::ordered::lemma_neg_unique(S::s_int(-2), S::s_int(2));
        lemma_density_range(alpha);
        lemma_tail_variance(t, phi);
        le_scale(v, zero, tail_variance(t, phi));
        ring_zero(v);
    }
}

} // verus!
