//! Rescaling by a power of two commutes with the rectifier in double precision.
use vstd::prelude::*;

use crate::backend::Format;
use crate::binary64::Binary64;
use crate::dense::Dense;
use crate::scalar::Scalar;

verus! {

use crate::backend::raised;
use crate::binary64::arithmetic::{integer, opposite, product, quotient, square_root, sum};
use crate::binary64::bounds::{lemma_integer_bounds, lemma_product_beyond, lemma_product_within};
use crate::binary64::compare::precedes;
use crate::binary64::rounding::p_pos;
use crate::binary64::shifting::{
    is_clear, is_shifted, lemma_opposite_shifted, lemma_order_shifted, lemma_product_shifted,
    lemma_quotient_shifted, lemma_root_shifted, lemma_sum_shifted, lemma_zero_shifted,
};
use crate::binary64::{lemma_decoded, lemma_encoded};
use crate::burn_sdp::cross::cross_gate;
use crate::burn_sdp::rectify;
use crate::burn_sdp::rectify::{alpha_of, in_tail, safe_deviation};
use crate::laws::accuracy::lemma_finite_terms;
use crate::laws::double::lemma_small_integers;
use crate::laws::finite::{lemma_alpha_range, lemma_small_powers, lemma_some_units, lemma_zero_value};
use crate::gaussian::{density, distribution, tail_mean, tail_variance};
use crate::vector;
use crate::vector::{at_least, unit_relu_variance};

/// Whether the rectified moments of a vector's entry are clear of underflow:
/// each product of mean, deviation or variance with a unit moment keeps all its
/// digits.
pub open spec fn is_vector_clear(mu: Binary64, v: Binary64) -> bool {
    let sigma = square_root(v);
    let alpha = quotient(mu, sigma);
    let phi = density(alpha);
    let p = distribution(alpha, phi);
    if precedes(alpha, integer(-2)) {
        &&& is_clear(sigma, tail_mean(opposite(alpha), phi))
        &&& is_clear(v, tail_variance(opposite(alpha), phi))
    } else {
        &&& is_clear(mu, p)
        &&& is_clear(sigma, phi)
        &&& is_clear(v, unit_relu_variance(alpha, p, phi))
    }
}

/// A number times `2^k` is zero where the number is.
proof fn lemma_zero_kept(v: Binary64, w: Binary64, k: int)
    requires
        is_shifted(v, w, k),
    ensures
        v.code() == 0 <==> w.code() == 0,
{
    p_pos(k);
    if v.code() == 0 {
        lemma_zero_value(v);
        assert(0 * crate::binary64::rounding::p(k) == 0);
        if w.code() > 0 {
            lemma_some_units(w);
        }
    } else {
        lemma_decoded(v);
        lemma_some_units(v);
        assert(w.units() > 0) by (nonlinear_arith)
            requires
                w.units() == v.units() * crate::binary64::rounding::p(k),
                v.units() > 0,
                crate::binary64::rounding::p(k) > 0,
        ;
        if w.code() == 0 {
            lemma_zero_value(w);
        }
    }
}

/// Cutting a product off at zero, for a factor times `2^k`.
proof fn lemma_cut_shifted(v: Binary64, w: Binary64, u: Binary64, k: int)
    requires
        k >= 0,
        is_shifted(v, w, k),
        is_clear(v, u),
    ensures
        ({
            let zero = integer(0);
            &&& at_least(product(w, u), zero).is_finite() ==> is_shifted(
                at_least(product(v, u), zero),
                at_least(product(w, u), zero),
                k,
            )
            &&& raised(product(w, u), zero).is_finite() ==> is_shifted(
                raised(product(v, u), zero),
                raised(product(w, u), zero),
                k,
            )
        }),
{
    lemma_small_integers();
    let zero = integer(0);
    lemma_zero_shifted(zero, k);
    lemma_product_shifted(v, w, u, k);
    lemma_decoded(product(w, u));
    lemma_decoded(product(v, u));
    if product(w, u).is_finite() {
        lemma_order_shifted(product(v, u), product(w, u), zero, zero, k);
    } else {
        assert(!product(v, u).is_undefined()) by {
            lemma_encoded(
                v.negative() != u.negative(),
                crate::binary64::rounding::nearest(
                    v.units() * u.units(),
                    crate::binary64::rounding::p(crate::binary64::UNIT as int) as nat,
                ),
            );
        }
    }
}

/// In double precision the rectified moments of an input scaled by a power of
/// two are the rectified moments scaled by it: the mean once, the variance
/// twice. This holds to the last bit, as long as the products are clear of
/// underflow and the scaled moments finite.
pub proof fn law_double_vector_relu_scales(
    k: nat,
    mu: Binary64,
    v: Binary64,
    nu: Binary64,
    w: Binary64,
)
    requires
        is_shifted(mu, nu, k as int),
        is_shifted(v, w, 2 * k as int),
        !v.negative(),
        v.code() > 0 ==> is_vector_clear(mu, v),
        vector::relu_mean(nu, w).is_finite(),
        vector::relu_variance(nu, w).is_finite(),
    ensures
        is_shifted(vector::relu_mean(mu, v), vector::relu_mean(nu, w), k as int),
        is_shifted(vector::relu_variance(mu, v), vector::relu_variance(nu, w), 2 * k as int),
{
    let zero = integer(0);
    lemma_small_integers();
    lemma_zero_shifted(zero, k as int);
    lemma_zero_shifted(zero, 2 * k as int);
    lemma_zero_kept(v, w, 2 * k as int);
    lemma_order_shifted(mu, nu, zero, zero, k as int);
    lemma_decoded(v);
    if v.code() > 0 {
        let sigma = square_root(v);
        let tau = square_root(w);
        lemma_root_shifted(v, w, k as int);
        lemma_quotient_shifted(mu, nu, sigma, tau, k as int);
        let alpha = quotient(mu, sigma);
        let phi = density(alpha);
        let p = distribution(alpha, phi);
        if precedes(alpha, integer(-2)) {
            lemma_product_shifted(sigma, tau, tail_mean(opposite(alpha), phi), k as int);
            lemma_product_shifted(v, w, tail_variance(opposite(alpha), phi), 2 * k as int);
        } else {
            lemma_product_shifted(mu, nu, p, k as int);
            lemma_product_shifted(sigma, tau, phi, k as int);
            if !Binary64::s_int(8).s_le(alpha) && !alpha.s_le(Binary64::s_int(-8)) {
                lemma_finite_terms(product(nu, p), product(tau, phi));
                lemma_sum_shifted(
                    product(mu, p),
                    product(sigma, phi),
                    product(nu, p),
                    product(tau, phi),
                    k as int,
                );
            }
            lemma_cut_shifted(v, w, unit_relu_variance(alpha, p, phi), 2 * k as int);
        }
    }
}

/// Whether the rectified moments of a tensor's entry are clear of underflow.
pub open spec fn is_tensor_clear(mu: Binary64, v: Binary64) -> bool {
    let f = Format::F64;
    let sigma = safe_deviation::<Dense<Binary64>>(f, v);
    let a = alpha_of::<Dense<Binary64>>(f, mu, v);
    if in_tail::<Dense<Binary64>>(f, a) {
        &&& is_clear(sigma, rectify::tail_mean::<Dense<Binary64>>(f, a))
        &&& is_clear(v, rectify::tail_variance::<Dense<Binary64>>(f, a))
    } else {
        &&& is_clear(mu, rectify::central_mass::<Dense<Binary64>>(f, a))
        &&& is_clear(sigma, rectify::density_of::<Dense<Binary64>>(f, a))
        &&& is_clear(v, rectify::central_variance::<Dense<Binary64>>(f, a))
    }
}

/// Scaling by a power of two scales the deviation and keeps its ratio to the
/// mean.
proof fn lemma_alpha_shifted(k: int, mu: Binary64, v: Binary64, nu: Binary64, w: Binary64)
    requires
        k >= 0,
        is_shifted(mu, nu, k),
        is_shifted(v, w, 2 * k),
        !v.negative(),
        v.code() > 0,
    ensures
        w.code() > 0,
        is_shifted(
            safe_deviation::<Dense<Binary64>>(Format::F64, v),
            safe_deviation::<Dense<Binary64>>(Format::F64, w),
            k,
        ),
        alpha_of::<Dense<Binary64>>(Format::F64, nu, w) == alpha_of::<Dense<Binary64>>(
            Format::F64,
            mu,
            v,
        ),
{
    lemma_small_integers();
    lemma_small_powers();
    lemma_zero_kept(v, w, 2 * k);
    lemma_decoded(v);
    lemma_decoded(w);
    let sigma = safe_deviation::<Dense<Binary64>>(Format::F64, v);
    let tau = safe_deviation::<Dense<Binary64>>(Format::F64, w);
    assert(sigma == square_root(v));
    assert(tau == square_root(w));
    lemma_root_shifted(v, w, k);
    lemma_alpha_range(mu, v);
    lemma_alpha_range(nu, w);
    let eight = integer(8);
    lemma_integer_bounds(8, 3, 3);
    lemma_product_beyond(sigma, eight, -537, 3);
    lemma_product_within(tau, eight, 512, 3);
    let limit = product(sigma, eight);
    let high = product(tau, eight);
    lemma_product_shifted(sigma, tau, eight, k);
    assert(is_shifted(limit, high, k));
    lemma_opposite_shifted(limit, high, k);
    lemma_order_shifted(limit, high, mu, nu, k);
    lemma_order_shifted(mu, nu, opposite(limit), opposite(high), k);
    lemma_quotient_shifted(mu, nu, sigma, tau, k);
    lemma_quotient_shifted(limit, high, sigma, tau, k);
    lemma_quotient_shifted(opposite(limit), opposite(high), sigma, tau, k);
}

/// In double precision the rectified moments of a tensor scaled by a power of
/// two are the rectified moments scaled by it: the mean once, the variance
/// twice. This holds to the last bit, as long as the products are clear of
/// underflow and the scaled moments finite.
pub proof fn law_double_relu_scales(k: nat, mu: Binary64, v: Binary64, nu: Binary64, w: Binary64)
    requires
        is_shifted(mu, nu, k as int),
        is_shifted(v, w, 2 * k as int),
        !v.negative(),
        v.code() > 0 ==> is_tensor_clear(mu, v),
        rectify::relu_mean::<Dense<Binary64>>(Format::F64, nu, w).is_finite(),
        rectify::relu_variance::<Dense<Binary64>>(Format::F64, nu, w).is_finite(),
    ensures
        is_shifted(
            rectify::relu_mean::<Dense<Binary64>>(Format::F64, mu, v),
            rectify::relu_mean::<Dense<Binary64>>(Format::F64, nu, w),
            k as int,
        ),
        is_shifted(
            rectify::relu_variance::<Dense<Binary64>>(Format::F64, mu, v),
            rectify::relu_variance::<Dense<Binary64>>(Format::F64, nu, w),
            2 * k as int,
        ),
{
    let f = Format::F64;
    let zero = integer(0);
    lemma_small_integers();
    lemma_zero_shifted(zero, k as int);
    lemma_zero_shifted(zero, 2 * k as int);
    lemma_zero_kept(v, w, 2 * k as int);
    lemma_order_shifted(mu, nu, zero, zero, k as int);
    lemma_decoded(v);
    if v.code() > 0 {
        lemma_alpha_shifted(k as int, mu, v, nu, w);
        let sigma = safe_deviation::<Dense<Binary64>>(f, v);
        let tau = safe_deviation::<Dense<Binary64>>(f, w);
        let a = alpha_of::<Dense<Binary64>>(f, mu, v);
        if in_tail::<Dense<Binary64>>(f, a) {
            let m = rectify::tail_mean::<Dense<Binary64>>(f, a);
            lemma_product_shifted(sigma, tau, m, k as int);
            lemma_cut_shifted(
                v,
                w,
                rectify::tail_variance::<Dense<Binary64>>(f, a),
                2 * k as int,
            );
        } else {
            let p = rectify::central_mass::<Dense<Binary64>>(f, a);
            let phi = rectify::density_of::<Dense<Binary64>>(f, a);
            lemma_product_shifted(mu, nu, p, k as int);
            lemma_product_shifted(sigma, tau, phi, k as int);
            if sum(product(nu, p), product(tau, phi)).is_finite() {
                lemma_finite_terms(product(nu, p), product(tau, phi));
                lemma_sum_shifted(
                    product(mu, p),
                    product(sigma, phi),
                    product(nu, p),
                    product(tau, phi),
                    k as int,
                );
            }
            lemma_cut_shifted(
                v,
                w,
                rectify::central_variance::<Dense<Binary64>>(f, a),
                2 * k as int,
            );
        }
    }
}

/// In double precision, scaling the right variable by a power of two leaves the
/// factor on its covariances alone to the last bit, so that a transported
/// covariance scales with it, as long as it is clear of underflow and finite.
pub proof fn law_double_cross_covariance_scales(
    k: nat,
    c: Binary64,
    d: Binary64,
    mu: Binary64,
    v: Binary64,
    nu: Binary64,
    w: Binary64,
)
    requires
        is_shifted(c, d, k as int),
        is_shifted(mu, nu, k as int),
        is_shifted(v, w, 2 * k as int),
        !v.negative(),
        is_clear(c, cross_gate::<Dense<Binary64>>(Format::F64, mu, v)),
        product(d, cross_gate::<Dense<Binary64>>(Format::F64, nu, w)).is_finite(),
    ensures
        cross_gate::<Dense<Binary64>>(Format::F64, nu, w) == cross_gate::<Dense<Binary64>>(
            Format::F64,
            mu,
            v,
        ),
        is_shifted(
            product(c, cross_gate::<Dense<Binary64>>(Format::F64, mu, v)),
            product(d, cross_gate::<Dense<Binary64>>(Format::F64, nu, w)),
            k as int,
        ),
{
    let zero = integer(0);
    lemma_small_integers();
    lemma_zero_shifted(zero, k as int);
    lemma_zero_kept(v, w, 2 * k as int);
    lemma_order_shifted(mu, nu, zero, zero, k as int);
    lemma_decoded(v);
    if v.code() > 0 {
        lemma_alpha_shifted(k as int, mu, v, nu, w);
    }
    lemma_product_shifted(c, d, cross_gate::<Dense<Binary64>>(Format::F64, mu, v), k as int);
}

} // verus!
