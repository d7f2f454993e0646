//! Rectifying does not raise a variance, up to rounding.
use vstd::prelude::*;

use crate::binary64::Binary64;
use crate::scalar::Scalar;

verus! {

use crate::binary64::arithmetic::{integer, opposite, product, quotient, square_root};
use crate::binary64::bounds::{lemma_integer_bounds, within};
use crate::binary64::compare::precedes;
use crate::binary64::errors::{epsilon, exact, least, lemma_product_error};
use crate::binary64::lemma_decoded;
use crate::gaussian::{density, distribution};
use crate::laws::double::lemma_small_integers;
use crate::laws::finite::lemma_small_powers;
use crate::laws::normal::lemma_tiny;
use crate::laws::spread::{
    lemma_rounded_down, lemma_small_unit, lemma_unit_sides, lemma_variance_at_most,
    lemma_variance_bound, variance_bound,
};
use crate::laws::symmetry::{
    lemma_deviation, lemma_even_density, lemma_exact_order, lemma_half, lemma_integer_order,
    lemma_mirror, lemma_opposite_integers, lemma_opposite_ratio,
};
use crate::vector::{relu_variance, unit_relu_variance};

/// A variance times a unit variance, cut off at zero.
proof fn lemma_cut_at_most(v: Binary64, u: Binary64)
    requires
        v.is_finite(),
        u.is_finite(),
        exact(v) >= 0 as real,
        exact(u) <= 1 as real + 800 as real * epsilon(),
        crate::vector::at_least(product(v, u), integer(0)).is_finite(),
    ensures
        exact(crate::vector::at_least(product(v, u), integer(0))) <= variance_bound(exact(v)),
{
    lemma_half();
    lemma_variance_bound(exact(v));
    let x = product(v, u);
    if integer(0).s_le(x) {
        if exact(u) >= 0 as real {
            lemma_variance_at_most(v, u);
        } else {
            lemma_tiny();
            lemma_product_error(v, u);
            lemma_negative_product(exact(v), exact(u));
            lemma_rounded_down(exact(x), exact(v) * exact(u), epsilon(), least());
        }
    }
}

/// A product of numbers of either sign.
proof fn lemma_negative_product(w: real, t: real)
    requires
        w >= 0 as real,
        t < 0 as real,
    ensures
        w * t <= 0 as real,
{
    assert(w * t <= 0 as real) by (nonlinear_arith)
        requires
            w >= 0 as real,
            t < 0 as real,
    ;
}

/// In double precision the rectified variance of a vector's entry is at most the
/// variance, up to rounding, unless the mean lies between two and eight
/// deviations above zero.
pub proof fn law_double_vector_relu_variance_not_raised(mu: Binary64, v: Binary64)
    requires
        mu.is_finite(),
        v.is_finite(),
        !precedes(v, integer(0)),
        v.code() == 0 || !precedes(integer(2), quotient(mu, square_root(v))) || !precedes(
            quotient(mu, square_root(v)),
            integer(8),
        ),
        relu_variance(mu, v).is_finite(),
    ensures
        exact(relu_variance(mu, v)) <= variance_bound(exact(v)),
{
    lemma_half();
    lemma_small_integers();
    lemma_decoded(v);
    lemma_exact_order(v, integer(0));
    lemma_variance_bound(exact(v));
    if v.code() > 0 {
        let a = quotient(mu, square_root(v));
        lemma_deviation(v);
        lemma_opposite_ratio(mu, square_root(v));
        if precedes(a, integer(-2)) && !a.s_le(integer(-8)) {
            lemma_tail_spread(mu, v);
        } else if !integer(8).s_le(a) && !a.s_le(integer(-8)) {
            lemma_upper_side(a);
            lemma_two_deviations(a);
            lemma_closed_unit(a);
            lemma_closed_variance(mu, v, a);
            lemma_cut_at_most(v, closed_unit(a));
        }
    }
}

/// The variance of the tail.
proof fn lemma_tail_spread(mu: Binary64, v: Binary64)
    requires
        mu.is_finite(),
        v.is_finite(),
        v.code() > 0,
        !v.negative(),
        exact(v) >= 0 as real,
        precedes(quotient(mu, square_root(v)), integer(-2)),
        !quotient(mu, square_root(v)).s_le(integer(-8)),
        relu_variance(mu, v).is_finite(),
    ensures
        exact(relu_variance(mu, v)) <= variance_bound(exact(v)),
{
    lemma_tiny();
    lemma_small_integers();
    lemma_opposite_integers(2);
    lemma_opposite_integers(8);
    lemma_integer_order();
    lemma_small_powers();
    lemma_integer_bounds(2, 1, 1);
    lemma_integer_bounds(8, 3, 3);
    let a = quotient(mu, square_root(v));
    lemma_mirror(a);
    lemma_decoded(a);
    let phi = density(a);
    let t = opposite(a);
    crate::laws::signs::lemma_density_beyond(a);
    crate::laws::signs::lemma_tail_variance_sign(t, phi);
    let u = crate::gaussian::tail_variance(t, phi);
    lemma_small_unit(u);
    assert(relu_variance(mu, v) == product(v, u));
    lemma_variance_at_most(v, u);
}

/// A ratio between minus two and two.
proof fn lemma_two_deviations(a: Binary64)
    requires
        !a.is_undefined(),
        !precedes(a, integer(-2)),
        !precedes(integer(2), a),
    ensures
        within(a, 1),
{
    lemma_small_powers();
    lemma_opposite_integers(2);
    lemma_integer_bounds(2, 1, 1);
    lemma_decoded(a);
}

/// What is not above two, or not below eight, and below eight.
proof fn lemma_upper_side(a: Binary64)
    requires
        !a.is_undefined(),
        !precedes(integer(2), a) || !precedes(a, integer(8)),
        !integer(8).s_le(a),
    ensures
        !precedes(integer(2), a),
{
    lemma_opposite_integers(8);
}

/// The unit variance that the closed form gives.
#[verifier::opaque]
spec fn closed_unit(a: Binary64) -> Binary64 {
    unit_relu_variance(a, distribution(a, density(a)), density(a))
}

/// The unit variance within two deviations.
proof fn lemma_closed_unit(a: Binary64)
    requires
        within(a, 1),
    ensures
        closed_unit(a).is_finite(),
        exact(closed_unit(a)) <= 1 as real + 800 as real * epsilon(),
{
    reveal(closed_unit);
    lemma_mirror(a);
    crate::laws::symmetry::lemma_double_opposite(a);
    if a.negative() {
        lemma_even_density(a);
        lemma_unit_sides(opposite(a));
    } else {
        lemma_unit_sides(a);
    }
}

/// The rectified variance by the closed form.
proof fn lemma_closed_variance(mu: Binary64, v: Binary64, a: Binary64)
    requires
        a == quotient(mu, square_root(v)),
        !v.s_eq(integer(0)),
        !integer(8).s_le(a),
        !a.s_le(integer(-8)),
        !precedes(a, integer(-2)),
    ensures
        relu_variance(mu, v) == crate::vector::at_least(product(v, closed_unit(a)), integer(0)),
{
    reveal(closed_unit);
}

} // verus!
