//! Rectified moments are not negative in double precision.
use vstd::prelude::*;

use crate::binary64::{Binary64, UNIT};
use crate::scalar::Scalar;

verus! {

use crate::binary64::arithmetic::{integer, opposite, product, quotient, square_root, sum};
use crate::binary64::bounds::{
    beyond, lemma_beyond_less, lemma_integer_bounds, lemma_nearest_rises, lemma_product_beyond,
    lemma_product_within, lemma_quotient_beyond, lemma_quotient_within, lemma_root_beyond,
    lemma_sum_beyond, lemma_sum_within, lemma_within_more, within,
};
use crate::binary64::compare::{lemma_units_grow, precedes};
use crate::binary64::rounding::{nearest, p, p_pos};
use crate::binary64::series::{circle, exponential};
use crate::binary64::{lemma_decoded, lemma_encoded};
use crate::gaussian::{density, tail_fraction, tail_mean, tail_variance};
use crate::laws::between::lemma_fraction_range;
use crate::laws::double::lemma_small_integers;
use crate::laws::finite::{
    lemma_circle, lemma_exponential_below, lemma_quotient_sign, lemma_some_units,
    lemma_small_powers, lemma_zero_value,
};
use crate::laws::symmetry::{
    lemma_deviation, lemma_half, lemma_mirror, lemma_opposite_integers, lemma_opposite_ratio,
};
use crate::scalar::half;
use crate::vector::relu_variance;

/// The density beyond two deviations is at most one half.
pub proof fn lemma_density_beyond(a: Binary64)
    requires
        within(a, 3),
        a.code() >= 1024 * crate::binary64::rounding::ORDER,
    ensures
        within(density(a), -1),
        !density(a).negative(),
{
    lemma_small_integers();
    lemma_small_powers();
    lemma_half();
    lemma_mirror(half::<Binary64>());
    let h = opposite(half::<Binary64>());
    let x = product(h, a);
    let y = product(x, a);
    crate::laws::finite::lemma_constants();
    lemma_product_within(h, a, 0, 3);
    lemma_product_within(x, a, 3, 3);
    lemma_within_more(y, 6, 10);
    let den = p(UNIT as int) as nat;
    lemma_encoded(h.negative() != a.negative(), nearest(h.units() * a.units(), den));
    lemma_encoded(x.negative() != a.negative(), nearest(x.units() * a.units(), den));
    // Its square is not zero.
    assert(y.code() > 0) by {
        lemma_half_beyond();
        lemma_mirror(a);
        let b = if a.negative() {
            opposite(a)
        } else {
            a
        };
        let g = half::<Binary64>();
        assert(beyond(b, 1));
        lemma_product_beyond(g, b, -1, 1);
        lemma_encoded(false, nearest(g.units() * b.units(), den));
        let z = product(g, b);
        assert(z.code() == x.code());
        lemma_decoded(z);
        lemma_decoded(x);
        assert(z.is_finite());
        lemma_product_beyond(z, b, 0, 1);
        lemma_encoded(false, nearest(z.units() * b.units(), den));
    }
    lemma_decoded(y);
    lemma_exponential_below(y);
    lemma_integer_bounds(2, 1, 1);
    lemma_circle();
    lemma_product_within(integer(2), circle(), 1, 2);
    lemma_product_beyond(integer(2), circle(), 1, 1);
    let w = product(integer(2), circle());
    lemma_root_beyond(w, 1);
    let root = square_root(w);
    lemma_quotient_within(exponential(y), root, 0, 1);
    lemma_encoded(false, nearest(exponential(y).units() * den, root.units()));
}

/// One half is at least one half.
pub proof fn lemma_half_beyond()
    ensures
        beyond(half::<Binary64>(), -1),
{
    lemma_small_integers();
    lemma_small_powers();
    lemma_half();
    lemma_integer_bounds(1, 0, 0);
    lemma_integer_bounds(2, 1, 1);
    lemma_quotient_beyond(integer(1), integer(2), 0, 1);
}

/// The moments of the tail: the mean is at most an eighth, the second level of
/// the fraction at least that.
pub proof fn lemma_tail_moments(t: Binary64, phi: Binary64)
    requires
        within(t, 3),
        beyond(t, 1),
        within(phi, -1),
        !phi.negative(),
    ensures
        within(tail_mean(t, phi), -3),
        !tail_mean(t, phi).negative(),
        beyond(tail_fraction(t, 2), -3),
        within(tail_fraction(t, 2), 0),
{
    lemma_small_integers();
    lemma_small_powers();
    lemma_integer_bounds(1, 0, 0);
    lemma_integer_bounds(2, 1, 1);
    lemma_integer_bounds(3, 1, 2);
    lemma_fraction_range(t, 4);
    lemma_fraction_range(t, 3);
    lemma_fraction_range(t, 2);
    // 3 / (t + ...) is at most two.
    let r4 = tail_fraction(t, 4);
    lemma_within_more(t, 3, 7);
    lemma_sum_within(t, r4, 7);
    lemma_sum_beyond(t, r4, 1);
    lemma_quotient_within(integer(3), sum(t, r4), 2, 1);
    let r3 = tail_fraction(t, 3);
    assert(r3 == quotient(integer(3), sum(t, r4)));
    lemma_within_more(r3, 1, 3);
    lemma_sum_within(t, r3, 3);
    lemma_sum_beyond(t, r3, 1);
    let s = sum(t, r3);
    lemma_quotient_beyond(integer(2), s, 1, 4);
    lemma_quotient_within(integer(2), s, 1, 1);
    let r2 = tail_fraction(t, 2);
    assert(r2 == quotient(integer(2), s));
    // The mean.
    lemma_sum_within(t, r2, 7);
    lemma_sum_beyond(t, r2, 1);
    let r1 = quotient(integer(1), sum(t, r2));
    lemma_quotient_within(integer(1), sum(t, r2), 0, 1);
    lemma_beyond_less(sum(t, r2), 1, 0);
    lemma_quotient_sign(integer(1), sum(t, r2));
    let den = p(UNIT as int) as nat;
    lemma_encoded(false, nearest(integer(1).units() * den, sum(t, r2).units()));
    lemma_within_more(r1, -1, 7);
    lemma_sum_within(t, r1, 7);
    lemma_sum_beyond(t, r1, 1);
    lemma_product_within(phi, r1, -1, -1);
    lemma_encoded(false, nearest(phi.units() * r1.units(), den));
    let n = product(phi, r1);
    lemma_quotient_within(n, sum(t, r1), -2, 1);
    lemma_encoded(false, nearest(n.units() * den, sum(t, r1).units()));
}

/// The variance of the tail is not negative.
pub proof fn lemma_tail_variance_sign(t: Binary64, phi: Binary64)
    requires
        within(t, 3),
        beyond(t, 1),
        within(phi, -1),
        !phi.negative(),
    ensures
        within(tail_variance(t, phi), -2),
        tail_variance(t, phi).value() >= 0,
{
    lemma_tail_moments(t, phi);
    let (m, r) = (tail_mean(t, phi), tail_fraction(t, 2));
    let den = p(UNIT as int) as nat;
    p_pos(UNIT as int);
    assert(m.units() <= r.units()) by {
        if m.code() < r.code() {
            lemma_units_grow(m, r);
        }
        lemma_decoded(m);
        lemma_decoded(r);
    }
    assert(m.units() * m.units() <= m.units() * r.units()) by (nonlinear_arith)
        requires
            m.units() <= r.units(),
    ;
    lemma_nearest_rises(m.units() * m.units(), m.units() * r.units(), den);
    let (x, y) = (product(m, r), product(m, m));
    lemma_product_within(m, r, -3, 0);
    lemma_product_within(m, m, -3, -3);
    lemma_encoded(false, nearest(m.units() * m.units(), den));
    lemma_encoded(false, nearest(m.units() * r.units(), den));
    assert(y.units() <= x.units()) by {
        if y.code() < x.code() {
            lemma_units_grow(y, x);
        }
        lemma_decoded(x);
        lemma_decoded(y);
    }
    lemma_mirror(y);
    let w = opposite(y);
    lemma_within_more(w, -6, -3);
    lemma_sum_within(x, w, -3);
    let v = x.value() + w.value();
    assert(v >= 0);
    lemma_encoded(false, nearest(v as nat, 1));
    lemma_encoded(x.negative() && w.negative(), 0);
    if v == 0 {
        lemma_zero_value(sum(x, w));
    }
}

/// In double precision the rectified variance of a vector's entry is not
/// negative, for every finite mean and every variance that is not.
pub proof fn law_double_vector_relu_variance_not_negative(mu: Binary64, v: Binary64)
    requires
        mu.is_finite(),
        v.is_finite(),
        !precedes(v, integer(0)),
    ensures
        !precedes(relu_variance(mu, v), integer(0)),
{
    lemma_small_integers();
    lemma_decoded(v);
    let zero = integer(0);
    if v.code() > 0 {
        let sigma = square_root(v);
        lemma_deviation(v);
        lemma_opposite_ratio(mu, sigma);
        let a = quotient(mu, sigma);
        lemma_opposite_integers(2);
        lemma_opposite_integers(8);
        lemma_small_powers();
        lemma_integer_bounds(2, 1, 1);
        lemma_integer_bounds(8, 3, 3);
        lemma_mirror(a);
        lemma_decoded(a);
        if !a.s_le(integer(-8)) && precedes(a, integer(-2)) {
            let t = opposite(a);
            let phi = density(a);
            lemma_density_beyond(a);
            lemma_tail_variance_sign(t, phi);
            let w = tail_variance(t, phi);
            let den = p(UNIT as int) as nat;
            let x = product(v, w);
            lemma_encoded(v.negative() != w.negative(), nearest(v.units() * w.units(), den));
            if w.negative() {
                if w.code() > 0 {
                    lemma_some_units(w);
                }
                crate::laws::double::lemma_times_zero(v, w);
            }
        }
    }
}

} // verus!
