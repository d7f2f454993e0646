//! Reflection in double precision: what rounding leaves of it.
use vstd::prelude::*;

use crate::backend::Format;
use crate::binary64::rounding::INFINITE_CODE;
use crate::binary64::{Binary64, UNIT};
use crate::dense::Dense;
use crate::gaussian::SERIES_TERMS;
use crate::scalar::Scalar;

verus! {

use crate::binary64::arithmetic::{
    integer, lemma_nearest_zero, opposite, product, quotient, square_root, sum,
};
use crate::binary64::bounds::{
    lemma_integer_bounds, lemma_product_within, lemma_sum_within, lemma_within_more, within,
};
use crate::binary64::compare::{equal, law_order_of_values, precedes, rank};
use crate::binary64::errors::{
    epsilon, exact, least, lemma_epsilon, lemma_exact_opposite, lemma_exact_zero,
    lemma_product_error, lemma_sum_error, size,
};
use crate::binary64::rounding::{nearest, p, p_add, p_pos, p_values};
use crate::binary64::series::{error, error_rising};
use crate::binary64::shifting::{lemma_kept, lemma_nearest_ratio};
use crate::binary64::{encoded, lemma_decoded, lemma_encoded};
use crate::burn_sdp::cross::cross_gate;
use crate::burn_sdp::rectify::{alpha_of, central_mass, safe_deviation};
use crate::gaussian::{clamped, density, distribution, series_from};
use crate::laws::accuracy::lemma_sizes;
use crate::laws::double::lemma_small_integers;
use crate::laws::finite::{lemma_alpha_range, lemma_constants, lemma_error_range, lemma_error_zero};
use crate::scalar::half;
use crate::vector::{relu_mean, relu_variance};

/// Whether two numbers are opposite, where zeros have no sign.
pub open spec fn is_mirrored(a: Binary64, b: Binary64) -> bool {
    &&& a.code() == b.code()
    &&& a.code() == 0 || a.is_undefined() || a.negative() != b.negative()
}

/// A number and its opposite.
pub proof fn lemma_mirror(x: Binary64)
    ensures
        is_mirrored(x, opposite(x)),
        opposite(x).negative() == !x.negative(),
        opposite(x).units() == x.units(),
        opposite(x).value() == -x.value(),
{
    lemma_decoded(x);
    lemma_decoded(opposite(x));
}

/// The opposite of the opposite.
pub proof fn lemma_double_opposite(x: Binary64)
    ensures
        opposite(opposite(x)) == x,
{
    lemma_mirror(x);
    lemma_mirror(opposite(x));
    lemma_decoded(x);
    lemma_decoded(opposite(opposite(x)));
}

/// The values of mirrored numbers.
pub proof fn lemma_mirrored_values(a: Binary64, b: Binary64)
    requires
        is_mirrored(a, b),
        a.is_finite(),
    ensures
        b.is_finite(),
        b.units() == a.units(),
        b.value() == -a.value(),
        exact(b) == -exact(a),
{
    lemma_decoded(a);
    lemma_decoded(b);
    if a.code() == 0 {
        lemma_exact_zero(a);
        lemma_exact_zero(b);
        assert(a.units() == 0) by (nonlinear_arith)
            requires
                a.units() == a.digits() * p(a.scale()),
                a.digits() == 0,
        ;
    } else {
        lemma_exact_opposite(a);
        lemma_mirror(a);
        assert(b == opposite(a)) by {
            lemma_decoded(opposite(a));
        }
    }
}

/// A product with a mirrored factor.
proof fn lemma_mirrored_product(a: Binary64, x: Binary64, b: Binary64)
    requires
        is_mirrored(a, x),
    ensures
        is_mirrored(product(a, b), product(x, b)),
{
    lemma_decoded(a);
    lemma_decoded(x);
    p_pos(UNIT as int);
    let den = p(UNIT as int) as nat;
    let n = a.units() * b.units();
    if a.is_finite() && b.is_finite() {
        lemma_mirrored_values(a, x);
        lemma_encoded(a.negative() != b.negative(), nearest(n, den));
        lemma_encoded(x.negative() != b.negative(), nearest(n, den));
        if a.code() == 0 {
            assert(n == 0) by (nonlinear_arith)
                requires
                    n == a.units() * b.units(),
                    a.units() == a.digits() * p(a.scale()),
                    a.digits() == 0,
            ;
            lemma_nearest_zero(den);
        }
    } else {
        lemma_encoded(a.negative() != b.negative(), INFINITE_CODE as nat);
        lemma_encoded(x.negative() != b.negative(), INFINITE_CODE as nat);
    }
}

/// A sum of mirrored terms.
pub proof fn lemma_mirrored_sum(a: Binary64, b: Binary64, x: Binary64, y: Binary64)
    requires
        is_mirrored(a, x),
        is_mirrored(b, y),
    ensures
        is_mirrored(sum(a, b), sum(x, y)),
{
    if a.is_finite() && b.is_finite() {
        lemma_mirrored_values(a, x);
        lemma_mirrored_values(b, y);
        let v = a.value() + b.value();
        lemma_encoded(a.negative() && b.negative(), 0);
        lemma_encoded(x.negative() && y.negative(), 0);
        let n = (if v < 0 {
            -v
        } else {
            v
        }) as nat;
        lemma_encoded(v < 0, nearest(n, 1));
        lemma_encoded(!(v < 0), nearest(n, 1));
    }
}

/// Products with two opposite factors.
proof fn lemma_opposite_product(a: Binary64, b: Binary64)
    ensures
        product(opposite(a), opposite(b)) == product(a, b),
{
    lemma_mirror(a);
    lemma_mirror(b);
}

/// The density is even.
pub proof fn lemma_even_density(x: Binary64)
    requires
        x.is_finite(),
    ensures
        density(opposite(x)) == density(x),
{
    let h = half::<Binary64>().s_neg();
    lemma_mirror(x);
    lemma_small_integers();
    let m = product(h, x);
    let w = product(h, opposite(x));
    lemma_half();
    lemma_mirror(half::<Binary64>());
    let n = nearest(h.units() * x.units(), p(UNIT as int) as nat);
    lemma_encoded(h.negative() != x.negative(), n);
    lemma_encoded(h.negative() == x.negative(), n);
    lemma_decoded(m);
    lemma_decoded(w);
    lemma_decoded(opposite(m));
    lemma_mirror(m);
    assert(w == opposite(m));
    lemma_opposite_product(m, x);
}

/// The series is odd.
proof fn lemma_odd_series(
    x: Binary64,
    term: Binary64,
    total: Binary64,
    u: Binary64,
    v: Binary64,
    k: int,
)
    requires
        is_mirrored(term, u),
        is_mirrored(total, v),
    ensures
        is_mirrored(series_from(x, term, total, k), series_from(opposite(x), u, v, k)),
    decreases SERIES_TERMS - k,
{
    if k < SERIES_TERMS {
        lemma_opposite_product(x, x);
        let ratio = quotient(product(x, x), integer(2 * k + 1));
        lemma_mirrored_product(term, u, ratio);
        let (s, t) = (product(term, ratio), product(u, ratio));
        lemma_mirrored_sum(total, s, v, t);
        lemma_decoded(total);
        lemma_decoded(sum(total, s));
        assert(equal(sum(total, s), total) == equal(sum(v, t), v));
        lemma_odd_series(x, s, sum(total, s), t, sum(v, t), k + 1);
    }
}

/// One half is one half.
pub proof fn lemma_half()
    ensures
        half::<Binary64>().is_finite(),
        !half::<Binary64>().negative(),
        exact(half::<Binary64>()) == 1 as real / 2 as real,
        exact(integer(0)) == 0 as real,
        exact(integer(1)) == 1 as real,
        integer(0).is_finite(),
        integer(1).is_finite(),
{
    reveal(exact);
    lemma_small_integers();
    lemma_exact_zero(integer(0));
    p_values();
    vstd::arithmetic::power2::lemma2_to64();
    lemma_integer_bounds(2, 1, 1);
    crate::binary64::bounds::lemma_power_units(integer(2), 1);
    let c = p(UNIT as int) as nat;
    p_pos(UNIT as int);
    p_add(1, UNIT as int);
    p_add(1, 1073);
    p_pos(1073);
    let d = p(1073) as nat;
    assert(integer(2).units() == 2 * c);
    // Units over twice the units.
    assert(integer(1).units() * c == c * c);
    lemma_nearest_ratio(c, 2, c);
    assert(2nat * c == integer(2).units());
    lemma_nearest_ratio(d, 1, 2);
    assert(d * 2 == c && 1nat * 2 == 2);
    let h = half::<Binary64>();
    assert(h == encoded(false, nearest(d, 1)));
    lemma_encoded(false, nearest(d, 1));
    crate::binary64::bounds::lemma_nearest_at_most(d, 1, 1073);
    assert(1nat * p(1073) == d);
    lemma_kept(false, 1, 1073);
    let u = c as real;
    let w = d as real;
    assert(u == 2 as real * w);
    assert(w / u == 1 as real / 2 as real) by (nonlinear_arith)
        requires
            u == 2 as real * w,
            w > 0 as real,
    ;
    assert(u / u == 1 as real) by (nonlinear_arith)
        requires
            u > 0 as real,
    ;
}

/// Numbers are ordered as what they stand for.
pub proof fn lemma_exact_order(a: Binary64, b: Binary64)
    requires
        a.is_finite(),
        b.is_finite(),
    ensures
        precedes(a, b) <==> exact(a) < exact(b),
{
    reveal(exact);
    law_order_of_values(a, b);
    p_pos(UNIT as int);
    let u = p(UNIT as int) as real;
    let (x, y) = (a.value() as real, b.value() as real);
    assert(x / u < y / u <==> x < y) by (nonlinear_arith)
        requires
            u > 0 as real,
    ;
}

/// Clamping moves a number no further from a number between the limits.
pub proof fn lemma_clamped(d: Binary64, x: real)
    requires
        !d.is_undefined(),
    ensures
        ({
            let c = clamped(d, integer(0), integer(1));
            &&& c.is_finite()
            &&& 0 as real <= exact(c) <= 1 as real
            &&& d.is_finite() && 0 as real <= x <= 1 as real ==> size(exact(c) - x) <= size(
                exact(d) - x,
            )
            &&& d.is_finite() && exact(d) <= 0 as real ==> exact(c) == 0 as real
            &&& d.is_finite() && exact(d) >= 1 as real ==> exact(c) == 1 as real
            &&& d.is_finite() && 0 as real <= exact(d) <= 1 as real ==> exact(c) == exact(d)
            &&& d.is_infinite() ==> exact(c) == if d.negative() {
                0 as real
            } else {
                1 as real
            }
        }),
{
    lemma_half();
    lemma_decoded(d);
    if d.is_finite() {
        lemma_exact_order(d, integer(0));
        lemma_exact_order(integer(1), d);
    }
}

/// One half plus a number, clamped.
pub proof fn lemma_half_side(t: Binary64)
    requires
        t.is_finite(),
    ensures
        ({
            let c = clamped(sum(half::<Binary64>(), t), integer(0), integer(1));
            let y = 1 as real / 2 as real + exact(t);
            &&& c.is_finite()
            &&& 0 as real <= exact(c) <= 1 as real
            &&& y < 0 as real ==> exact(c) == 0 as real
            &&& y > 1 as real ==> size(exact(c) - 1 as real) <= epsilon()
            &&& 0 as real <= y <= 1 as real ==> size(exact(c) - y) <= epsilon() * y
        }),
{
    reveal(exact);
    let h = half::<Binary64>();
    lemma_half();
    lemma_epsilon();
    let e = epsilon();
    let d = sum(h, t);
    let y = exact(h) + exact(t);
    let v = h.value() + t.value();
    let n = (if v < 0 {
        -v
    } else {
        v
    }) as nat;
    lemma_encoded(v < 0, nearest(n, 1));
    lemma_encoded(h.negative() && t.negative(), 0);
    p_pos(UNIT as int);
    let u = p(UNIT as int) as real;
    let (a, b) = (h.value() as real, t.value() as real);
    assert((a + b) / u == a / u + b / u) by (nonlinear_arith)
        requires
            u > 0 as real,
    ;
    assert(y == v as real / u);
    lemma_clamped(d, y);
    if d.is_finite() {
        lemma_sum_error(h, t);
        let ey = e * size(y);
        if y < 0 as real {
            let m = -y;
            assert(e * m <= m) by (nonlinear_arith)
                requires
                    e <= 1 as real,
                    m > 0 as real,
            ;
        } else if y > 1 as real {
            lemma_far_half(d, y, e);
        }
    } else {
        let w = v as real;
        if v < 0 {
            assert(w / u < 0 as real) by (nonlinear_arith)
                requires
                    u > 0 as real,
                    w < 0 as real,
            ;
        } else {
            if v <= p(UNIT as int) {
                crate::binary64::bounds::lemma_nearest_at_most(n, 1, UNIT as int);
            }
            assert(w > u);
            assert(w / u > 1 as real) by (nonlinear_arith)
                requires
                    u > 0 as real,
                    w > u,
            ;
        }
    }
}

/// One half plus and minus a number, clamped, make one, up to rounding.
proof fn lemma_halves(t: Binary64, u: Binary64)
    requires
        is_mirrored(t, u),
        !t.is_undefined(),
    ensures
        ({
            let a = clamped(sum(half::<Binary64>(), t), integer(0), integer(1));
            let b = clamped(sum(half::<Binary64>(), u), integer(0), integer(1));
            &&& a.is_finite()
            &&& b.is_finite()
            &&& 0 as real <= exact(a) <= 1 as real
            &&& 0 as real <= exact(b) <= 1 as real
            &&& size(exact(a) + exact(b) - 1 as real) <= epsilon()
        }),
{
    lemma_half();
    lemma_epsilon();
    let e = epsilon();
    if t.is_finite() {
        lemma_mirrored_values(t, u);
        lemma_half_side(t);
        lemma_half_side(u);
        let (y, z) = (1 as real / 2 as real + exact(t), 1 as real / 2 as real + exact(u));
        assert(y + z == 1 as real);
        assert(e * y + e * z == e * (y + z)) by (nonlinear_arith);
        assert(e * (y + z) == e) by (nonlinear_arith)
            requires
                y + z == 1 as real,
        ;
    } else {
        lemma_clamped(sum(half::<Binary64>(), t), 0 as real);
        lemma_clamped(sum(half::<Binary64>(), u), 0 as real);
    }
}

/// What rounds from more than one is clamped to one, up to rounding.
proof fn lemma_far_half(d: Binary64, y: real, e: real)
    requires
        d.is_finite(),
        y > 1 as real,
        0 as real <= e <= 1 as real,
        size(exact(d) - y) <= e * size(y),
    ensures
        size(exact(clamped(d, integer(0), integer(1))) - 1 as real) <= e,
{
    lemma_clamped(d, 1 as real);
    if exact(d) < 1 as real {
        assert(y - e * y >= 1 as real - e) by (nonlinear_arith)
            requires
                y > 1 as real,
                e <= 1 as real,
        ;
    }
}

/// What the distribution function is made of.
pub proof fn lemma_distribution_form(a: Binary64, phi: Binary64, t: Binary64)
    requires
        t == product(phi, series_from(a, a, a, 1)),
    ensures
        distribution(a, phi) == clamped(sum(half::<Binary64>(), t), integer(0), integer(1)),
{
}

/// The series of the two sides, times the density.
pub proof fn lemma_mirrored_sides(a: Binary64, phi: Binary64, t: Binary64, u: Binary64)
    requires
        t == product(phi, series_from(a, a, a, 1)),
        u == product(phi, series_from(opposite(a), opposite(a), opposite(a), 1)),
    ensures
        is_mirrored(t, u),
{
    lemma_mirror(a);
    lemma_odd_series(a, a, a, opposite(a), opposite(a), 1);
    let s = series_from(a, a, a, 1);
    let w = series_from(opposite(a), opposite(a), opposite(a), 1);
    lemma_mirrored_product(s, w, phi);
    lemma_product_turned(s, phi);
    lemma_product_turned(w, phi);
}

/// What is clamped to a number was one.
proof fn lemma_clamped_defined(t: Binary64)
    requires
        !clamped(sum(half::<Binary64>(), t), integer(0), integer(1)).is_undefined(),
    ensures
        !t.is_undefined(),
{
    if t.is_undefined() {
        assert(sum(half::<Binary64>(), t).is_undefined());
    }
}

/// The probabilities of the two sides make one, up to rounding.
pub proof fn lemma_sides(a: Binary64, phi: Binary64)
    requires
        a.is_finite(),
        !distribution(a, phi).is_undefined(),
    ensures
        distribution(a, phi).is_finite(),
        distribution(opposite(a), phi).is_finite(),
        0 as real <= exact(distribution(a, phi)) <= 1 as real,
        0 as real <= exact(distribution(opposite(a), phi)) <= 1 as real,
        size(
            exact(distribution(a, phi)) + exact(distribution(opposite(a), phi)) - 1 as real,
        ) <= epsilon(),
{
    let t = product(phi, series_from(a, a, a, 1));
    let u = product(phi, series_from(opposite(a), opposite(a), opposite(a), 1));
    lemma_mirrored_sides(a, phi, t, u);
    lemma_distribution_form(a, phi, t);
    lemma_distribution_form(opposite(a), phi, u);
    lemma_clamped_defined(t);
    lemma_halves(t, u);
}

/// The order of the factors does not matter.
proof fn lemma_product_turned(a: Binary64, b: Binary64)
    ensures
        product(a, b) == product(b, a),
{
    crate::laws::double::law_double_commutes();
    reveal(crate::laws::arithmetic::multiplication_commutes);
    assert(a.s_mul(b) == b.s_mul(a));
}

/// Whether the ratio of mean to deviation lies between minus two and two.
pub open spec fn is_central(a: Binary64) -> bool {
    !precedes(a, integer(-2)) && !precedes(integer(2), a)
}

/// Whether the ratio of mean to deviation is eight or more in magnitude.
pub open spec fn is_far(a: Binary64) -> bool {
    integer(8).s_le(a) || a.s_le(integer(-8))
}

/// Whole numbers and their opposites.
pub proof fn lemma_opposite_integers(n: int)
    requires
        0 < n <= 8,
    ensures
        rank(integer(-n)) == -rank(integer(n)),
        integer(n).is_finite(),
        integer(-n).is_finite(),
        rank(integer(n)) > 0,
{
    vstd::arithmetic::power2::lemma2_to64();
    lemma_integer_bounds(n, 0, 3);
    let c = nearest((n * p(UNIT as int)) as nat, 1);
    lemma_encoded(true, c);
    lemma_encoded(false, c);
}

/// The ratio of the opposite mean.
pub proof fn lemma_opposite_ratio(mu: Binary64, sigma: Binary64)
    requires
        mu.is_finite(),
        sigma.is_finite(),
        sigma.code() > 0,
    ensures
        quotient(opposite(mu), sigma) == opposite(quotient(mu, sigma)),
        !quotient(mu, sigma).is_undefined(),
{
    lemma_mirror(mu);
    let n = nearest(mu.units() * p(UNIT as int) as nat, sigma.units());
    let s = mu.negative() != sigma.negative();
    lemma_encoded(s, n);
    lemma_encoded(!s, n);
    lemma_decoded(quotient(mu, sigma));
    lemma_decoded(quotient(opposite(mu), sigma));
    lemma_decoded(opposite(quotient(mu, sigma)));
    lemma_mirror(quotient(mu, sigma));
}

/// The root of a positive number is positive and finite.
pub proof fn lemma_deviation(v: Binary64)
    requires
        v.is_finite(),
        v.code() > 0,
        !v.negative(),
    ensures
        square_root(v).is_finite(),
        square_root(v).code() > 0,
        !square_root(v).negative(),
{
    p_values();
    lemma_decoded(v);
    assert(v.units() * 1 == v.units());
    assert(2 * 0 == 0int);
    crate::binary64::shifting::lemma_root_shifted(v, v, 0);
}

/// With no variance or far from zero, one side passes and the other vanishes.
pub proof fn lemma_far_sides(mu: Binary64, v: Binary64)
    requires
        mu.is_finite(),
        v.is_finite(),
        !v.negative(),
        v.code() == 0 || is_far(quotient(mu, square_root(v))),
    ensures
        ({
            let (p, n) = (exact(relu_mean(mu, v)), exact(relu_mean(opposite(mu), v)));
            let (s, t) = (exact(relu_variance(mu, v)), exact(relu_variance(opposite(mu), v)));
            ||| p == exact(mu) && n == 0 as real && s == exact(v) && t == 0 as real
            ||| p == 0 as real && n == -exact(mu) && s == 0 as real && t == exact(v)
        }),
{
    lemma_half();
    lemma_small_integers();
    lemma_mirror(mu);
    lemma_exact_opposite(mu);
    lemma_opposite_integers(8);
    lemma_decoded(v);
    if v.code() == 0 {
        lemma_exact_zero(v);
    }
    let zero = integer(0);
    if v.code() == 0 {
        lemma_exact_order(mu, zero);
        lemma_exact_order(zero, mu);
        lemma_exact_order(opposite(mu), zero);
        lemma_exact_order(zero, opposite(mu));
        law_order_of_values(mu, zero);
        law_order_of_values(opposite(mu), zero);
        lemma_decoded(zero);
        assert(zero.value() == 0) by (nonlinear_arith)
            requires
                zero.units() == zero.digits() * p(zero.scale()),
                zero.digits() == 0,
                zero.value() == zero.units(),
        ;
        if mu.value() == 0 {
            reveal(exact);
            p_pos(UNIT as int);
            let u = p(UNIT as int) as real;
            assert(0 as real / u == 0 as real) by (nonlinear_arith)
                requires
                    u > 0 as real,
            ;
        }
    } else {
        let sigma = square_root(v);
        lemma_deviation(v);
        lemma_opposite_ratio(mu, sigma);
        let a = quotient(mu, sigma);
        lemma_mirror(a);
        lemma_decoded(a);
    }
}

/// In double precision the rectified means of a number and of its opposite,
/// with no variance or eight deviations and more from zero, differ by exactly
/// that number.
pub proof fn law_double_relu_mean_reflects_far(mu: Binary64, v: Binary64)
    requires
        mu.is_finite(),
        v.is_finite(),
        !v.negative(),
        v.code() == 0 || is_far(quotient(mu, square_root(v))),
    ensures
        exact(relu_mean(mu, v)) - exact(relu_mean(opposite(mu), v)) == exact(mu),
{
    lemma_far_sides(mu, v);
    lemma_exact_opposite(mu);
}

/// Within two deviations of zero the closed form holds on both sides.
pub proof fn lemma_central_means(mu: Binary64, v: Binary64)
    requires
        mu.is_finite(),
        v.is_finite(),
        v.code() > 0,
        !v.negative(),
        is_central(quotient(mu, square_root(v))),
    ensures
        ({
            let a = quotient(mu, square_root(v));
            let phi = density(a);
            let s = product(square_root(v), phi);
            &&& a.is_finite()
            &&& quotient(opposite(mu), square_root(v)) == opposite(a)
            &&& density(opposite(a)) == phi
            &&& !in_tail(a)
            &&& !in_tail(opposite(a))
            &&& relu_mean(mu, v) == sum(product(mu, distribution(a, phi)), s)
            &&& relu_mean(opposite(mu), v) == sum(
                product(opposite(mu), distribution(opposite(a), phi)),
                s,
            )
        }),
{
    let sigma = square_root(v);
    lemma_deviation(v);
    lemma_opposite_ratio(mu, sigma);
    let a = quotient(mu, sigma);
    lemma_opposite_integers(2);
    lemma_opposite_integers(8);
    lemma_mirror(a);
    lemma_decoded(a);
    lemma_integer_order();
    lemma_small_integers();
    assert(a.is_finite());
    lemma_even_density(a);
}

/// Whether the limits or the continued fraction take over.
pub open spec fn in_tail(a: Binary64) -> bool {
    is_far(a) || precedes(a, integer(-2))
}

/// In double precision the rectified means of a number within two deviations of
/// zero and of its opposite differ by that number, up to rounding.
pub proof fn law_double_relu_mean_reflects(mu: Binary64, v: Binary64)
    requires
        mu.is_finite(),
        v.is_finite(),
        v.code() > 0,
        !v.negative(),
        is_central(quotient(mu, square_root(v))),
        relu_mean(mu, v).is_finite(),
        relu_mean(opposite(mu), v).is_finite(),
    ensures
        size(
            exact(relu_mean(mu, v)) - exact(relu_mean(opposite(mu), v)) - exact(mu),
        ) <= epsilon() * (7 as real * size(exact(mu)) + 2 as real * size(
            exact(product(square_root(v), density(quotient(mu, square_root(v))))),
        ) + 4 as real * least()),
{
    lemma_central_means(mu, v);
    let a = quotient(mu, square_root(v));
    let phi = density(a);
    let (f, g) = (distribution(a, phi), distribution(opposite(a), phi));
    let s = product(square_root(v), phi);
    let (x, y) = (product(mu, f), product(opposite(mu), g));
    lemma_clamped_factor(mu, f, s);
    lemma_sides(a, phi);
    lemma_mean_pair(mu, f, g, s);
}

/// A factor of a finite sum is defined.
proof fn lemma_clamped_factor(a: Binary64, b: Binary64, s: Binary64)
    requires
        sum(product(a, b), s).is_finite(),
    ensures
        !b.is_undefined(),
{
    lemma_finite_parts(a, b, s);
}

/// The difference of two means that probabilities weigh.
proof fn lemma_mean_pair(mu: Binary64, f: Binary64, g: Binary64, s: Binary64)
    requires
        sum(product(mu, f), s).is_finite(),
        sum(product(opposite(mu), g), s).is_finite(),
        0 as real <= exact(f) <= 1 as real,
        0 as real <= exact(g) <= 1 as real,
        size(exact(f) + exact(g) - 1 as real) <= epsilon(),
    ensures
        size(
            exact(sum(product(mu, f), s)) - exact(sum(product(opposite(mu), g), s)) - exact(mu),
        ) <= epsilon() * (7 as real * size(exact(mu)) + 2 as real * size(exact(s)) + 4 as real
            * least()),
{
    let (x, y) = (product(mu, f), product(opposite(mu), g));
    lemma_epsilon();
    lemma_finite_parts(mu, f, s);
    lemma_finite_parts(opposite(mu), g, s);
    lemma_exact_opposite(mu);
    lemma_product_error(mu, f);
    lemma_product_error(opposite(mu), g);
    lemma_sum_error(x, s);
    lemma_sum_error(y, s);
    lemma_mean_bound(
        exact(mu),
        exact(f),
        exact(g),
        exact(s),
        exact(x),
        exact(y),
        exact(sum(x, s)),
        exact(sum(y, s)),
        epsilon(),
        least(),
    );
}

/// Two is less than eight.
pub proof fn lemma_integer_order()
    ensures
        rank(integer(2)) < rank(integer(8)),
{
    vstd::arithmetic::power2::lemma2_to64();
    lemma_integer_bounds(2, 1, 1);
    lemma_integer_bounds(8, 3, 3);
}

/// A sum is finite only where its terms and their factors are.
pub proof fn lemma_finite_parts(a: Binary64, b: Binary64, s: Binary64)
    requires
        sum(product(a, b), s).is_finite(),
    ensures
        product(a, b).is_finite(),
        s.is_finite(),
        a.is_finite(),
        b.is_finite(),
{
    lemma_encoded(a.negative() != b.negative(), INFINITE_CODE as nat);
}

/// How the errors of two rectified means add up.
proof fn lemma_mean_bound(
    m: real,
    f: real,
    g: real,
    s: real,
    x: real,
    y: real,
    u: real,
    w: real,
    e: real,
    l: real,
)
    requires
        0 as real <= f <= 1 as real,
        0 as real <= g <= 1 as real,
        size(f + g - 1 as real) <= e,
        size(x - m * f) <= e * (size(m * f) + l),
        size(y - (-m) * g) <= e * (size((-m) * g) + l),
        size(u - (x + s)) <= e * size(x + s),
        size(w - (y + s)) <= e * size(y + s),
        (0 as real) < e <= 1 as real,
        l > 0 as real,
    ensures
        size(u - w - m) <= e * (7 as real * size(m) + 2 as real * size(s) + 4 as real * l),
{
    let n = size(m);
    lemma_sizes(m, f);
    lemma_sizes(-m, g);
    assert(n * f <= n && n * g <= n) by (nonlinear_arith)
        requires
            n >= 0 as real,
            0 as real <= f <= 1 as real,
            0 as real <= g <= 1 as real,
    ;
    // The products.
    lemma_scaled(e, size(m * f) + l, n + l);
    lemma_scaled(e, size((-m) * g) + l, n + l);
    let k = e * (n + l);
    assert(k <= n + l) by (nonlinear_arith)
        requires
            k == e * (n + l),
            e <= 1 as real,
            n + l >= 0 as real,
    ;
    // The sums.
    lemma_sizes(x - m * f, m * f);
    lemma_sizes(y - (-m) * g, (-m) * g);
    lemma_sizes(x, s);
    lemma_sizes(y, s);
    assert(size(x) <= 2 as real * n + l);
    assert(size(y) <= 2 as real * n + l);
    let top = 2 as real * n + l + size(s);
    lemma_scaled(e, size(x + s), top);
    lemma_scaled(e, size(y + s), top);
    // The probabilities.
    let d = f + g - 1 as real;
    assert(m * f - (-m) * g == m + m * d) by (nonlinear_arith)
        requires
            d == f + g - 1 as real,
    ;
    lemma_sizes(m, d);
    lemma_scaled(n, size(d), e);
    let (p1, p2, p3, p4) = (x - m * f, y - (-m) * g, u - (x + s), w - (y + s));
    assert(u - w - m == p3 - p4 + p1 - p2 + m * d);
    lemma_sizes(p3, p4);
    lemma_sizes(p3 - p4, p1);
    lemma_sizes(p3 - p4 + p1, p2);
    lemma_sizes(p3 - p4 + p1 - p2, m * d);
    assert(size(u - w - m) <= 2 as real * (e * top) + 2 as real * k + n * e);
    let q = size(s);
    assert(2 as real * (e * top) + 2 as real * (e * (n + l)) + n * e == e * (7 as real * n + 2 as real
        * q + 4 as real * l)) by (nonlinear_arith)
        requires
            top == 2 as real * n + l + q,
    ;
}

/// Products with a factor that is not negative.
pub proof fn lemma_scaled(c: real, a: real, b: real)
    requires
        c >= 0 as real,
        a <= b,
    ensures
        c * a <= c * b,
{
    assert(c * a <= c * b) by (nonlinear_arith)
        requires
            c >= 0 as real,
            a <= b,
    ;
}

/// The error function is odd.
pub proof fn lemma_odd_error(x: Binary64)
    requires
        x.is_finite(),
    ensures
        is_mirrored(error(x), error(opposite(x))),
{
    lemma_small_integers();
    lemma_mirror(x);
    lemma_mirror(opposite(x));
    lemma_decoded(x);
    lemma_decoded(opposite(opposite(x)));
    assert(opposite(opposite(x)) == x);
    if x.code() == 0 {
        lemma_error_zero(x);
        lemma_error_zero(opposite(x));
    } else {
        lemma_mirror(error_rising(x));
        lemma_mirror(error_rising(opposite(x)));
    }
}

/// The bounded ratio of the opposite mean.
proof fn lemma_opposite_alpha(mu: Binary64, v: Binary64)
    requires
        mu.is_finite(),
        v.is_finite(),
    ensures
        alpha_of::<Dense<Binary64>>(Format::F64, opposite(mu), v) == opposite(
            alpha_of::<Dense<Binary64>>(Format::F64, mu, v),
        ),
{
    let sigma = safe_deviation::<Dense<Binary64>>(Format::F64, v);
    lemma_alpha_range(mu, v);
    assert(sigma.code() > 0);
    let eight = integer(8);
    vstd::arithmetic::power2::lemma2_to64();
    lemma_integer_bounds(8, 3, 3);
    let limit = product(sigma, eight);
    lemma_product_within(sigma, eight, 512, 3);
    lemma_mirror(mu);
    lemma_mirror(limit);
    lemma_mirror(opposite(limit));
    lemma_decoded(limit);
    lemma_decoded(mu);
    lemma_decoded(opposite(opposite(limit)));
    assert(opposite(opposite(limit)) == limit);
    lemma_opposite_ratio(mu, sigma);
    lemma_opposite_ratio(limit, sigma);
    lemma_opposite_ratio(opposite(limit), sigma);
    assert(!limit.negative()) by {
        lemma_encoded(false, nearest(sigma.units() * eight.units(), p(UNIT as int) as nat));
    }
}

/// The probabilities of the two sides by the error function make one, up to
/// rounding.
proof fn lemma_error_sides(a: Binary64)
    requires
        within(a, 4),
    ensures
        ({
            let g = central_mass::<Dense<Binary64>>(Format::F64, a);
            let h = central_mass::<Dense<Binary64>>(Format::F64, opposite(a));
            let t = error(product(a, square_root(half::<Binary64>())));
            &&& g.is_finite()
            &&& h.is_finite()
            &&& size(exact(g) + exact(h) - 1 as real) <= epsilon() * (3 as real + 3 as real * size(
                exact(t),
            ) + 2 as real * least())
        }),
{
    let c = square_root(half::<Binary64>());
    lemma_constants();
    lemma_half();
    lemma_mirror(a);
    let x = product(a, c);
    lemma_product_within(a, c, 4, 0);
    let n = nearest(a.units() * c.units(), p(UNIT as int) as nat);
    lemma_encoded(a.negative() != c.negative(), n);
    lemma_encoded(a.negative() == c.negative(), n);
    lemma_decoded(x);
    lemma_mirror(x);
    lemma_decoded(opposite(x));
    lemma_decoded(product(opposite(a), c));
    assert(product(opposite(a), c) == opposite(x));
    lemma_within_more(x, 4, 5);
    lemma_error_range(x);
    lemma_odd_error(x);
    lemma_error_halves(error(x), error(opposite(x)));
}

/// Half of one more than a number and than its opposite.
proof fn lemma_error_halves(t: Binary64, u: Binary64)
    requires
        within(t, 348),
        is_mirrored(t, u),
    ensures
        ({
            let g = product(sum(t, integer(1)), half::<Binary64>());
            let h = product(sum(u, integer(1)), half::<Binary64>());
            &&& g.is_finite()
            &&& h.is_finite()
            &&& size(exact(g) + exact(h) - 1 as real) <= epsilon() * (3 as real + 3 as real * size(
                exact(t),
            ) + 2 as real * least())
        }),
{
    let one = integer(1);
    let half = half::<Binary64>();
    lemma_half();
    lemma_constants();
    lemma_epsilon();
    vstd::arithmetic::power2::lemma2_to64();
    lemma_integer_bounds(1, 0, 0);
    lemma_within_more(one, 0, 348);
    lemma_mirrored_values(t, u);
    lemma_sum_within(t, one, 348);
    lemma_sum_within(u, one, 348);
    let (r, s) = (sum(t, one), sum(u, one));
    lemma_product_within(r, half, 349, 0);
    lemma_product_within(s, half, 349, 0);
    lemma_sum_error(t, one);
    lemma_sum_error(u, one);
    lemma_product_error(r, half);
    lemma_product_error(s, half);
    let (g, h) = (product(r, half), product(s, half));
    let x = exact(t);
    lemma_halved(x + 1 as real, exact(r), exact(g), epsilon(), least());
    lemma_halved(1 as real - x, exact(s), exact(h), epsilon(), least());
    lemma_sizes(1 as real, x);
    let (y, z) = (x + 1 as real, 1 as real - x);
    let w = 1 as real / 2 as real;
    let (dg, dh) = (exact(g) - y * w, exact(h) - z * w);
    assert(y * w + z * w == 1 as real) by (nonlinear_arith)
        requires
            y + z == 2 as real,
            w == 1 as real / 2 as real,
    ;
    assert(exact(g) + exact(h) - 1 as real == dg + dh);
    lemma_sizes(dg, dh);
    let (e, l) = (epsilon(), least());
    let q = 3 as real / 2 as real;
    let (by, bz) = (q * size(y) + l, q * size(z) + l);
    assert(e * by + e * bz == e * (by + bz)) by (nonlinear_arith);
    lemma_scaled(e, by + bz, 3 as real + 3 as real * size(x) + 2 as real * l);
}

/// The error of a rounded half of a rounded number.
proof fn lemma_halved(y: real, r: real, g: real, e: real, l: real)
    requires
        size(r - y) <= e * size(y),
        size(g - r * (1 as real / 2 as real)) <= e * (size(r * (1 as real / 2 as real)) + l),
        (0 as real) < e <= 1 as real,
        l > 0 as real,
    ensures
        size(g - y * (1 as real / 2 as real)) <= e * ((3 as real / 2 as real) * size(y) + l),
{
    let w = 1 as real / 2 as real;
    let n = size(y);
    lemma_sizes(r - y, y);
    assert(e * n <= n) by (nonlinear_arith)
        requires
            e <= 1 as real,
            n >= 0 as real,
    ;
    assert(size(r) <= 2 as real * n);
    lemma_sizes(r, w);
    lemma_sizes(r - y, w);
    assert((r - y) * w == r * w - y * w) by (nonlinear_arith);
    lemma_sizes(g - r * w, r * w - y * w);
    let k = size(r * w);
    assert(k <= n) by (nonlinear_arith)
        requires
            k == size(r) * w,
            w == 1 as real / 2 as real,
            size(r) <= 2 as real * n,
    ;
    lemma_scaled(e, k + l, n + l);
    let d = size(r - y) * w;
    assert(d <= (e * n) * w) by (nonlinear_arith)
        requires
            d == size(r - y) * w,
            size(r - y) <= e * n,
            w > 0 as real,
    ;
    assert(e * (n + l) + (e * n) * w == e * ((1 as real + w) * n + l)) by (nonlinear_arith);
    assert((3 as real / 2 as real) * n == (1 as real + w) * n) by (nonlinear_arith)
        requires
            w == 1 as real / 2 as real,
    ;
}

/// In double precision the factors that a rectifier puts on the covariances with
/// a variable and with its opposite make one: exactly, eight deviations and more
/// from zero, and up to rounding within two.
pub proof fn law_double_gates_reflect(mu: Binary64, v: Binary64)
    requires
        mu.is_finite(),
        v.is_finite(),
        v.code() > 0,
        !v.negative(),
    ensures
        ({
            let a = alpha_of::<Dense<Binary64>>(Format::F64, mu, v);
            let g = cross_gate::<Dense<Binary64>>(Format::F64, mu, v);
            let h = cross_gate::<Dense<Binary64>>(Format::F64, opposite(mu), v);
            let t = error(product(a, square_root(half::<Binary64>())));
            &&& is_far(a) ==> exact(g) + exact(h) == 1 as real
            &&& is_central(a) ==> size(exact(g) + exact(h) - 1 as real) <= epsilon() * (3 as real
                + 3 as real * size(exact(t)) + 2 as real * least())
        }),
{
    let a = alpha_of::<Dense<Binary64>>(Format::F64, mu, v);
    lemma_alpha_range(mu, v);
    lemma_opposite_alpha(mu, v);
    lemma_mirror(a);
    lemma_decoded(a);
    lemma_decoded(v);
    lemma_half();
    lemma_small_integers();
    lemma_opposite_integers(2);
    lemma_opposite_integers(8);
    lemma_integer_order();
    if is_central(a) {
        lemma_error_sides(a);
    }
}

/// In double precision the covariances with a rectified variable and with its
/// rectified opposite differ by the covariance with the variable, times the
/// factors' sum, up to rounding.
pub proof fn law_double_cross_covariance_reflects(c: Binary64, mu: Binary64, v: Binary64)
    requires
        product(c, cross_gate::<Dense<Binary64>>(Format::F64, mu, v)).is_finite(),
        product(
            opposite(c),
            cross_gate::<Dense<Binary64>>(Format::F64, opposite(mu), v),
        ).is_finite(),
    ensures
        ({
            let g = cross_gate::<Dense<Binary64>>(Format::F64, mu, v);
            let h = cross_gate::<Dense<Binary64>>(Format::F64, opposite(mu), v);
            size(
                exact(product(c, g)) - exact(product(opposite(c), h)) - exact(c) * (exact(g)
                    + exact(h)),
            ) <= epsilon() * (size(exact(c) * exact(g)) + size(exact(c) * exact(h)) + 2 as real
                * least())
        }),
{
    lemma_weighted_pair(
        c,
        cross_gate::<Dense<Binary64>>(Format::F64, mu, v),
        cross_gate::<Dense<Binary64>>(Format::F64, opposite(mu), v),
    );
}

/// A number and its opposite, each with its own weight.
proof fn lemma_weighted_pair(c: Binary64, g: Binary64, h: Binary64)
    requires
        product(c, g).is_finite(),
        product(opposite(c), h).is_finite(),
    ensures
        size(
            exact(product(c, g)) - exact(product(opposite(c), h)) - exact(c) * (exact(g) + exact(h)),
        ) <= epsilon() * (size(exact(c) * exact(g)) + size(exact(c) * exact(h)) + 2 as real
            * least()),
{
    lemma_factors_finite(c, g);
    lemma_factors_finite(opposite(c), h);
    lemma_exact_opposite(c);
    lemma_product_error(c, g);
    lemma_product_error(opposite(c), h);
    let (k, x, y) = (exact(c), exact(g), exact(h));
    assert((-k) * y == -(k * y) && k * (x + y) == k * x + k * y) by (nonlinear_arith);
    let (r, s) = (exact(product(c, g)) - k * x, exact(product(opposite(c), h)) - (-k) * y);
    lemma_sizes(r, s);
    lemma_sizes(-k, y);
    lemma_sizes(k, y);
    let (e, m, n) = (epsilon(), size(k * x) + least(), size(k * y) + least());
    assert(e * m + e * n == e * (m + n)) by (nonlinear_arith);
}

/// A product is finite only where its factors are.
pub proof fn lemma_factors_finite(a: Binary64, b: Binary64)
    requires
        product(a, b).is_finite(),
    ensures
        a.is_finite(),
        b.is_finite(),
{
    lemma_encoded(a.negative() != b.negative(), INFINITE_CODE as nat);
}

} // verus!
