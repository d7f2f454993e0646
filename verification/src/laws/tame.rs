//! In double precision rectified moments stay clear of overflow.
use vstd::prelude::*;

use crate::backend::Format;
use crate::binary64::{Binary64, UNIT};
use crate::dense::Dense;
use crate::scalar::Scalar;

verus! {

use crate::binary64::arithmetic::{integer, opposite, product, quotient, sum};
use crate::binary64::bounds::{
    beyond, lemma_integer_bounds, lemma_power_units, lemma_product_within, lemma_quotient_within,
    lemma_root_within, lemma_sum_within, lemma_within_more, within,
};
use crate::binary64::compare::precedes;
use crate::binary64::rounding::{nearest, p, p_add, p_pos};
use crate::binary64::shifting::lemma_nearest_ratio;
use crate::binary64::{lemma_decoded, lemma_encoded};
use crate::burn_sdp::full::{
    covariance_density, covariance_gate, covariance_slope, diagonals, off_unit, pair_correlation,
    pair_series, rectified_covariance, relu_covariances, unit,
};
use crate::burn_sdp::rectify::{
    alpha_of, central_mass, central_variance, density_of, in_tail, is_active, is_inactive,
    leaky_mean, leaky_variance, relu_variance, relu_variances, safe_deviation, safe_variance,
    smooth_mean, smooth_variance, tail_mean, tail_point, tail_variance, first_ratio, second_ratio,
    tail_mass,
};
use crate::laws::arithmetic::{is_one, is_zero, same};
use crate::laws::diagonal::{law_leaky_with_full_slope, one_less_one};
use crate::laws::double::{
    law_dense_double_is_neutral, law_dense_double_masks, law_double_is_ordered,
    lemma_small_integers,
};
use crate::laws::finite::{
    law_double_mass_is_finite, lemma_alpha_range, lemma_central_range, lemma_constants,
    lemma_density_range, lemma_small_powers, lemma_some_units, lemma_tail_range,
};
use crate::laws::full::law_variance_is_diagonal;
use crate::laws::rectified::{law_full_relu_matches_diagonal, masks_fit, pair_is_tame};
use crate::laws::symmetry::lemma_mirror;
use crate::scalar::half;
use crate::tensor::{group_tables, Block, Grid};

/// Plain vectors in double precision.
type D = Dense<Binary64>;

/// A mean that no limit takes is at most eight deviations.
proof fn lemma_unlimited(mu: Binary64, v: Binary64)
    requires
        mu.is_finite(),
        v.is_finite(),
        !is_active::<D>(Format::F64, mu, v),
        !is_inactive::<D>(Format::F64, mu, v),
    ensures
        within(mu, 515),
{
    let sigma = safe_deviation::<D>(Format::F64, v);
    lemma_alpha_range(mu, v);
    lemma_small_integers();
    lemma_small_powers();
    lemma_integer_bounds(8, 3, 3);
    let eight = integer(8);
    let limit = product(sigma, eight);
    lemma_product_within(sigma, eight, 512, 3);
    lemma_power_units(eight, 3);
    lemma_some_units(sigma);
    let c = p(UNIT as int) as nat;
    p_pos(UNIT as int);
    p_add(UNIT as int, 3);
    // Eight deviations are a whole multiple of one.
    let u = sigma.units();
    assert(u * eight.units() == (u * 8) * c) by (nonlinear_arith)
        requires
            eight.units() == c * 8,
    ;
    lemma_nearest_ratio(u * 8, 1, c);
    assert(1nat * c == c);
    lemma_encoded(false, nearest(u * 8, 1));
    assert(limit == crate::binary64::encoded(false, nearest(u * 8, 1)));
    assert(limit.units() == u * 8) by {
        crate::binary64::rounding::p_values();
        lemma_decoded(sigma);
        p_add(sigma.scale(), 3);
        let d = sigma.digits() as nat;
        let t = sigma.scale() + 3;
        assert(u * 8 == d * p(t)) by (nonlinear_arith)
            requires
                u == d * p(sigma.scale()),
                p(t) == p(sigma.scale()) * 8,
        ;
        if d == 0 {
            assert(u == 0) by (nonlinear_arith)
                requires
                    u == d * p(sigma.scale()),
                    d == 0,
            ;
        }
        crate::binary64::shifting::lemma_kept(false, d, t);
    }
    // So the ratio at the limit is eight.
    assert(limit.units() * c == (8 * c) * u) by (nonlinear_arith)
        requires
            limit.units() == u * 8,
    ;
    lemma_nearest_ratio(8 * c, 1, u);
    assert(1nat * u == u);
    lemma_mirror(limit);
    lemma_decoded(limit);
    lemma_decoded(mu);
    lemma_encoded(false, nearest(8 * c, 1));
    lemma_encoded(true, nearest(8 * c, 1));
    assert(quotient(limit, sigma) == eight);
    lemma_mirror(eight);
    crate::laws::symmetry::lemma_opposite_integers(8);
    assert(quotient(opposite(limit), sigma).code() == eight.code());
    assert(quotient(opposite(limit), sigma).negative());
    assert(mu.code() <= limit.code()) by {
        if precedes(limit, mu) && !precedes(mu, opposite(limit)) {
            assert(alpha_of::<D>(Format::F64, mu, v) == eight);
        }
        if precedes(mu, opposite(limit)) {
            assert(alpha_of::<D>(Format::F64, mu, v) == quotient(opposite(limit), sigma));
        }
    }
    assert(within(mu, 515));
}

/// The mean without limits is finite.
pub proof fn lemma_smooth_mean(mu: Binary64, v: Binary64)
    requires
        mu.is_finite(),
        v.is_finite(),
        !is_active::<D>(Format::F64, mu, v),
        !is_inactive::<D>(Format::F64, mu, v),
    ensures
        smooth_mean::<D>(Format::F64, mu, v).is_finite(),
{
    let a = alpha_of::<D>(Format::F64, mu, v);
    let sigma = safe_deviation::<D>(Format::F64, v);
    lemma_unlimited(mu, v);
    lemma_alpha_range(mu, v);
    lemma_tail_range(a);
    lemma_central_range(a);
    lemma_density_range(a);
    if in_tail::<D>(Format::F64, a) {
        let t = tail_point::<D>(Format::F64, a);
        let (m, r) = (tail_mass::<D>(Format::F64, a), first_ratio::<D>(Format::F64, t));
        lemma_product_within(m, r, 23, 0);
        lemma_product_within(sigma, product(m, r), 512, 23);
    } else {
        let (m, f) = (central_mass::<D>(Format::F64, a), density_of::<D>(Format::F64, a));
        lemma_product_within(mu, m, 515, 349);
        lemma_product_within(sigma, f, 512, 24);
        lemma_within_more(product(sigma, f), 536, 864);
        lemma_sum_within(product(mu, m), product(sigma, f), 864);
    }
}

/// The unit variances are finite.
proof fn lemma_unit_range(a: Binary64)
    requires
        within(a, 4),
    ensures
        within(tail_variance::<D>(Format::F64, a), 47),
        within(central_variance::<D>(Format::F64, a), 712),
{
    lemma_tail_range(a);
    lemma_central_range(a);
    lemma_density_range(a);
    lemma_small_integers();
    lemma_small_powers();
    lemma_integer_bounds(1, 0, 0);
    lemma_integer_bounds(2, 1, 1);
    crate::laws::symmetry::lemma_opposite_integers(1);
    crate::laws::symmetry::lemma_opposite_integers(2);
    let t = tail_point::<D>(Format::F64, a);
    let m = tail_mean::<D>(Format::F64, a);
    let (r1, r2) = (first_ratio::<D>(Format::F64, t), second_ratio::<D>(Format::F64, t));
    lemma_product_within(tail_mass::<D>(Format::F64, a), r1, 23, 0);
    lemma_product_within(m, r2, 23, 7);
    lemma_product_within(m, m, 23, 23);
    lemma_mirror(product(m, m));
    lemma_within_more(product(m, r2), 30, 46);
    lemma_sum_within(product(m, r2), opposite(product(m, m)), 46);
    // By the closed form.
    let q = central_mass::<D>(Format::F64, a);
    let f = density_of::<D>(Format::F64, a);
    let one = integer(1);
    let (less, least) = (integer(-1), integer(-2));
    assert(within(less, 0));
    assert(within(least, 1));
    lemma_product_within(q, less, 349, 0);
    lemma_within_more(one, 0, 350);
    lemma_within_more(product(q, less), 349, 350);
    lemma_sum_within(product(q, less), one, 350);
    let rest = sum(product(q, less), one);
    lemma_product_within(q, least, 349, 1);
    lemma_sum_within(product(q, least), one, 350);
    let skew = sum(product(q, least), one);
    let square = product(a, a);
    lemma_product_within(a, a, 4, 4);
    lemma_product_within(square, q, 8, 349);
    lemma_product_within(product(square, q), rest, 357, 351);
    let first = product(product(square, q), rest);
    lemma_within_more(q, 349, 708);
    lemma_sum_within(first, q, 708);
    lemma_product_within(a, f, 4, 24);
    lemma_product_within(product(a, f), skew, 28, 351);
    let second = product(product(a, f), skew);
    lemma_within_more(second, 379, 709);
    lemma_sum_within(sum(first, q), second, 709);
    lemma_product_within(f, f, 24, 24);
    lemma_mirror(product(f, f));
    lemma_within_more(product(f, f), 48, 710);
    lemma_sum_within(sum(sum(first, q), second), opposite(product(f, f)), 710);
    lemma_within_more(central_variance::<D>(Format::F64, a), 711, 712);
}

/// The variance without limits is finite, for variances that are not enormous.
pub proof fn lemma_smooth_variance(mu: Binary64, v: Binary64)
    requires
        mu.is_finite(),
        within(v, 300),
    ensures
        within(smooth_variance::<D>(Format::F64, mu, v), 1012),
{
    let a = alpha_of::<D>(Format::F64, mu, v);
    lemma_alpha_range(mu, v);
    lemma_unit_range(a);
    lemma_small_integers();
    lemma_small_powers();
    lemma_integer_bounds(1, 0, 0);
    let w = safe_variance::<D>(Format::F64, v);
    lemma_within_more(integer(1), 0, 300);
    assert(within(w, 300));
    if in_tail::<D>(Format::F64, a) {
        let u = tail_variance::<D>(Format::F64, a);
        lemma_product_within(w, u, 300, 47);
        lemma_within_more(product(w, u), 347, 1012);
    } else {
        let u = central_variance::<D>(Format::F64, a);
        lemma_product_within(w, u, 300, 712);
    }
    assert(within(integer(0), 1012));
}

/// In double precision the leaky rectifier at slope one gives mean and variance
/// back, where a limit decides or the variance is at most `2^300`.
pub proof fn law_double_leaky_with_full_slope(alpha: Binary64, mu: Binary64, v: Binary64)
    requires
        is_one(alpha),
        mu.is_finite(),
        v.is_finite(),
        !precedes(v, integer(0)),
        is_active::<D>(Format::F64, mu, v) || is_inactive::<D>(Format::F64, mu, v) || within(
            v,
            300,
        ),
    ensures
        same(leaky_mean::<D>(Format::F64, alpha, mu, v), mu),
        same(leaky_variance::<D>(Format::F64, alpha, mu, v), v),
{
    law_dense_double_is_neutral(Format::F64);
    law_double_is_ordered();
    law_double_mass_is_finite(mu, v);
    if !is_active::<D>(Format::F64, mu, v) && !is_inactive::<D>(Format::F64, mu, v) {
        lemma_smooth_mean(mu, v);
        lemma_smooth_variance(mu, v);
    }
    lemma_one_less_one();
    law_leaky_with_full_slope::<D>(Format::F64, alpha, mu, v);
}

/// One less one is zero.
proof fn lemma_one_less_one()
    ensures
        one_less_one::<Binary64>(),
{
    reveal(one_less_one);
    lemma_small_integers();
    let one = integer(1);
    assert forall|o: Binary64| is_one(o) implies is_zero(#[trigger] integer(1).s_sub(o)) by {
        lemma_decoded(o);
        lemma_decoded(one);
        lemma_mirror(o);
        lemma_encoded(false, 0);
        lemma_encoded(one.negative() && opposite(o).negative(), 0);
    }
    lemma_small_powers();
    lemma_integer_bounds(1, 0, 0);
    lemma_integer_bounds(2, 1, 1);
    assert forall|o: Binary64| is_one(o) implies (#[trigger] Binary64::s_int(2).s_mul(
        o,
    )).s_finite() by {
        lemma_decoded(o);
        lemma_decoded(one);
        assert(o == one);
        lemma_product_within(integer(2), one, 1, 0);
    }
}

/// The parts of the covariance series of one feature.
proof fn lemma_feature_range(mu: Binary64, v: Binary64)
    requires
        mu.is_finite(),
        within(v, 300),
    ensures
        within(covariance_gate::<D>(Format::F64, mu, v), 349),
        within(covariance_density::<D>(Format::F64, mu, v), 24),
        within(covariance_slope::<D>(Format::F64, mu, v), 28),
        within(safe_deviation::<D>(Format::F64, v), 150),
        beyond(safe_deviation::<D>(Format::F64, v), -537),
        within(relu_variance::<D>(Format::F64, mu, v), 1012),
{
    let a = alpha_of::<D>(Format::F64, mu, v);
    lemma_alpha_range(mu, v);
    law_double_mass_is_finite(mu, v);
    lemma_density_range(a);
    lemma_smooth_variance(mu, v);
    lemma_small_integers();
    lemma_small_powers();
    lemma_integer_bounds(1, 0, 0);
    lemma_within_more(integer(1), 0, 349);
    lemma_within_more(integer(1), 0, 300);
    lemma_within_more(v, 300, 1012);
    assert(within(integer(0), 24));
    let f = covariance_density::<D>(Format::F64, mu, v);
    lemma_product_within(a, f, 4, 24);
    lemma_decoded(v);
    lemma_root_within(safe_variance::<D>(Format::F64, v), 150);
}

/// A correlation lies between minus one and one.
pub proof fn lemma_correlation_range(c: Binary64, v: Binary64, w: Binary64)
    requires
        c.is_finite(),
        beyond(safe_deviation::<D>(Format::F64, v), -537),
        beyond(safe_deviation::<D>(Format::F64, w), -537),
    ensures
        within(pair_correlation::<D>(Format::F64, c, v, w), 0),
{
    let (a, b) = (safe_deviation::<D>(Format::F64, v), safe_deviation::<D>(Format::F64, w));
    let (x, y) = if precedes(a, b) {
        (b, a)
    } else {
        (a, b)
    };
    assert(x.code() > 0 && y.code() > 0);
    lemma_some_units(x);
    lemma_some_units(y);
    let once = quotient(c, x);
    lemma_encoded(c.negative() != x.negative(), nearest(c.units() * p(UNIT as int) as nat, x.units()));
    let twice = quotient(once, y);
    lemma_encoded(
        once.negative() != y.negative(),
        nearest(once.units() * p(UNIT as int) as nat, y.units()),
    );
    lemma_encoded(
        once.negative() != y.negative(),
        crate::binary64::rounding::INFINITE_CODE as nat,
    );
    assert(!twice.is_undefined());
    lemma_small_integers();
    lemma_decoded(twice);
    lemma_decoded(integer(-1));
    lemma_decoded(integer(1));
    assert(pair_correlation::<D>(Format::F64, c, v, w) == crate::gaussian::clamped(
        twice,
        integer(-1),
        integer(1),
    ));
}

/// The covariance of two features stays finite.
proof fn lemma_pair_range(
    c: Binary64,
    mu: Binary64,
    v: Binary64,
    nu: Binary64,
    w: Binary64,
)
    requires
        c.is_finite(),
        mu.is_finite(),
        nu.is_finite(),
        within(v, 300),
        within(w, 300),
    ensures
        safe_deviation::<D>(Format::F64, v).s_mul(
            safe_deviation::<D>(Format::F64, w),
        ).is_finite(),
        pair_series::<D>(
            Format::F64,
            pair_correlation::<D>(Format::F64, c, v, w),
            mu,
            v,
            nu,
            w,
        ).is_finite(),
        within(rectified_covariance::<D>(Format::F64, c, mu, v, nu, w), 999),
{
    let f = Format::F64;
    lemma_feature_range(mu, v);
    lemma_feature_range(nu, w);
    lemma_correlation_range(c, v, w);
    lemma_constants();
    lemma_small_integers();
    lemma_small_powers();
    lemma_integer_bounds(1, 0, 0);
    lemma_integer_bounds(6, 2, 3);
    let rho = pair_correlation::<D>(f, c, v, w);
    let (s, t) = (safe_deviation::<D>(f, v), safe_deviation::<D>(f, w));
    lemma_product_within(s, t, 150, 150);
    let (g, h) = (covariance_gate::<D>(f, mu, v), covariance_gate::<D>(f, nu, w));
    lemma_product_within(g, h, 349, 349);
    let (d, e) = (covariance_density::<D>(f, mu, v), covariance_density::<D>(f, nu, w));
    lemma_product_within(d, e, 24, 24);
    let (k, l) = (covariance_slope::<D>(f, mu, v), covariance_slope::<D>(f, nu, w));
    lemma_product_within(k, l, 28, 28);
    let half = half::<Binary64>();
    let sixth = quotient(integer(1), integer(6));
    lemma_quotient_within(integer(1), integer(6), 0, 2);
    lemma_within_more(sixth, -2, 0);
    let first = product(product(d, e), half);
    lemma_product_within(product(d, e), half, 48, 0);
    let cubic = product(product(k, l), sixth);
    lemma_product_within(product(k, l), sixth, 56, 0);
    lemma_product_within(rho, cubic, 0, 56);
    lemma_within_more(first, 48, 56);
    lemma_sum_within(first, product(rho, cubic), 56);
    let inner = sum(first, product(rho, cubic));
    lemma_product_within(rho, inner, 0, 57);
    lemma_within_more(product(rho, inner), 57, 698);
    lemma_sum_within(product(g, h), product(rho, inner), 698);
    let series = sum(product(g, h), product(rho, inner));
    assert(series == pair_series::<D>(f, rho, mu, v, nu, w));
    lemma_product_within(rho, series, 0, 699);
    lemma_product_within(product(s, t), product(rho, series), 300, 699);
}

/// What is the same as a bounded number is bounded.
proof fn lemma_same_within(a: Binary64, b: Binary64, k: int)
    requires
        same(a, b),
        within(b, k),
    ensures
        within(a, k),
{
    lemma_decoded(a);
    lemma_decoded(b);
}

/// In double precision the full-covariance rectifier gives the variances that
/// the diagonal rectifier gives for the input's variances, and keeps a diagonal
/// covariance diagonal, for finite inputs with variances of at most `2^300`.
pub proof fn law_double_full_relu_matches_diagonal(
    mean: Grid<Binary64>,
    cov: Block<Binary64>,
    b: int,
)
    requires
        mean.dims() == (cov.layers, cov.rows),
        cov.rows == cov.cols,
        0 <= b < cov.layers,
        forall|i: int| mean.has(b, i) ==> (#[trigger] mean.at(b, i)).is_finite(),
        forall|i: int, j: int| cov.has(b, i, j) ==> (#[trigger] cov.at(b, i, j)).is_finite(),
        forall|i: int| cov.has(b, i, i) ==> within(#[trigger] cov.at(b, i, i), 300),
    ensures
        forall|i: int|
            mean.has(b, i) ==> same(
                #[trigger] diagonals::<D>(
                    Format::F64,
                    relu_covariances::<D>(Format::F64, mean, cov),
                ).at(b, i),
                relu_variances::<D>(
                    Format::F64,
                    mean,
                    diagonals::<D>(Format::F64, cov),
                ).at(b, i),
            ),
        (forall|i: int, j: int|
            cov.has(b, i, j) && i != j ==> is_zero(#[trigger] cov.at(b, i, j))) ==> (forall|
            i: int,
            j: int,
        |
            cov.has(b, i, j) && i != j ==> is_zero(
                #[trigger] relu_covariances::<D>(Format::F64, mean, cov).at(b, i, j),
            )),
{
    law_dense_double_is_neutral(Format::F64);
    law_dense_double_masks(Format::F64);
    assert forall|i: int, j: int| cov.has(b, i, j) implies #[trigger] pair_is_tame::<D>(
        Format::F64,
        mean,
        cov,
        b,
        i,
        j,
    ) by {
        lemma_pair_is_tame(mean, cov, b, i, j);
    }
    law_full_relu_matches_diagonal::<D>(Format::F64, mean, cov, b);
}

/// Nothing overflows in the covariance of two features.
proof fn lemma_pair_is_tame(mean: Grid<Binary64>, cov: Block<Binary64>, b: int, i: int, j: int)
    requires
        mean.dims() == (cov.layers, cov.rows),
        cov.rows == cov.cols,
        cov.has(b, i, j),
        forall|i: int| mean.has(b, i) ==> (#[trigger] mean.at(b, i)).is_finite(),
        forall|i: int, j: int| cov.has(b, i, j) ==> (#[trigger] cov.at(b, i, j)).is_finite(),
        forall|i: int| cov.has(b, i, i) ==> within(#[trigger] cov.at(b, i, i), 300),
    ensures
        pair_is_tame::<D>(Format::F64, mean, cov, b, i, j),
{
    broadcast use group_tables;

    let f = Format::F64;
    law_dense_double_is_neutral(f);
    law_dense_double_masks(f);
    law_variance_is_diagonal::<D>(f, cov, b, i);
    law_variance_is_diagonal::<D>(f, cov, b, j);
    let v = diagonals::<D>(f, cov).at(b, i);
    let w = diagonals::<D>(f, cov).at(b, j);
    assert(cov.has(b, i, i) && cov.has(b, j, j));
    lemma_same_within(v, cov.at(b, i, i), 300);
    lemma_same_within(w, cov.at(b, j, j), 300);
    let off = off_unit::<D>(f, i, j);
    let x = cov.at(b, i, j);
    let c = product(x, off);
    assert(c.is_finite()) by {
        reveal(masks_fit);
        if i == j {
            crate::laws::arithmetic::mul_zero(x, off);
        } else {
            crate::laws::arithmetic::mul_one(x, off);
        }
        lemma_small_integers();
        lemma_decoded(c);
        lemma_decoded(x);
    }
    let (mu, nu) = (mean.at(b, i), mean.at(b, j));
    assert(mean.has(b, i) && mean.has(b, j));
    lemma_pair_range(c, mu, v, nu, w);
    lemma_feature_range(mu, v);
    lemma_feature_range(nu, w);
    lemma_small_integers();
    lemma_small_powers();
    lemma_integer_bounds(1, 0, 0);
    let own = relu_variance::<D>(f, mu, v);
    let one = unit::<D>(f, i, j);
    assert(within(one, 0));
    lemma_product_within(own, one, 1012, 0);
    let r = rectified_covariance::<D>(f, c, mu, v, nu, w);
    lemma_within_more(r, 999, 1012);
    lemma_sum_within(r, product(own, one), 1012);
    assert(relu_covariances::<D>(f, mean, cov).at(b, i, j) == sum(r, product(own, one)));
}

} // verus!
