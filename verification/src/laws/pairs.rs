//! The rectified covariance of two features, written out.
use vstd::prelude::*;

use crate::backend::Format;
use crate::scalar::Scalar;

verus! {

use crate::backend::Model;
use crate::burn_sdp::full::{
    covariance_density, covariance_gate, covariance_slope, diagonals, pair_correlation, pair_series,
    rectified_covariance, relu_covariances,
};
use crate::burn_sdp::rectify::{
    alpha_of, central_mass, density_of, relu_mean, relu_means, relu_variance, relu_variances,
    safe_deviation, tail_mass,
};
use crate::laws::arithmetic::{
    field_cancel, field_div, ring_add_assoc, ring_dist, ring_ints, ring_mul_assoc, ring_mul_comm,
    ring_units, ring_zero,
};
use crate::laws::full::lemma_diagonal_entry;
use crate::laws::moments::lemma_half_of;
use crate::laws::ordered::{is_ordered_field, ord_cases, ord_ints, ring_mul_neg};
use crate::laws::rectified::{lemma_divided_twice, lemma_product_not_zero};
use crate::laws::reflection::lemma_neg_int;
use crate::laws::stein::lemma_ratio_is_plain;
use crate::laws::tensors::{casts_nothing, folds, lemma_cast};
use crate::scalar::half;
use crate::tensor::{group_tables, Block, Grid};

/// `y (1 / n) = y / n`.
proof fn lemma_part_of<S: Scalar>(y: S, n: S)
    requires
        is_ordered_field::<S>(),
        n != S::s_int(0),
    ensures
        y.s_mul(S::s_int(1).s_div(n)) == y.s_div(n),
{
    let q = S::s_int(1).s_div(n);
    field_div(S::s_int(1), n);
    field_div(y, n);
    ring_mul_assoc(y, q, n);
    ring_units(y);
    field_cancel(y.s_mul(q), y.s_div(n), n);
}

/// The covariance of two rectified features with covariance `c`, deviations `s`
/// and `t` and correlation `rho = c / (s t)` between minus one and one, up to
/// third order in the correlation:
/// `c g h + c rho (d e) / 2 + c rho^2 (k l) / 6`, where `g` and `h` are the
/// features' factors, `d` and `e` their densities and `k` and `l` their slopes.
pub proof fn law_rectified_covariance<M: Model>(
    f: Format,
    c: M::Elem,
    mu_i: M::Elem,
    v_i: M::Elem,
    mu_j: M::Elem,
    v_j: M::Elem,
    rho: M::Elem,
)
    requires
        is_ordered_field::<M::Elem>(),
        casts_nothing::<M>(f),
        M::Elem::s_int(0).s_lt(v_i),
        M::Elem::s_int(0).s_lt(v_j),
        rho.s_mul(v_i.s_sqrt().s_mul(v_j.s_sqrt())) == c,
        M::Elem::s_int(-1).s_le(rho),
        rho.s_le(M::Elem::s_int(1)),
    ensures
        rectified_covariance::<M>(f, c, mu_i, v_i, mu_j, v_j) == c.s_mul(
            covariance_gate::<M>(f, mu_i, v_i).s_mul(covariance_gate::<M>(f, mu_j, v_j)),
        ).s_add(
            c.s_mul(rho).s_mul(
                covariance_density::<M>(f, mu_i, v_i).s_mul(
                    covariance_density::<M>(f, mu_j, v_j),
                ).s_div(M::Elem::s_int(2)),
            ),
        ).s_add(
            c.s_mul(rho).s_mul(rho).s_mul(
                covariance_slope::<M>(f, mu_i, v_i).s_mul(
                    covariance_slope::<M>(f, mu_j, v_j),
                ).s_div(M::Elem::s_int(6)),
            ),
        ),
{
    let (zero, one, less) = (M::Elem::s_int(0), M::Elem::s_int(1), M::Elem::s_int(-1));
    lemma_cast::<M>(f, zero);
    lemma_cast::<M>(f, one);
    lemma_cast::<M>(f, less);
    lemma_ratio_is_plain::<M>(f, mu_i, v_i);
    lemma_ratio_is_plain::<M>(f, mu_j, v_j);
    let (a, b) = (v_i.s_sqrt(), v_j.s_sqrt());
    ord_cases(zero, a);
    ord_cases(zero, b);
    let (larger, smaller) = if a.s_lt(b) {
        (b, a)
    } else {
        (a, b)
    };
    let q = c.s_div(larger).s_div(smaller);
    assert(q.s_mul(a.s_mul(b)) == c) by {
        lemma_divided_twice(c, a, b);
        lemma_divided_twice(c, b, a);
        ring_mul_comm(a, b);
    }
    lemma_product_not_zero(a, b);
    field_cancel(q, rho, a.s_mul(b));
    ord_cases(rho, less);
    ord_cases(less, rho);
    ord_cases(one, rho);
    ord_cases(rho, one);
    assert(pair_correlation::<M>(f, c, v_i, v_j) == rho);
    let g = covariance_gate::<M>(f, mu_i, v_i).s_mul(covariance_gate::<M>(f, mu_j, v_j));
    let d = covariance_density::<M>(f, mu_i, v_i).s_mul(covariance_density::<M>(f, mu_j, v_j));
    let k = covariance_slope::<M>(f, mu_i, v_i).s_mul(covariance_slope::<M>(f, mu_j, v_j));
    let six = M::Elem::s_int(6);
    ord_ints::<M::Elem>(0, 6);
    ord_cases(zero, six);
    lemma_cast::<M>(f, half::<M::Elem>());
    lemma_cast::<M>(f, one.s_div(six));
    lemma_half_of(d);
    lemma_part_of(k, six);
    let (x, y) = (d.s_div(M::Elem::s_int(2)), k.s_div(six));
    let inner = x.s_add(rho.s_mul(y));
    let series = g.s_add(rho.s_mul(inner));
    // (a b) (rho S) = c S
    ring_mul_assoc(a.s_mul(b), rho, series);
    ring_mul_comm(a.s_mul(b), rho);
    ring_dist(c, g, rho.s_mul(inner));
    ring_mul_assoc(c, rho, inner);
    let cr = c.s_mul(rho);
    ring_dist(cr, x, rho.s_mul(y));
    ring_mul_assoc(cr, rho, y);
    ring_add_assoc(c.s_mul(g), cr.s_mul(x), cr.s_mul(rho).s_mul(y));
}

/// A covariance beyond the product of the deviations counts as that product.
pub proof fn law_rectified_covariance_is_bounded<M: Model>(
    f: Format,
    c: M::Elem,
    mu_i: M::Elem,
    v_i: M::Elem,
    mu_j: M::Elem,
    v_j: M::Elem,
    rho: M::Elem,
)
    requires
        is_ordered_field::<M::Elem>(),
        casts_nothing::<M>(f),
        M::Elem::s_int(0).s_lt(v_i),
        M::Elem::s_int(0).s_lt(v_j),
        rho.s_mul(v_i.s_sqrt().s_mul(v_j.s_sqrt())) == c,
    ensures
        M::Elem::s_int(1).s_lt(rho) ==> rectified_covariance::<M>(f, c, mu_i, v_i, mu_j, v_j)
            == rectified_covariance::<M>(
            f,
            v_i.s_sqrt().s_mul(v_j.s_sqrt()),
            mu_i,
            v_i,
            mu_j,
            v_j,
        ),
        rho.s_lt(M::Elem::s_int(-1)) ==> rectified_covariance::<M>(f, c, mu_i, v_i, mu_j, v_j)
            == rectified_covariance::<M>(
            f,
            v_i.s_sqrt().s_mul(v_j.s_sqrt()).s_neg(),
            mu_i,
            v_i,
            mu_j,
            v_j,
        ),
{
    let (zero, one, less) = (M::Elem::s_int(0), M::Elem::s_int(1), M::Elem::s_int(-1));
    lemma_cast::<M>(f, zero);
    lemma_cast::<M>(f, one);
    lemma_cast::<M>(f, less);
    lemma_ratio_is_plain::<M>(f, mu_i, v_i);
    lemma_ratio_is_plain::<M>(f, mu_j, v_j);
    let (a, b) = (v_i.s_sqrt(), v_j.s_sqrt());
    let s = a.s_mul(b);
    ord_cases(zero, a);
    ord_cases(zero, b);
    ring_units(s);
    lemma_neg_int::<M::Elem>(1);
    ring_mul_neg(one, s);
    lemma_plain_quotient(c, a, b, rho);
    lemma_plain_quotient(s, a, b, one);
    lemma_plain_quotient(s.s_neg(), a, b, less);
    ord_ints::<M::Elem>(-1, 1);
    ord_cases(one, one);
    ord_cases(less, less);
    ord_cases(less, one);
    ord_cases(one, less);
    ord_cases(rho, less);
    ord_cases(rho, one);
    ord_cases(one, rho);
    if one.s_lt(rho) {
        crate::laws::ordered::ord_trans(less, one, rho);
        ord_cases(less, rho);
    }
}

/// Dividing by two deviations, in either order.
proof fn lemma_plain_quotient<S: Scalar>(c: S, a: S, b: S, rho: S)
    requires
        is_ordered_field::<S>(),
        a != S::s_int(0),
        b != S::s_int(0),
        rho.s_mul(a.s_mul(b)) == c,
    ensures
        c.s_div(a).s_div(b) == rho,
        c.s_div(b).s_div(a) == rho,
{
    lemma_divided_twice(c, a, b);
    lemma_divided_twice(c, b, a);
    ring_mul_comm(a, b);
    lemma_product_not_zero(a, b);
    field_cancel(c.s_div(a).s_div(b), rho, a.s_mul(b));
    field_cancel(c.s_div(b).s_div(a), rho, a.s_mul(b));
}

/// The factor, the density and the slope of a feature: between the limits the
/// probability of being positive, the normal density at the ratio of mean to
/// deviation, and that density times the ratio; eight deviations above zero one,
/// zero and zero; and eight below it nothing.
pub proof fn law_feature_parts<M: Model>(f: Format, mu: M::Elem, v: M::Elem)
    requires
        is_ordered_field::<M::Elem>(),
        casts_nothing::<M>(f),
        M::Elem::s_int(0).s_lt(v),
    ensures
        ({
            let (zero, one) = (M::Elem::s_int(0), M::Elem::s_int(1));
            let sigma = v.s_sqrt();
            let a = mu.s_div(sigma);
            let (g, d, k) = (
                covariance_gate::<M>(f, mu, v),
                covariance_density::<M>(f, mu, v),
                covariance_slope::<M>(f, mu, v),
            );
            let (high, low) = (sigma.s_mul(M::Elem::s_int(8)), sigma.s_mul(M::Elem::s_int(-8)));
            &&& high.s_le(mu) ==> g == one && d == zero && k == zero
            &&& mu.s_le(low) ==> g == zero && d == zero && k == zero
            &&& low.s_lt(mu) && mu.s_lt(high) ==> d == density_of::<M>(f, a) && k == a.s_mul(
                density_of::<M>(f, a),
            ) && g == if a.s_lt(M::Elem::s_int(-2)) {
                tail_mass::<M>(f, a)
            } else {
                central_mass::<M>(f, a)
            }
        }),
{
    let zero = M::Elem::s_int(0);
    let sigma = v.s_sqrt();
    let (high, low) = (sigma.s_mul(M::Elem::s_int(8)), sigma.s_mul(M::Elem::s_int(-8)));
    lemma_cast::<M>(f, zero);
    lemma_cast::<M>(f, M::Elem::s_int(1));
    lemma_cast::<M>(f, M::Elem::s_int(-2));
    lemma_ratio_is_plain::<M>(f, mu, v);
    ring_zero(alpha_of::<M>(f, mu, v));
    ord_cases(high, mu);
    ord_cases(mu, high);
    ord_cases(mu, low);
    ord_cases(low, mu);
}

/// A fixed feature has no density and no slope, and the factor of a feature with
/// the same mean and variance one.
pub proof fn law_fixed_feature_parts<M: Model>(f: Format, mu: M::Elem)
    requires
        is_ordered_field::<M::Elem>(),
        casts_nothing::<M>(f),
    ensures
        ({
            let (zero, one) = (M::Elem::s_int(0), M::Elem::s_int(1));
            &&& covariance_gate::<M>(f, mu, zero) == covariance_gate::<M>(f, mu, one)
            &&& covariance_density::<M>(f, mu, zero) == zero
            &&& covariance_slope::<M>(f, mu, zero) == zero
            &&& safe_deviation::<M>(f, zero) == one
        }),
{
    let (zero, one) = (M::Elem::s_int(0), M::Elem::s_int(1));
    lemma_cast::<M>(f, zero);
    lemma_cast::<M>(f, one);
    ord_ints::<M::Elem>(0, 1);
    ord_cases(zero, zero);
    ord_cases(zero, one);
    ord_cases(one, zero);
    ring_zero(alpha_of::<M>(f, mu, zero));
    crate::laws::ordered::ord_root(one);
    ring_units(one);
    crate::laws::ordered::ord_root_unique(one.s_sqrt(), one);
}

/// What is left of a covariance with a fixed feature: the covariance times both
/// factors, where it is at most the other feature's deviation.
pub proof fn law_fixed_feature_covariance<M: Model>(
    f: Format,
    c: M::Elem,
    mu_i: M::Elem,
    mu_j: M::Elem,
    v_j: M::Elem,
    rho: M::Elem,
)
    requires
        is_ordered_field::<M::Elem>(),
        casts_nothing::<M>(f),
        M::Elem::s_int(0).s_lt(v_j),
        rho.s_mul(v_j.s_sqrt()) == c,
        M::Elem::s_int(-1).s_le(rho),
        rho.s_le(M::Elem::s_int(1)),
    ensures
        rectified_covariance::<M>(f, c, mu_i, M::Elem::s_int(0), mu_j, v_j) == c.s_mul(
            covariance_gate::<M>(f, mu_i, M::Elem::s_int(1)).s_mul(
                covariance_gate::<M>(f, mu_j, v_j),
            ),
        ),
{
    let (zero, one, less) = (M::Elem::s_int(0), M::Elem::s_int(1), M::Elem::s_int(-1));
    law_fixed_feature_parts::<M>(f, mu_i);
    lemma_ratio_is_plain::<M>(f, mu_j, v_j);
    lemma_cast::<M>(f, one);
    lemma_cast::<M>(f, less);
    let b = v_j.s_sqrt();
    ord_cases(zero, b);
    ord_ints::<M::Elem>(0, 1);
    ord_cases(zero, one);
    ring_units(b);
    lemma_plain_quotient(c, one, b, rho);
    ord_cases(rho, less);
    ord_cases(less, rho);
    ord_cases(one, rho);
    ord_cases(rho, one);
    assert(pair_correlation::<M>(f, c, zero, v_j) == rho);
    let g = covariance_gate::<M>(f, mu_i, zero).s_mul(covariance_gate::<M>(f, mu_j, v_j));
    let (h, s) = (M::cast(f, half::<M::Elem>()), M::cast(f, one.s_div(M::Elem::s_int(6))));
    let (e, l) = (covariance_density::<M>(f, mu_j, v_j), covariance_slope::<M>(f, mu_j, v_j));
    ring_zero(e);
    ring_zero(l);
    ring_zero(h);
    ring_zero(s);
    ring_zero(rho);
    ring_units(zero);
    ring_units(g);
    assert(pair_series::<M>(f, rho, mu_i, zero, mu_j, v_j) == g);
    ring_mul_assoc(b, rho, g);
    ring_mul_comm(b, rho);
}

/// What the rectifier makes of a covariance matrix: off the diagonal the
/// rectified covariance of the two features, on it the rectified variance; and
/// the means are the rectified means, row by row of the batch.
pub proof fn law_full_relu_entries<M: Model>(
    f: Format,
    mean: Grid<M::Elem>,
    cov: Block<M::Elem>,
    b: int,
    i: int,
    j: int,
)
    requires
        is_ordered_field::<M::Elem>(),
        casts_nothing::<M>(f),
        folds::<M>(),
        mean.dims() == (cov.layers, cov.rows),
        cov.rows == cov.cols,
        cov.has(b, i, j),
    ensures
        relu_covariances::<M>(f, mean, cov).dims() == cov.dims(),
        i != j ==> relu_covariances::<M>(f, mean, cov).at(b, i, j) == rectified_covariance::<M>(
            f,
            cov.at(b, i, j),
            mean.at(b, i),
            cov.at(b, i, i),
            mean.at(b, j),
            cov.at(b, j, j),
        ),
        M::Elem::s_int(0).s_lt(cov.at(b, i, i)) ==> relu_covariances::<M>(f, mean, cov).at(b, i, i)
            == relu_variance::<M>(f, mean.at(b, i), cov.at(b, i, i)),
        relu_means::<M>(f, mean, diagonals::<M>(f, cov)).dims() == mean.dims(),
        relu_means::<M>(f, mean, diagonals::<M>(f, cov)).at(b, i) == relu_mean::<M>(
            f,
            mean.at(b, i),
            cov.at(b, i, i),
        ),
{
    broadcast use group_tables;

    let (zero, one, less) = (M::Elem::s_int(0), M::Elem::s_int(1), M::Elem::s_int(-1));
    lemma_cast::<M>(f, zero);
    lemma_cast::<M>(f, one);
    lemma_cast::<M>(f, less);
    lemma_diagonal_entry::<M>(f, cov, b, i);
    lemma_diagonal_entry::<M>(f, cov, b, j);
    let c = cov.at(b, i, j);
    let own = relu_variance::<M>(f, mean.at(b, i), cov.at(b, i, i));
    ring_zero(less);
    ring_units(one);
    ring_units(less);
    ring_ints::<M::Elem>(-1, 1);
    ring_units(c);
    ring_units(own);
    ring_zero(own);
    let plain = rectified_covariance::<M>(
        f,
        c,
        mean.at(b, i),
        cov.at(b, i, i),
        mean.at(b, j),
        cov.at(b, j, j),
    );
    ring_units(plain);
    let v = cov.at(b, i, i);
    if zero.s_lt(v) {
        let d = cov.at(b, i, i);
        ring_zero(d);
        lemma_no_covariance::<M>(f, mean.at(b, i), v);
        ring_units(own);
    }
}

/// Nothing covaries by zero.
proof fn lemma_no_covariance<M: Model>(f: Format, mu: M::Elem, v: M::Elem)
    requires
        is_ordered_field::<M::Elem>(),
        casts_nothing::<M>(f),
        M::Elem::s_int(0).s_lt(v),
    ensures
        rectified_covariance::<M>(f, M::Elem::s_int(0), mu, v, mu, v) == M::Elem::s_int(0),
{
    let zero = M::Elem::s_int(0);
    ord_ints::<M::Elem>(-1, 0);
    ord_ints::<M::Elem>(0, 1);
    ord_cases(M::Elem::s_int(-1), zero);
    ord_cases(zero, M::Elem::s_int(1));
    ring_zero(v.s_sqrt().s_mul(v.s_sqrt()));
    law_rectified_covariance::<M>(f, zero, mu, v, mu, v, zero);
    let g = covariance_gate::<M>(f, mu, v).s_mul(covariance_gate::<M>(f, mu, v));
    let d = covariance_density::<M>(f, mu, v).s_mul(covariance_density::<M>(f, mu, v)).s_div(
        M::Elem::s_int(2),
    );
    let k = covariance_slope::<M>(f, mu, v).s_mul(covariance_slope::<M>(f, mu, v)).s_div(
        M::Elem::s_int(6),
    );
    ring_zero(g);
    ring_zero(d);
    ring_zero(k);
    ring_zero(zero);
    ring_units(zero);
}

/// The rectifier's means and variances of a batch, entry by entry.
pub proof fn law_relu_tables<M: Model>(
    f: Format,
    mean: Grid<M::Elem>,
    var: Grid<M::Elem>,
    i: int,
    j: int,
)
    requires
        mean.has(i, j),
    ensures
        relu_means::<M>(f, mean, var).dims() == mean.dims(),
        relu_means::<M>(f, mean, var).at(i, j) == relu_mean::<M>(f, mean.at(i, j), var.at(i, j)),
        relu_variances::<M>(f, mean, var).dims() == mean.dims(),
        relu_variances::<M>(f, mean, var).at(i, j) == relu_variance::<M>(
            f,
            mean.at(i, j),
            var.at(i, j),
        ),
{
    broadcast use group_tables;

}

} // verus!
