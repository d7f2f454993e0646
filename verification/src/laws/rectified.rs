//! Laws of rectified covariance matrices.
use vstd::prelude::*;

use crate::backend::Format;
use crate::scalar::Scalar;

verus! {

use crate::backend::{constant, Model};
use crate::burn_sdp::full::{
    correlation, covariance_density, covariance_gate, covariance_slope, diagonals, off_unit,
    pair_correlation, pair_series, rectified_covariance, relu_covariances, unit,
};
use crate::burn_sdp::rectify::{alpha_of, is_active, is_inactive, relu_variance, relu_variances, safe_deviation};
use crate::laws::arithmetic::{
    add_zero, div_zero, field_div, is_field, is_one, is_total, is_zero, mul_one, mul_zero,
    multiplication_commutes, ring_mul_assoc, ring_mul_comm, ring_units, ring_zero, same, same_trans,
    zeros_same,
};
use crate::laws::full::{is_symmetric3, law_variance_is_diagonal};
use crate::laws::tensors::{
    casts_nothing, lemma_cast, lemma_units, tensor_neutral,
};
use crate::scalar::half;
use crate::tensor::{group_tables, Block, Grid};

/// Whether the mask that hides the diagonal holds zeros and ones in format `f`,
/// and zero lies between minus one and one.
#[verifier::opaque]
pub open spec fn masks_fit<M: Model>(f: Format) -> bool {
    &&& is_zero(constant::<M>(f, 1).s_mul(constant::<M>(f, -1)).s_add(constant::<M>(f, 1)))
    &&& is_one(constant::<M>(f, 0).s_mul(constant::<M>(f, -1)).s_add(constant::<M>(f, 1)))
    &&& forall|z: M::Elem| #[trigger]
        is_zero(z) ==> !z.s_lt(constant::<M>(f, -1)) && !constant::<M>(f, 1).s_lt(z)
}

/// Features without covariance have none after the rectifier.
pub proof fn law_uncorrelated_stays<M: Model>(
    f: Format,
    c: M::Elem,
    mu_i: M::Elem,
    v_i: M::Elem,
    mu_j: M::Elem,
    v_j: M::Elem,
)
    requires
        tensor_neutral::<M>(f),
        masks_fit::<M>(f),
        is_zero(c),
        M::Elem::s_int(0).s_lt(safe_deviation::<M>(f, v_i)),
        M::Elem::s_int(0).s_lt(safe_deviation::<M>(f, v_j)),
        safe_deviation::<M>(f, v_i).s_mul(safe_deviation::<M>(f, v_j)).s_finite(),
        pair_series::<M>(
            f,
            pair_correlation::<M>(f, c, v_i, v_j),
            mu_i,
            v_i,
            mu_j,
            v_j,
        ).s_finite(),
    ensures
        is_zero(rectified_covariance::<M>(f, c, mu_i, v_i, mu_j, v_j)),
{
    let a = safe_deviation::<M>(f, v_i);
    let b = safe_deviation::<M>(f, v_j);
    let larger = if a.s_lt(b) {
        b
    } else {
        a
    };
    let smaller = if a.s_lt(b) {
        a
    } else {
        b
    };
    div_zero(c, larger);
    div_zero(c.s_div(larger), smaller);
    reveal(masks_fit);
    let rho = pair_correlation::<M>(f, c, v_i, v_j);
    assert(rho == c.s_div(larger).s_div(smaller));
    let series = pair_series::<M>(f, rho, mu_i, v_i, mu_j, v_j);
    mul_zero(series, rho);
    mul_zero(a.s_mul(b), rho.s_mul(series));
}

/// The variances that the full-covariance rectifier gives are those of the
/// diagonal rectifier on the diagonal of the covariance.
pub proof fn law_full_relu_diagonal<M: Model>(
    f: Format,
    mean: Grid<M::Elem>,
    cov: Block<M::Elem>,
    b: int,
    i: int,
)
    requires
        tensor_neutral::<M>(f),
        masks_fit::<M>(f),
        mean.dims() == (cov.layers, cov.rows),
        cov.rows == cov.cols,
        mean.has(b, i),
        cov.at(b, i, i).s_finite(),
        M::Elem::s_int(0).s_lt(safe_deviation::<M>(f, diagonals::<M>(f, cov).at(b, i))),
        safe_deviation::<M>(f, diagonals::<M>(f, cov).at(b, i)).s_mul(
            safe_deviation::<M>(f, diagonals::<M>(f, cov).at(b, i)),
        ).s_finite(),
        pair_series::<M>(
            f,
            pair_correlation::<M>(
                f,
                cov.at(b, i, i).s_mul(off_unit::<M>(f, i, i)),
                diagonals::<M>(f, cov).at(b, i),
                diagonals::<M>(f, cov).at(b, i),
            ),
            mean.at(b, i),
            diagonals::<M>(f, cov).at(b, i),
            mean.at(b, i),
            diagonals::<M>(f, cov).at(b, i),
        ).s_finite(),
    ensures
        same(
            relu_covariances::<M>(f, mean, cov).at(b, i, i),
            relu_variance::<M>(f, mean.at(b, i), diagonals::<M>(f, cov).at(b, i)),
        ),
{
    broadcast use group_tables;

    let mu = mean.at(b, i);
    let v = diagonals::<M>(f, cov).at(b, i);
    let c = cov.at(b, i, i).s_mul(off_unit::<M>(f, i, i));
    assert(is_zero(off_unit::<M>(f, i, i))) by {
        reveal(masks_fit);
    }
    mul_zero(cov.at(b, i, i), off_unit::<M>(f, i, i));
    law_uncorrelated_stays::<M>(f, c, mu, v, mu, v);
    let off = rectified_covariance::<M>(f, c, mu, v, mu, v);
    let own = relu_variance::<M>(f, mu, v);
    lemma_units::<M>(f);
    let one = unit::<M>(f, i, i);
    mul_one(own, one);
    add_zero(own.s_mul(one), off);
    same_trans(off.s_add(own.s_mul(one)), own.s_mul(one), own);
}

/// Whether nothing overflows where the rectifier computes the covariance of
/// features `i` and `j` of row `b`: the deviations are positive, and their
/// product and the covariance series are finite.
pub open spec fn pair_is_tame<M: Model>(
    f: Format,
    mean: Grid<M::Elem>,
    cov: Block<M::Elem>,
    b: int,
    i: int,
    j: int,
) -> bool {
    let v_i = diagonals::<M>(f, cov).at(b, i);
    let v_j = diagonals::<M>(f, cov).at(b, j);
    let c = cov.at(b, i, j).s_mul(off_unit::<M>(f, i, j));
    &&& cov.at(b, i, j).s_finite()
    &&& M::Elem::s_int(0).s_lt(safe_deviation::<M>(f, v_i))
    &&& M::Elem::s_int(0).s_lt(safe_deviation::<M>(f, v_j))
    &&& safe_deviation::<M>(f, v_i).s_mul(safe_deviation::<M>(f, v_j)).s_finite()
    &&& pair_series::<M>(
        f,
        pair_correlation::<M>(f, c, v_i, v_j),
        mean.at(b, i),
        v_i,
        mean.at(b, j),
        v_j,
    ).s_finite()
    &&& relu_covariances::<M>(f, mean, cov).at(b, i, j).s_finite()
    &&& relu_variance::<M>(f, mean.at(b, i), v_i).s_finite()
}

/// The full-covariance rectifier gives the means and the variances that the
/// diagonal rectifier gives for the input's variances, and keeps a diagonal
/// covariance diagonal.
pub proof fn law_full_relu_matches_diagonal<M: Model>(
    f: Format,
    mean: Grid<M::Elem>,
    cov: Block<M::Elem>,
    b: int,
)
    requires
        tensor_neutral::<M>(f),
        masks_fit::<M>(f),
        mean.dims() == (cov.layers, cov.rows),
        cov.rows == cov.cols,
        0 <= b < cov.layers,
        forall|i: int, j: int|
            cov.has(b, i, j) ==> #[trigger] pair_is_tame::<M>(f, mean, cov, b, i, j),
    ensures
        forall|i: int|
            mean.has(b, i) ==> same(
                #[trigger] diagonals::<M>(f, relu_covariances::<M>(f, mean, cov)).at(b, i),
                relu_variances::<M>(f, mean, diagonals::<M>(f, cov)).at(b, i),
            ),
        (forall|i: int, j: int|
            cov.has(b, i, j) && i != j ==> is_zero(#[trigger] cov.at(b, i, j))) ==> (forall|
            i: int,
            j: int,
        |
            cov.has(b, i, j) && i != j ==> is_zero(
                #[trigger] relu_covariances::<M>(f, mean, cov).at(b, i, j),
            )),
{
    broadcast use group_tables;

    let var = diagonals::<M>(f, cov);
    let out = relu_covariances::<M>(f, mean, cov);
    lemma_units::<M>(f);
    assert forall|i: int| mean.has(b, i) implies same(
        #[trigger] diagonals::<M>(f, out).at(b, i),
        relu_variances::<M>(f, mean, var).at(b, i),
    ) by {
        assert(pair_is_tame::<M>(f, mean, cov, b, i, i));
        assert forall|j: int| 0 <= j < out.cols implies (#[trigger] out.at(
            b,
            i,
            j,
        )).s_finite() by {
            assert(pair_is_tame::<M>(f, mean, cov, b, i, j));
        }
        law_variance_is_diagonal::<M>(f, out, b, i);
        law_full_relu_diagonal::<M>(f, mean, cov, b, i);
        same_trans(
            diagonals::<M>(f, out).at(b, i),
            out.at(b, i, i),
            relu_variance::<M>(f, mean.at(b, i), var.at(b, i)),
        );
    }
    if forall|i: int, j: int|
        cov.has(b, i, j) && i != j ==> is_zero(#[trigger] cov.at(b, i, j)) {
        assert forall|i: int, j: int| cov.has(b, i, j) && i != j implies is_zero(
            #[trigger] out.at(b, i, j),
        ) by {
            assert(pair_is_tame::<M>(f, mean, cov, b, i, j));
            let off = off_unit::<M>(f, i, j);
            assert(is_one(off)) by {
                reveal(masks_fit);
            }
            let c = cov.at(b, i, j);
            mul_one(c, off);
            zeros_same(c, c.s_mul(off));
            law_uncorrelated_stays::<M>(
                f,
                c.s_mul(off),
                mean.at(b, i),
                var.at(b, i),
                mean.at(b, j),
                var.at(b, j),
            );
            let zero = unit::<M>(f, i, j);
            let own = relu_variance::<M>(f, mean.at(b, i), var.at(b, i));
            mul_zero(own, zero);
            let none = rectified_covariance::<M>(
                f,
                c.s_mul(off),
                mean.at(b, i),
                var.at(b, i),
                mean.at(b, j),
                var.at(b, j),
            );
            add_zero(none, own.s_mul(zero));
            zeros_same(none, none.s_add(own.s_mul(zero)));
        }
    }
}

/// The correlation of two features does not depend on their order.
proof fn lemma_correlation_symmetric<M: Model>(f: Format, c: M::Elem, a: M::Elem, b: M::Elem)
    requires
        is_total::<M::Elem>(),
        a.s_finite(),
        b.s_finite(),
        !is_zero(a),
    ensures
        correlation::<M>(f, c, a, b) == correlation::<M>(f, c, b, a),
{
    reveal(is_total);
    if !a.s_lt(b) && !b.s_lt(a) {
        assert(a == b);
    }
}

/// Rectified covariance matrices are symmetric where the input's are.
pub proof fn law_full_relu_symmetric<M: Model>(
    f: Format,
    mean: Grid<M::Elem>,
    cov: Block<M::Elem>,
    b: int,
    i: int,
    j: int,
)
    requires
        tensor_neutral::<M>(f),
        multiplication_commutes::<M::Elem>(),
        is_total::<M::Elem>(),
        mean.dims() == (cov.layers, cov.rows),
        is_symmetric3(cov),
        cov.has(b, i, j),
        safe_deviation::<M>(f, diagonals::<M>(f, cov).at(b, i)).s_finite(),
        safe_deviation::<M>(f, diagonals::<M>(f, cov).at(b, j)).s_finite(),
        !is_zero(safe_deviation::<M>(f, diagonals::<M>(f, cov).at(b, i))),
        relu_variance::<M>(f, mean.at(b, i), diagonals::<M>(f, cov).at(b, i)).s_finite(),
        relu_variance::<M>(f, mean.at(b, j), diagonals::<M>(f, cov).at(b, j)).s_finite(),
    ensures
        same(
            relu_covariances::<M>(f, mean, cov).at(b, i, j),
            relu_covariances::<M>(f, mean, cov).at(b, j, i),
        ),
{
    broadcast use group_tables;

    let var = diagonals::<M>(f, cov);
    let mi = mean.at(b, i);
    let mj = mean.at(b, j);
    let vi = var.at(b, i);
    let vj = var.at(b, j);
    let off = off_unit::<M>(f, i, j);
    assert(off_unit::<M>(f, j, i) == off);
    assert(cov.at(b, i, j) == cov.at(b, j, i));
    let c = cov.at(b, i, j).s_mul(off);
    let one = rectified_covariance::<M>(f, c, mi, vi, mj, vj);
    let two = rectified_covariance::<M>(f, c, mj, vj, mi, vi);
    assert(one == two) by {
        lemma_correlation_symmetric::<M>(
            f,
            c,
            safe_deviation::<M>(f, vi),
            safe_deviation::<M>(f, vj),
        );
        reveal(multiplication_commutes);
    }
    if i != j {
        let zero = unit::<M>(f, i, j);
        let a = relu_variance::<M>(f, mi, vi);
        let d = relu_variance::<M>(f, mj, vj);
        lemma_units::<M>(f);
        mul_zero(a, zero);
        mul_zero(d, zero);
        add_zero(one, a.s_mul(zero));
        add_zero(one, d.s_mul(zero));
        same_trans(one.s_add(d.s_mul(zero)), one, one);
        same_trans(one.s_add(a.s_mul(zero)), one, one.s_add(d.s_mul(zero)));
    }
}

/// An inactive feature covaries with no other.
pub proof fn law_inactive_does_not_covary<M: Model>(
    f: Format,
    c: M::Elem,
    mu_i: M::Elem,
    v_i: M::Elem,
    mu_j: M::Elem,
    v_j: M::Elem,
)
    requires
        tensor_neutral::<M>(f),
        is_inactive::<M>(f, mu_i, v_i),
        alpha_of::<M>(f, mu_i, v_i).s_finite(),
        pair_correlation::<M>(f, c, v_i, v_j).s_finite(),
        covariance_gate::<M>(f, mu_j, v_j).s_finite(),
        covariance_density::<M>(f, mu_j, v_j).s_finite(),
        covariance_slope::<M>(f, mu_j, v_j).s_finite(),
        M::cast(f, half::<M::Elem>()).s_finite(),
        M::cast(f, M::Elem::s_int(1).s_div(M::Elem::s_int(6))).s_finite(),
        safe_deviation::<M>(f, v_i).s_mul(safe_deviation::<M>(f, v_j)).s_finite(),
    ensures
        is_zero(rectified_covariance::<M>(f, c, mu_i, v_i, mu_j, v_j)),
{
    let zero = constant::<M>(f, 0);
    let rho = pair_correlation::<M>(f, c, v_i, v_j);
    let a = alpha_of::<M>(f, mu_i, v_i);
    let h = M::cast(f, half::<M::Elem>());
    let s = M::cast(f, M::Elem::s_int(1).s_div(M::Elem::s_int(6)));
    lemma_units::<M>(f);
    let gates = zero.s_mul(covariance_gate::<M>(f, mu_j, v_j));
    let densities = zero.s_mul(covariance_density::<M>(f, mu_j, v_j));
    let slope = a.s_mul(zero);
    let slopes = slope.s_mul(covariance_slope::<M>(f, mu_j, v_j));
    mul_zero(covariance_gate::<M>(f, mu_j, v_j), zero);
    mul_zero(covariance_density::<M>(f, mu_j, v_j), zero);
    mul_zero(a, zero);
    mul_zero(covariance_slope::<M>(f, mu_j, v_j), slope);
    mul_zero(h, densities);
    mul_zero(s, slopes);
    mul_zero(rho, slopes.s_mul(s));
    let inner = densities.s_mul(h).s_add(rho.s_mul(slopes.s_mul(s)));
    add_zero(densities.s_mul(h), rho.s_mul(slopes.s_mul(s)));
    zeros_same(densities.s_mul(h), inner);
    mul_zero(rho, inner);
    add_zero(gates, rho.s_mul(inner));
    let series = gates.s_add(rho.s_mul(inner));
    zeros_same(gates, series);
    assert(series == pair_series::<M>(f, rho, mu_i, v_i, mu_j, v_j));
    mul_zero(rho, series);
    mul_zero(
        safe_deviation::<M>(f, v_i).s_mul(safe_deviation::<M>(f, v_j)),
        rho.s_mul(series),
    );
}

/// Two active features keep their covariance: eight deviations above zero the
/// rectifier is the identity.
pub proof fn law_active_keeps_covariance<M: Model>(
    f: Format,
    c: M::Elem,
    mu_i: M::Elem,
    v_i: M::Elem,
    mu_j: M::Elem,
    v_j: M::Elem,
)
    requires
        is_field::<M::Elem>(),
        casts_nothing::<M>(f),
        is_active::<M>(f, mu_i, v_i) && !is_inactive::<M>(f, mu_i, v_i),
        is_active::<M>(f, mu_j, v_j) && !is_inactive::<M>(f, mu_j, v_j),
        safe_deviation::<M>(f, v_i) != M::Elem::s_int(0),
        safe_deviation::<M>(f, v_j) != M::Elem::s_int(0),
        is_correlation::<M>(
            c.s_div(safe_deviation::<M>(f, v_i)).s_div(safe_deviation::<M>(f, v_j)),
        ),
    ensures
        rectified_covariance::<M>(f, c, mu_i, v_i, mu_j, v_j) == c,
{
    let zero = M::Elem::s_int(0);
    let a = safe_deviation::<M>(f, v_i);
    let b = safe_deviation::<M>(f, v_j);
    lemma_cast::<M>(f, zero);
    lemma_cast::<M>(f, M::Elem::s_int(1));
    lemma_cast::<M>(f, M::Elem::s_int(-1));
    let (larger, smaller) = if a.s_lt(b) {
        (b, a)
    } else {
        (a, b)
    };
    let quotient = c.s_div(larger).s_div(smaller);
    // The order in which the deviations divide does not matter.
    assert(quotient.s_mul(a.s_mul(b)) == c && c.s_div(a).s_div(b).s_mul(a.s_mul(b)) == c) by {
        lemma_divided_twice(c, a, b);
        lemma_divided_twice(c, b, a);
        ring_mul_comm(a, b);
    }
    assert(quotient == c.s_div(a).s_div(b)) by {
        lemma_product_not_zero(a, b);
        crate::laws::arithmetic::field_cancel(quotient, c.s_div(a).s_div(b), a.s_mul(b));
    }
    let rho = pair_correlation::<M>(f, c, v_i, v_j);
    assert(rho == quotient);
    // Both densities vanish, so only the gates remain of the series.
    let h = M::cast(f, half::<M::Elem>());
    let s = M::cast(f, M::Elem::s_int(1).s_div(M::Elem::s_int(6)));
    ring_zero(zero);
    ring_zero(alpha_of::<M>(f, mu_i, v_i));
    ring_zero(alpha_of::<M>(f, mu_j, v_j));
    ring_zero(h);
    ring_zero(s);
    ring_zero(rho);
    ring_units(zero);
    ring_units(M::Elem::s_int(1));
    assert(pair_series::<M>(f, rho, mu_i, v_i, mu_j, v_j) == M::Elem::s_int(1));
    ring_units(rho);
    ring_mul_comm(rho, a.s_mul(b));
}

/// Whether a number lies between minus one and one.
pub open spec fn is_correlation<M: Model>(x: M::Elem) -> bool {
    !x.s_lt(M::Elem::s_int(-1)) && !M::Elem::s_int(1).s_lt(x)
}

/// `((c / a) / b) (a b) = c`.
pub proof fn lemma_divided_twice<S: Scalar>(c: S, a: S, b: S)
    requires
        is_field::<S>(),
        a != S::s_int(0),
        b != S::s_int(0),
    ensures
        c.s_div(a).s_div(b).s_mul(a.s_mul(b)) == c,
{
    let q = c.s_div(a).s_div(b);
    ring_mul_comm(a, b);
    ring_mul_assoc(q, b, a);
    field_div(c.s_div(a), b);
    field_div(c, a);
}

/// Neither factor is zero, so the product is not.
pub proof fn lemma_product_not_zero<S: Scalar>(a: S, b: S)
    requires
        is_field::<S>(),
        a != S::s_int(0),
        b != S::s_int(0),
    ensures
        a.s_mul(b) != S::s_int(0),
{
    if a.s_mul(b) == S::s_int(0) {
        ring_zero(b);
        crate::laws::arithmetic::field_cancel(a, S::s_int(0), b);
    }
}

} // verus!
