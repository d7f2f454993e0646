//! Laws of propagation on batches of means and variances.
use vstd::prelude::*;

use crate::backend::Format;
use crate::scalar::Scalar;

verus! {

use crate::backend::{constant, lowered, plus_rows, product, raised, Model};
use crate::burn_sdp::diagonal::{bayes_variance, doubled, squares, sums};
use crate::burn_sdp::rectify::{
    complement, cross_weight, is_active, is_fixed, is_inactive, leaky_mean, leaky_variance, relu_mean,
    relu_variance, smooth_mass, smooth_mean, smooth_variance,
};
use crate::laws::arithmetic::{
    add_zero, addition_commutes, is_one, is_strict, is_total, is_zero, mul_one, mul_zero, multiplication_commutes,
    one_less_zero, ring_dist, ring_ints, ring_units, same, same_trans, zeros_same,
};
use crate::laws::tensors::{
    all_zero, folds, is_exact, lemma_cast, lemma_cast_units, lemma_folds, lemma_inner_zero,
    lemma_units, tensor_neutral,
};
use crate::scalar::{all_finite, dot};
use crate::tensor::{group_tables, lemma_grid_ext, table, Grid};

/// At slope zero the leaky rectifier is the rectifier.
pub proof fn law_leaky_without_slope<M: Model>(
    f: Format,
    alpha: M::Elem,
    mu: M::Elem,
    v: M::Elem,
)
    requires
        tensor_neutral::<M>(f),
        is_zero(alpha),
        mu.s_finite(),
        v.s_finite(),
        smooth_mass::<M>(f, mu, v).s_finite(),
    ensures
        same(leaky_mean::<M>(f, alpha, mu, v), relu_mean::<M>(f, mu, v)),
        same(leaky_variance::<M>(f, alpha, mu, v), relu_variance::<M>(f, mu, v)),
{
    let zero = constant::<M>(f, 0);
    let slope = M::cast(f, alpha);
    let rest = M::cast(f, complement(alpha));
    let square = M::cast(f, alpha.s_mul(alpha));
    let rest_square = M::cast(f, complement(alpha).s_mul(complement(alpha)));
    let cross = M::cast(f, cross_weight(alpha));
    lemma_units::<M>(f);
    one_less_zero(alpha);
    zeros_same(alpha, alpha);
    mul_zero(alpha, alpha);
    lemma_cast_units::<M>(f, alpha);
    lemma_cast_units::<M>(f, complement(alpha));
    lemma_cast_units::<M>(f, alpha.s_mul(alpha));
    lemma_one_squared(complement(alpha));
    lemma_cast_units::<M>(f, complement(alpha).s_mul(complement(alpha)));
    mul_zero(M::Elem::s_int(2), alpha);
    mul_one(M::Elem::s_int(2).s_mul(alpha), complement(alpha));
    zeros_same(M::Elem::s_int(2).s_mul(alpha), cross_weight(alpha));
    lemma_cast_units::<M>(f, cross_weight(alpha));
    if is_fixed::<M>(f, v) {
        let low = lowered(mu, zero);
        mul_zero(low, slope);
        add_zero(raised(mu, zero), low.s_mul(slope));
    } else if is_inactive::<M>(f, mu, v) {
        mul_zero(mu, slope);
        mul_zero(v, square);
        zeros_same(mu.s_mul(slope), zero);
        zeros_same(v.s_mul(square), zero);
    } else if !is_active::<M>(f, mu, v) {
        let mean = smooth_mean::<M>(f, mu, v);
        mul_zero(mu, slope);
        mul_one(mean, rest);
        add_zero(mean.s_mul(rest), mu.s_mul(slope));
        same_trans(mean.s_mul(rest).s_add(mu.s_mul(slope)), mean.s_mul(rest), mean);
        let var = smooth_variance::<M>(f, mu, v);
        let p = smooth_mass::<M>(f, mu, v);
        let own = v.s_mul(square);
        let kept = var.s_mul(rest_square);
        let shared = v.s_mul(p.s_mul(cross));
        mul_zero(v, square);
        mul_zero(p, cross);
        mul_zero(v, p.s_mul(cross));
        mul_one(var, rest_square);
        add_zero(kept, own);
        same_trans(own.s_add(kept), kept, var);
        add_zero(own.s_add(kept), shared);
        same_trans(own.s_add(kept).s_add(shared), own.s_add(kept), var);
    }
}

/// At slope one the leaky rectifier gives mean and variance back.
pub proof fn law_leaky_with_full_slope<M: Model>(
    f: Format,
    alpha: M::Elem,
    mu: M::Elem,
    v: M::Elem,
)
    requires
        tensor_neutral::<M>(f),
        is_total::<M::Elem>(),
        is_strict::<M::Elem>(),
        one_less_one::<M::Elem>(),
        is_one(alpha),
        mu.s_finite(),
        v.s_finite(),
        !v.s_lt(constant::<M>(f, 0)),
        is_fixed::<M>(f, v) || is_active::<M>(f, mu, v) || is_inactive::<M>(f, mu, v) || (
        smooth_mass::<M>(f, mu, v).s_finite() && smooth_mean::<M>(f, mu, v).s_finite()
            && smooth_variance::<M>(f, mu, v).s_finite()),
    ensures
        same(leaky_mean::<M>(f, alpha, mu, v), mu),
        same(leaky_variance::<M>(f, alpha, mu, v), v),
{
    let zero = constant::<M>(f, 0);
    let slope = M::cast(f, alpha);
    let rest = complement(alpha);
    let square = M::cast(f, alpha.s_mul(alpha));
    let none = M::cast(f, rest);
    let rest_square = M::cast(f, rest.s_mul(rest));
    let cross = M::cast(f, cross_weight(alpha));
    lemma_units::<M>(f);
    assert(is_zero(rest)) by {
        reveal(one_less_one);
    }
    zeros_same(rest, rest);
    lemma_cast_units::<M>(f, alpha);
    lemma_cast_units::<M>(f, rest);
    lemma_one_squared(alpha);
    lemma_cast_units::<M>(f, alpha.s_mul(alpha));
    mul_zero(rest, rest);
    lemma_cast_units::<M>(f, rest.s_mul(rest));
    one_less_zero(rest);
    let two = M::Elem::s_int(2);
    mul_one(two, alpha);
    assert(two.s_mul(alpha).s_finite()) by {
        reveal(one_less_one);
    }
    mul_zero(two.s_mul(alpha), rest);
    lemma_cast_units::<M>(f, cross_weight(alpha));
    mul_one(mu, slope);
    mul_one(v, square);
    if is_fixed::<M>(f, v) {
        // Neither less than zero nor more, the variance is zero.
        assert(is_zero(v)) by {
            reveal(is_total);
            reveal(is_strict);
            if zero.s_lt(v) {
                assert(!v.s_lt(zero) && !v.s_eq(zero));
            }
            lemma_at_most::<M::Elem>(v, zero);
        }
        zeros_same(zero, v);
        lemma_parts_add_up::<M>(f, mu, slope);
    } else if is_inactive::<M>(f, mu, v) {
    } else if is_active::<M>(f, mu, v) {
    } else {
        let mean = smooth_mean::<M>(f, mu, v);
        mul_zero(mean, none);
        add_zero(mu.s_mul(slope), mean.s_mul(none));
        same_trans(mean.s_mul(none).s_add(mu.s_mul(slope)), mu.s_mul(slope), mu);
        let var = smooth_variance::<M>(f, mu, v);
        let p = smooth_mass::<M>(f, mu, v);
        let own = v.s_mul(square);
        let kept = var.s_mul(rest_square);
        let shared = v.s_mul(p.s_mul(cross));
        mul_zero(var, rest_square);
        mul_zero(p, cross);
        mul_zero(v, p.s_mul(cross));
        add_zero(own, kept);
        same_trans(own.s_add(kept), own, v);
        add_zero(own.s_add(kept), shared);
        same_trans(own.s_add(kept).s_add(shared), own.s_add(kept), v);
    }
}

/// Whether one less one is zero, and two times one is finite.
#[verifier::opaque]
pub open spec fn one_less_one<S: Scalar>() -> bool {
    &&& forall|o: S| is_one(o) ==> is_zero(#[trigger] S::s_int(1).s_sub(o))
    &&& forall|o: S| is_one(o) ==> (#[trigger] S::s_int(2).s_mul(o)).s_finite()
    &&& forall|a: S, b: S| #[trigger] a.s_le(b) ==> a.s_lt(b) || a.s_eq(b)
}

/// What is at most, and not less, compares equal.
proof fn lemma_at_most<S: Scalar>(a: S, b: S)
    requires
        one_less_one::<S>(),
        a.s_le(b),
    ensures
        a.s_lt(b) || a.s_eq(b),
{
    reveal(one_less_one);
}

/// The rectified part of a number and its negative part times one add up to it.
proof fn lemma_parts_add_up<M: Model>(f: Format, mu: M::Elem, slope: M::Elem)
    requires
        tensor_neutral::<M>(f),
        is_total::<M::Elem>(),
        is_one(slope),
        mu.s_finite(),
    ensures
        same(
            raised(mu, constant::<M>(f, 0)).s_add(
                lowered(mu, constant::<M>(f, 0)).s_mul(slope),
            ),
            mu,
        ),
{
    let zero = constant::<M>(f, 0);
    let up = raised(mu, zero);
    let down = lowered(mu, zero).s_mul(slope);
    lemma_units::<M>(f);
    reveal(is_total);
    mul_one(lowered(mu, zero), slope);
    if mu.s_lt(zero) {
        add_zero(down, zero);
        same_trans(up.s_add(down), down, mu);
    } else if zero.s_lt(mu) {
        zeros_same(zero, down);
        add_zero(mu, down);
    } else {
        zeros_same(mu, down);
        zeros_same(zero, down);
        add_zero(mu, down);
    }
}

/// One times one is one.
proof fn lemma_one_squared<S: Scalar>(o: S)
    requires
        crate::laws::arithmetic::is_neutral::<S>(),
        crate::laws::arithmetic::is_one(o),
    ensures
        crate::laws::arithmetic::is_one(o.s_mul(o)),
{
    mul_one(o, o);
    reveal(crate::laws::arithmetic::equality_fits);
}

/// The rectifier's variance is never negative, whatever its input.
pub proof fn law_relu_variance_not_negative<M: Model>(f: Format, mu: M::Elem, v: M::Elem)
    requires
        is_strict::<M::Elem>(),
    ensures
        !relu_variance::<M>(f, mu, v).s_lt(constant::<M>(f, 0)),
{
    reveal(is_strict);
}

/// Where an input is fixed, so is the rectifier's output: its mean is rectified
/// and its variance zero.
pub proof fn law_relu_keeps_fixed<M: Model>(f: Format, mu: M::Elem, v: M::Elem)
    requires
        is_fixed::<M>(f, v),
    ensures
        relu_mean::<M>(f, mu, v) == raised(mu, constant::<M>(f, 0)),
        relu_variance::<M>(f, mu, v) == constant::<M>(f, 0),
{
}

/// Eight deviations above zero the rectifier changes nothing.
pub proof fn law_relu_active<M: Model>(f: Format, mu: M::Elem, v: M::Elem)
    requires
        !is_fixed::<M>(f, v),
        is_active::<M>(f, mu, v),
        !is_inactive::<M>(f, mu, v),
    ensures
        relu_mean::<M>(f, mu, v) == mu,
        relu_variance::<M>(f, mu, v) == v,
{
}

/// Eight deviations below zero the rectifier gives zero.
pub proof fn law_relu_inactive<M: Model>(f: Format, mu: M::Elem, v: M::Elem)
    requires
        !is_fixed::<M>(f, v),
        is_inactive::<M>(f, mu, v),
    ensures
        relu_mean::<M>(f, mu, v) == constant::<M>(f, 0),
        relu_variance::<M>(f, mu, v) == constant::<M>(f, 0),
{
}

/// With weights of zero variance, the affine map with uncertain weights is the
/// affine map with fixed weights.
pub proof fn law_bayes_with_fixed_weights<M: Model>(
    f: Format,
    mean: Grid<M::Elem>,
    var: Grid<M::Elem>,
    w_mean: Grid<M::Elem>,
    w_var: Grid<M::Elem>,
    i: int,
    j: int,
)
    requires
        tensor_neutral::<M>(f),
        mean.dims() == var.dims(),
        w_mean.dims() == w_var.dims(),
        mean.cols == w_mean.rows,
        0 <= i < mean.rows,
        0 <= j < w_mean.cols,
        all_finite(squares(mean).row(i)),
        all_finite(var.row(i)),
        all_zero(w_var.col(j)),
    ensures
        same(
            bayes_variance::<M>(mean, var, w_mean, w_var).at(i, j),
            product::<M>(var, squares(w_mean)).at(i, j),
        ),
{
    broadcast use group_tables;

    let parameters = product::<M>(squares(mean), w_var).at(i, j);
    let inputs = product::<M>(var, squares(w_mean)).at(i, j);
    let crossed = product::<M>(var, w_var).at(i, j);
    lemma_inner_zero::<M>(f, squares(mean).row(i), w_var.col(j));
    lemma_inner_zero::<M>(f, var.row(i), w_var.col(j));
    add_zero(inputs, parameters);
    add_zero(parameters.s_add(inputs), crossed);
    same_trans(parameters.s_add(inputs).s_add(crossed), parameters.s_add(inputs), inputs);
}

/// A bias of zero variance leaves the output variance alone.
pub proof fn law_bayes_with_fixed_bias<M: Model>(
    f: Format,
    var: Grid<M::Elem>,
    b_var: Seq<M::Elem>,
    i: int,
    j: int,
)
    requires
        tensor_neutral::<M>(f),
        var.has(i, j),
        is_zero(b_var[j]),
    ensures
        same(plus_rows(var, b_var).at(i, j), var.at(i, j)),
{
    broadcast use group_tables;

    add_zero(var.at(i, j), b_var[j]);
}

/// Each row of the batch is by itself: an affine map's row depends on the same
/// row of the input only.
pub proof fn law_affine_rows_apart<M: Model>(
    a: Grid<M::Elem>,
    b: Grid<M::Elem>,
    weight: Grid<M::Elem>,
    i: int,
    j: int,
)
    requires
        a.cols == b.cols,
        0 <= i < a.rows,
        0 <= i < b.rows,
        0 <= j < weight.cols,
        a.row(i) == b.row(i),
    ensures
        product::<M>(a, weight).at(i, j) == product::<M>(b, weight).at(i, j),
{
    broadcast use group_tables;

}

/// The table with rows and columns exchanged.
pub open spec fn turned<E>(m: Grid<E>) -> Grid<E> {
    table(m.cols, m.rows, |i: int, j: int| m.at(j, i))
}

/// Left multiplication is an affine map of the exchanged tables: the product
/// `a @ x` is the transpose of `x^T @ a^T`.
pub proof fn law_left_product_is_affine<M: Model>(a: Grid<M::Elem>, x: Grid<M::Elem>)
    requires
        folds::<M>(),
        multiplication_commutes::<M::Elem>(),
        a.cols == x.rows,
    ensures
        product::<M>(a, x) == turned(product::<M>(turned(x), turned(a))),
        squares(turned(a)) == turned(squares(a)),
{
    broadcast use group_tables;

    let left = product::<M>(a, x);
    let right = turned(product::<M>(turned(x), turned(a)));
    assert forall|i: int, j: int| left.has(i, j) implies #[trigger] left.at(i, j) == right.at(
        i,
        j,
    ) by {
        assert(turned(x).row(j) =~= x.col(j));
        assert(turned(a).col(i) =~= a.row(i));
        lemma_folds::<M>(a.row(i), x.col(j));
        lemma_folds::<M>(x.col(j), a.row(i));
        lemma_dot_commutes(a.row(i), x.col(j), a.cols);
    }
    lemma_grid_ext(left, right);
    lemma_grid_ext(squares(turned(a)), turned(squares(a)));
}

/// Inner products commute where multiplication does.
proof fn lemma_dot_commutes<S: Scalar>(a: Seq<S>, b: Seq<S>, n: nat)
    requires
        multiplication_commutes::<S>(),
    ensures
        dot(a, b, n) == dot(b, a, n),
    decreases n,
{
    if n > 0 {
        lemma_dot_commutes(a, b, (n - 1) as nat);
        assert(a[n - 1].s_mul(b[n - 1]) == b[n - 1].s_mul(a[n - 1])) by {
            reveal(multiplication_commutes);
        }
    }
}

/// Skip and branch may be exchanged.
pub proof fn law_residual_commutes<S: Scalar>(a: Grid<S>, b: Grid<S>)
    requires
        addition_commutes::<S>(),
        a.dims() == b.dims(),
    ensures
        sums(a, b) == sums(b, a),
{
    broadcast use group_tables;

    assert forall|i: int, j: int| sums(a, b).has(i, j) implies #[trigger] sums(a, b).at(i, j)
        == sums(b, a).at(i, j) by {
        reveal(addition_commutes);
    }
    lemma_grid_ext(sums(a, b), sums(b, a));
}

/// Without covariance, the correlated residual is the independent one.
pub proof fn law_uncorrelated_residual<M: Model>(
    f: Format,
    skip: Grid<M::Elem>,
    branch: Grid<M::Elem>,
    cov: Grid<M::Elem>,
    i: int,
    j: int,
)
    requires
        tensor_neutral::<M>(f),
        skip.dims() == branch.dims(),
        skip.dims() == cov.dims(),
        skip.has(i, j),
        is_zero(cov.at(i, j)),
        constant::<M>(f, 2).s_finite(),
    ensures
        same(
            sums(sums(skip, branch), doubled::<M>(f, cov)).at(i, j),
            sums(skip, branch).at(i, j),
        ),
{
    broadcast use group_tables;

    mul_zero(constant::<M>(f, 2), cov.at(i, j));
    add_zero(sums(skip, branch).at(i, j), doubled::<M>(f, cov).at(i, j));
}

/// A branch that is the skip itself, and so covaries with it by its variance,
/// doubles the input: four times the variance.
pub proof fn law_residual_of_itself<M: Model>(f: Format, var: Grid<M::Elem>, i: int, j: int)
    requires
        is_exact::<M>(f),
        var.has(i, j),
    ensures
        sums(sums(var, var), doubled::<M>(f, var)).at(i, j) == var.at(i, j).s_mul(
            M::Elem::s_int(4),
        ),
{
    broadcast use group_tables;

    let v = var.at(i, j);
    let two = M::Elem::s_int(2);
    lemma_cast::<M>(f, two);
    ring_units(v);
    ring_dist(v, M::Elem::s_int(1), M::Elem::s_int(1));
    ring_ints::<M::Elem>(1, 1);
    ring_dist(v, two, two);
    ring_ints::<M::Elem>(2, 2);
}

} // verus!
