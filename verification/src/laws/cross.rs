//! Laws of covariance between two variables.
use vstd::prelude::*;

use crate::backend::Format;
use crate::scalar::Scalar;

verus! {

use crate::backend::{constant, Model};
use crate::burn_sdp::cross::gated;
use crate::burn_sdp::full::right_product;
use crate::burn_sdp::rectify::{is_active, is_fixed, is_inactive};
use crate::laws::arithmetic::{is_zero, mul_one, mul_zero, same};
use crate::laws::tensors::{lemma_units, tensor_neutral};
use crate::tensor::{group_tables, Block, Grid};

/// A right feature that is fixed, or eight deviations below zero, covaries with
/// nothing after the rectifier.
pub proof fn law_closed_gate<M: Model>(
    f: Format,
    cross_cov: Block<M::Elem>,
    mean: Grid<M::Elem>,
    var: Grid<M::Elem>,
    b: int,
    i: int,
    j: int,
)
    requires
        tensor_neutral::<M>(f),
        cross_cov.has(b, i, j),
        cross_cov.at(b, i, j).s_finite(),
        is_fixed::<M>(f, var.at(b, j)) || is_inactive::<M>(f, mean.at(b, j), var.at(b, j)),
    ensures
        is_zero(gated::<M>(f, cross_cov, mean, var).at(b, i, j)),
{
    broadcast use group_tables;

    lemma_units::<M>(f);
    mul_zero(cross_cov.at(b, i, j), constant::<M>(f, 0));
}

/// A right feature eight deviations above zero keeps its covariances.
pub proof fn law_open_gate<M: Model>(
    f: Format,
    cross_cov: Block<M::Elem>,
    mean: Grid<M::Elem>,
    var: Grid<M::Elem>,
    b: int,
    i: int,
    j: int,
)
    requires
        tensor_neutral::<M>(f),
        cross_cov.has(b, i, j),
        !is_fixed::<M>(f, var.at(b, j)),
        !is_inactive::<M>(f, mean.at(b, j), var.at(b, j)),
        is_active::<M>(f, mean.at(b, j), var.at(b, j)),
    ensures
        same(gated::<M>(f, cross_cov, mean, var).at(b, i, j), cross_cov.at(b, i, j)),
{
    broadcast use group_tables;

    lemma_units::<M>(f);
    mul_one(cross_cov.at(b, i, j), constant::<M>(f, 1));
}

/// Each row of the batch is by itself: a layer of the transported covariance
/// depends on the same layer of the input only.
pub proof fn law_cross_rows_apart<M: Model>(
    a: Block<M::Elem>,
    c: Block<M::Elem>,
    weight: Grid<M::Elem>,
    b: int,
    i: int,
    j: int,
)
    requires
        a.dims() == c.dims(),
        a.cols == weight.rows,
        0 <= b < a.layers,
        0 <= i < a.rows,
        0 <= j < weight.cols,
        a.layer(b) == c.layer(b),
    ensures
        right_product::<M>(a, weight).at(b, i, j) == right_product::<M>(c, weight).at(b, i, j),
{
    broadcast use group_tables;

}

} // verus!
