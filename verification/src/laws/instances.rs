//! Laws that survive rounding, for tensors in double precision.
use vstd::prelude::*;

use crate::backend::Format;
use crate::binary64::Binary64;
use crate::dense::Dense;
use crate::scalar::Scalar;

verus! {

use crate::backend::{lowered, plus_rows, product, raised};
use crate::binary64::arithmetic::integer;
use crate::binary64::compare::precedes;
use crate::burn_sdp::diagonal::{bayes_variance, squares};
use crate::burn_sdp::full::{diagonal_blocks, diagonals};
use crate::burn_sdp::rectify::{is_fixed, leaky_mean, leaky_variance};
use crate::laws::arithmetic::{add_zero, is_zero, mul_zero, same};
use crate::laws::diagonal::{law_bayes_with_fixed_bias, law_bayes_with_fixed_weights};
use crate::laws::double::{law_dense_double_is_neutral, lemma_small_integers};
use crate::laws::full::{law_variance_is_diagonal, law_variance_of_diagonal};
use crate::laws::tensors::all_zero;
use crate::scalar::all_finite;
use crate::tensor::{Block, Grid};

/// Plain vectors in double precision.
type D = Dense<Binary64>;

/// In double precision the variances read from a finite covariance are its
/// diagonal, in every format and whatever stands off the diagonal.
pub proof fn law_double_variance_is_diagonal(f: Format, cov: Block<Binary64>, b: int, i: int)
    requires
        cov.rows == cov.cols,
        cov.has(b, i, i),
        forall|j: int| 0 <= j < cov.cols ==> (#[trigger] cov.at(b, i, j)).is_finite(),
    ensures
        same(diagonals::<D>(f, cov).at(b, i), cov.at(b, i, i)),
{
    law_dense_double_is_neutral(f);
    law_variance_is_diagonal::<D>(f, cov, b, i);
}

/// In double precision a finite diagonal variance is read back from the
/// covariance built from it, in every format.
pub proof fn law_double_variance_of_diagonal(f: Format, var: Grid<Binary64>, b: int, i: int)
    requires
        var.has(b, i),
        var.at(b, i).is_finite(),
    ensures
        same(diagonals::<D>(f, diagonal_blocks::<D>(f, var)).at(b, i), var.at(b, i)),
{
    law_dense_double_is_neutral(f);
    law_variance_of_diagonal::<D>(f, var, b, i);
}

/// In double precision the affine map with uncertain weights of zero variance is
/// the affine map with fixed weights, in every format, as long as the squares of
/// the means do not overflow.
pub proof fn law_double_bayes_with_fixed_weights(
    f: Format,
    mean: Grid<Binary64>,
    var: Grid<Binary64>,
    w_mean: Grid<Binary64>,
    w_var: Grid<Binary64>,
    i: int,
    j: int,
)
    requires
        mean.dims() == var.dims(),
        w_mean.dims() == w_var.dims(),
        mean.cols == w_mean.rows,
        0 <= i < mean.rows,
        0 <= j < w_mean.cols,
        all_finite(squares(mean).row(i)),
        all_finite(var.row(i)),
        all_zero(w_var.col(j)),
    ensures
        same(
            bayes_variance::<D>(mean, var, w_mean, w_var).at(i, j),
            product::<D>(var, squares(w_mean)).at(i, j),
        ),
{
    law_dense_double_is_neutral(f);
    law_bayes_with_fixed_weights::<D>(f, mean, var, w_mean, w_var, i, j);
}

/// In double precision a bias of zero variance leaves the output variance alone.
pub proof fn law_double_bayes_with_fixed_bias(
    f: Format,
    var: Grid<Binary64>,
    b_var: Seq<Binary64>,
    i: int,
    j: int,
)
    requires
        var.has(i, j),
        is_zero(b_var[j]),
    ensures
        same(plus_rows(var, b_var).at(i, j), var.at(i, j)),
{
    law_dense_double_is_neutral(f);
    law_bayes_with_fixed_bias::<D>(f, var, b_var, i, j);
}

/// In double precision the leaky rectifier of a fixed input keeps what is not
/// negative, scales what is by the slope, and leaves it fixed.
pub proof fn law_double_leaky_fixed(alpha: Binary64, mu: Binary64, v: Binary64)
    requires
        alpha.is_finite(),
        mu.is_finite(),
        is_fixed::<D>(Format::F64, v),
    ensures
        !precedes(mu, integer(0)) ==> same(leaky_mean::<D>(Format::F64, alpha, mu, v), mu),
        precedes(mu, integer(0)) ==> same(
            leaky_mean::<D>(Format::F64, alpha, mu, v),
            mu.s_mul(alpha),
        ),
        leaky_variance::<D>(Format::F64, alpha, mu, v) == integer(0),
{
    law_dense_double_is_neutral(Format::F64);
    lemma_small_integers();
    let zero = integer(0);
    let (up, down) = (raised(mu, zero), lowered(mu, zero));
    if precedes(mu, zero) {
        add_zero(mu.s_mul(alpha), zero);
    } else if precedes(zero, mu) {
        mul_zero(alpha, zero);
        add_zero(mu, zero.s_mul(alpha));
    } else {
        crate::binary64::lemma_decoded(mu);
        mul_zero(alpha, mu);
        add_zero(mu, mu.s_mul(alpha));
    }
}

} // verus!
