//! What affine maps and sums of tensors do, entry by entry.
use vstd::prelude::*;

use crate::backend::Format;
use crate::scalar::Scalar;

verus! {

use crate::backend::{layer_products, plus_rows, product, Model};
use crate::burn_sdp::cauchy::magnitudes;
use crate::burn_sdp::diagonal::{affine, bayes_variance, bias_of, doubled, squares, sums};
use crate::burn_sdp::full::{diagonal_blocks, diagonals, left_product, right_product};
use crate::laws::arithmetic::{
    is_ring, ring_add_assoc, ring_add_comm, ring_dist, ring_ints, ring_units, ring_zero,
};
use crate::laws::full::{lemma_diagonal_entry, lemma_left_entry, lemma_product_entry, lemma_right_entry};
use crate::laws::sums::{lemma_dot_sum, lemma_sum_add, lemma_sum_eq, sum_to};
use crate::laws::tensors::{casts_nothing, folds, is_exact, lemma_cast, lemma_folds};
use crate::tensor::{group_tables, Block, Grid};

/// Every entry of a matrix product is the sum of the products of a row's and a
/// column's entries.
pub proof fn law_product_entries<M: Model>(a: Grid<M::Elem>, b: Grid<M::Elem>, i: int, j: int)
    requires
        folds::<M>(),
        a.cols == b.rows,
        0 <= i < a.rows,
        0 <= j < b.cols,
    ensures
        product::<M>(a, b).rows == a.rows,
        product::<M>(a, b).cols == b.cols,
        product::<M>(a, b).at(i, j) == sum_to(b.rows, |k: int| a.at(i, k).s_mul(b.at(k, j))),
{
    broadcast use group_tables;

    lemma_product_entry::<M>(a, b, i, j);
}

/// Every entry of an affine map, in every row of the batch, is the sum of the
/// products of the row's entries and a column's weights, and the bias of that
/// column.
pub proof fn law_affine_entries<M: Model>(
    x: Grid<M::Elem>,
    weight: Grid<M::Elem>,
    bias: Seq<M::Elem>,
    i: int,
    j: int,
)
    requires
        folds::<M>(),
        x.cols == weight.rows,
        0 <= i < x.rows,
        0 <= j < weight.cols,
    ensures
        affine::<M>(x, weight, Some(bias)).rows == x.rows,
        affine::<M>(x, weight, Some(bias)).cols == weight.cols,
        affine::<M>(x, weight, Some(bias)).at(i, j) == sum_to(
            weight.rows,
            |k: int| x.at(i, k).s_mul(weight.at(k, j)),
        ).s_add(bias[j]),
        affine::<M>(x, weight, None).rows == x.rows,
        affine::<M>(x, weight, None).cols == weight.cols,
        affine::<M>(x, weight, None).at(i, j) == sum_to(
            weight.rows,
            |k: int| x.at(i, k).s_mul(weight.at(k, j)),
        ),
{
    broadcast use group_tables;

    lemma_product_entry::<M>(x, weight, i, j);
}

/// Equal rows have equal outputs, wherever in which batch they stand: a row's
/// output, with its bias, depends on that row alone.
pub proof fn law_affine_rows_agree<M: Model>(
    x: Grid<M::Elem>,
    y: Grid<M::Elem>,
    weight: Grid<M::Elem>,
    bias: Option<Seq<M::Elem>>,
    i: int,
    k: int,
    j: int,
)
    requires
        x.cols == weight.rows,
        y.cols == weight.rows,
        0 <= i < x.rows,
        0 <= k < y.rows,
        0 <= j < weight.cols,
        forall|c: int| 0 <= c < weight.rows ==> #[trigger] x.at(i, c) == y.at(k, c),
    ensures
        affine::<M>(x, weight, bias).at(i, j) == affine::<M>(y, weight, bias).at(k, j),
{
    broadcast use group_tables;

    assert(x.row(i) =~= y.row(k));
}

/// A bias adds itself to every row.
pub proof fn law_bias_shifts_every_row<M: Model>(
    x: Grid<M::Elem>,
    weight: Grid<M::Elem>,
    bias: Seq<M::Elem>,
    i: int,
    j: int,
)
    requires
        0 <= i < x.rows,
        0 <= j < weight.cols,
    ensures
        affine::<M>(x, weight, Some(bias)).at(i, j) == affine::<M>(x, weight, None).at(
            i,
            j,
        ).s_add(bias[j]),
{
    broadcast use group_tables;

}

/// A vector is added to every row of a table.
pub proof fn law_plus_rows<S: Scalar>(m: Grid<S>, v: Seq<S>, i: int, j: int)
    requires
        m.has(i, j),
    ensures
        plus_rows(m, v).dims() == m.dims(),
        plus_rows(m, v).at(i, j) == m.at(i, j).s_add(v[j]),
{
    broadcast use group_tables;

}

/// The variance of an affine map of independent features:
/// `var'[i][j] = sum_k var[i][k] w[k][j]^2`, in every row of the batch.
pub proof fn law_linear_variance_entries<M: Model>(
    var: Grid<M::Elem>,
    weight: Grid<M::Elem>,
    i: int,
    j: int,
)
    requires
        folds::<M>(),
        var.cols == weight.rows,
        0 <= i < var.rows,
        0 <= j < weight.cols,
    ensures
        product::<M>(var, squares(weight)).at(i, j) == sum_to(
            weight.rows,
            |k: int| var.at(i, k).s_mul(weight.at(k, j).s_mul(weight.at(k, j))),
        ),
{
    broadcast use group_tables;

    let square = squares(weight);
    lemma_product_entry::<M>(var, square, i, j);
    lemma_sum_eq(
        weight.rows,
        |k: int| var.at(i, k).s_mul(square.at(k, j)),
        |k: int| var.at(i, k).s_mul(weight.at(k, j).s_mul(weight.at(k, j))),
    );
}

/// The scale of an affine map of independent Cauchy features:
/// `scale'[i][j] = sum_k scale[i][k] |w[k][j]|`, in every row of the batch.
pub proof fn law_cauchy_scale_entries<M: Model>(
    scale: Grid<M::Elem>,
    weight: Grid<M::Elem>,
    i: int,
    j: int,
)
    requires
        folds::<M>(),
        scale.cols == weight.rows,
        0 <= i < scale.rows,
        0 <= j < weight.cols,
    ensures
        product::<M>(scale, magnitudes(weight)).at(i, j) == sum_to(
            weight.rows,
            |k: int| scale.at(i, k).s_mul(weight.at(k, j).s_abs()),
        ),
{
    broadcast use group_tables;

    let absolute = magnitudes(weight);
    lemma_product_entry::<M>(scale, absolute, i, j);
    lemma_sum_eq(
        weight.rows,
        |k: int| scale.at(i, k).s_mul(absolute.at(k, j)),
        |k: int| scale.at(i, k).s_mul(weight.at(k, j).s_abs()),
    );
}

/// The means and variances of a left product `A X`, whose columns are features:
/// `mean'[i][j] = sum_k a[i][k] mean[k][j]` and
/// `var'[i][j] = sum_k a[i][k]^2 var[k][j]`.
pub proof fn law_left_product_entries<M: Model>(
    a: Grid<M::Elem>,
    mean: Grid<M::Elem>,
    var: Grid<M::Elem>,
    i: int,
    j: int,
)
    requires
        folds::<M>(),
        a.cols == mean.rows,
        mean.dims() == var.dims(),
        0 <= i < a.rows,
        0 <= j < mean.cols,
    ensures
        product::<M>(a, mean).at(i, j) == sum_to(
            mean.rows,
            |k: int| a.at(i, k).s_mul(mean.at(k, j)),
        ),
        product::<M>(squares(a), var).at(i, j) == sum_to(
            var.rows,
            |k: int| a.at(i, k).s_mul(a.at(i, k)).s_mul(var.at(k, j)),
        ),
{
    broadcast use group_tables;

    let square = squares(a);
    lemma_product_entry::<M>(a, mean, i, j);
    lemma_product_entry::<M>(square, var, i, j);
    lemma_sum_eq(
        var.rows,
        |k: int| square.at(i, k).s_mul(var.at(k, j)),
        |k: int| a.at(i, k).s_mul(a.at(i, k)).s_mul(var.at(k, j)),
    );
}

/// `(m m) p + v (w w) + v p + (m m) (w w) = (m m + v) (w w + p)`.
proof fn lemma_second_moment_product<S: Scalar>(mm: S, v: S, ww: S, p: S)
    requires
        is_ring::<S>(),
    ensures
        mm.s_mul(p).s_add(v.s_mul(ww)).s_add(v.s_mul(p)).s_add(mm.s_mul(ww)) == mm.s_add(v).s_mul(
            ww.s_add(p),
        ),
{
    let (a, b, c, d) = (mm.s_mul(p), v.s_mul(ww), v.s_mul(p), mm.s_mul(ww));
    ring_dist(mm.s_add(v), ww, p);
    ring_dist(ww, mm, v);
    ring_dist(p, mm, v);
    // (d + b) + (a + c)
    ring_add_assoc(a, b, c);
    ring_add_comm(a.s_add(b.s_add(c)), d);
    ring_add_comm(a, b.s_add(c));
    ring_add_assoc(b, c, a);
    ring_add_comm(c, a);
    ring_add_assoc(d, b, a.s_add(c));
}

/// The second moments of a product of independent uncertain numbers multiply:
/// the variance of an output with uncertain weights, and the sum of the squares
/// of its mean terms, are together
/// `sum_k (mean[i][k]^2 + var[i][k]) (w[k][j]^2 + w_var[k][j])`.
pub proof fn law_bayes_second_moments<M: Model>(
    mean: Grid<M::Elem>,
    var: Grid<M::Elem>,
    w_mean: Grid<M::Elem>,
    w_var: Grid<M::Elem>,
    i: int,
    j: int,
)
    requires
        is_ring::<M::Elem>(),
        folds::<M>(),
        mean.dims() == var.dims(),
        w_mean.dims() == w_var.dims(),
        mean.cols == w_mean.rows,
        0 <= i < mean.rows,
        0 <= j < w_mean.cols,
    ensures
        bayes_variance::<M>(mean, var, w_mean, w_var).at(i, j).s_add(
            sum_to(
                w_mean.rows,
                |k: int|
                    mean.at(i, k).s_mul(mean.at(i, k)).s_mul(
                        w_mean.at(k, j).s_mul(w_mean.at(k, j)),
                    ),
            ),
        ) == sum_to(
            w_mean.rows,
            |k: int|
                mean.at(i, k).s_mul(mean.at(i, k)).s_add(var.at(i, k)).s_mul(
                    w_mean.at(k, j).s_mul(w_mean.at(k, j)).s_add(w_var.at(k, j)),
                ),
        ),
{
    broadcast use group_tables;

    let n = w_mean.rows;
    let (xs, ws) = (squares(mean), squares(w_mean));
    lemma_product_entry::<M>(xs, w_var, i, j);
    lemma_product_entry::<M>(var, ws, i, j);
    lemma_product_entry::<M>(var, w_var, i, j);
    let a = |k: int| mean.at(i, k).s_mul(mean.at(i, k)).s_mul(w_var.at(k, j));
    let b = |k: int| var.at(i, k).s_mul(w_mean.at(k, j).s_mul(w_mean.at(k, j)));
    let c = |k: int| var.at(i, k).s_mul(w_var.at(k, j));
    let d = |k: int|
        mean.at(i, k).s_mul(mean.at(i, k)).s_mul(w_mean.at(k, j).s_mul(w_mean.at(k, j)));
    lemma_sum_eq(n, |k: int| xs.at(i, k).s_mul(w_var.at(k, j)), a);
    lemma_sum_eq(n, |k: int| var.at(i, k).s_mul(ws.at(k, j)), b);
    let ab = |k: int| a(k).s_add(b(k));
    let abc = |k: int| ab(k).s_add(c(k));
    lemma_sum_add(n, a, b);
    lemma_sum_add(n, ab, c);
    lemma_sum_add(n, abc, d);
    let all = |k: int| abc(k).s_add(d(k));
    let want = |k: int|
        mean.at(i, k).s_mul(mean.at(i, k)).s_add(var.at(i, k)).s_mul(
            w_mean.at(k, j).s_mul(w_mean.at(k, j)).s_add(w_var.at(k, j)),
        );
    assert forall|k: int| 0 <= k < n implies #[trigger] all(k) == want(k) by {
        lemma_second_moment_product(
            mean.at(i, k).s_mul(mean.at(i, k)),
            var.at(i, k),
            w_mean.at(k, j).s_mul(w_mean.at(k, j)),
            w_var.at(k, j),
        );
    }
    lemma_sum_eq(n, all, want);
}

/// Residuals add up entry by entry: the means, and the variances of independent
/// parts; dependent parts add twice their covariance.
pub proof fn law_residual_entries<M: Model>(
    f: Format,
    a: Grid<M::Elem>,
    b: Grid<M::Elem>,
    c: Grid<M::Elem>,
    i: int,
    j: int,
)
    requires
        is_ring::<M::Elem>(),
        casts_nothing::<M>(f),
        a.dims() == b.dims(),
        a.dims() == c.dims(),
        a.has(i, j),
    ensures
        sums(a, b).dims() == a.dims(),
        sums(a, b).at(i, j) == a.at(i, j).s_add(b.at(i, j)),
        sums(sums(a, b), doubled::<M>(f, c)).dims() == a.dims(),
        sums(sums(a, b), doubled::<M>(f, c)).at(i, j) == a.at(i, j).s_add(b.at(i, j)).s_add(
            c.at(i, j).s_add(c.at(i, j)),
        ),
{
    broadcast use group_tables;

    let x = c.at(i, j);
    lemma_cast::<M>(f, M::Elem::s_int(2));
    ring_ints::<M::Elem>(1, 1);
    ring_dist(x, M::Elem::s_int(1), M::Elem::s_int(1));
    ring_units(x);
}

/// A covariance carried through an affine map of the right variable:
/// `c'[b][i][j] = sum_k c[b][i][k] w[k][j]`.
pub proof fn law_cross_linear_entries<M: Model>(
    c: Block<M::Elem>,
    w: Grid<M::Elem>,
    b: int,
    i: int,
    j: int,
)
    requires
        folds::<M>(),
        c.cols == w.rows,
        0 <= b < c.layers,
        0 <= i < c.rows,
        0 <= j < w.cols,
    ensures
        right_product::<M>(c, w).dims() == (c.layers, c.rows, w.cols),
        right_product::<M>(c, w).at(b, i, j) == sum_to(
            w.rows,
            |k: int| c.at(b, i, k).s_mul(w.at(k, j)),
        ),
{
    broadcast use group_tables;

    lemma_right_entry::<M>(c, w, b, i, j);
}

/// The covariance after an affine map, `W^T C W`, entry by entry:
/// `c'[b][i][j] = sum_k w[k][i] (sum_l c[b][k][l] w[l][j])`.
pub proof fn law_full_linear_entries<M: Model>(
    c: Block<M::Elem>,
    w: Grid<M::Elem>,
    b: int,
    i: int,
    j: int,
)
    requires
        folds::<M>(),
        c.rows == c.cols,
        c.cols == w.rows,
        0 <= b < c.layers,
        0 <= i < w.cols,
        0 <= j < w.cols,
    ensures
        left_product::<M>(w, right_product::<M>(c, w)).dims() == (c.layers, w.cols, w.cols),
        left_product::<M>(w, right_product::<M>(c, w)).at(b, i, j) == sum_to(
            w.rows,
            |k: int|
                w.at(k, i).s_mul(sum_to(w.rows, |l: int| c.at(b, k, l).s_mul(w.at(l, j)))),
        ),
{
    broadcast use group_tables;

    let right = right_product::<M>(c, w);
    lemma_left_entry::<M>(w, right, b, i, j);
    let x = |k: int| w.at(k, i).s_mul(right.at(b, k, j));
    let y = |k: int|
        w.at(k, i).s_mul(sum_to(w.rows, |l: int| c.at(b, k, l).s_mul(w.at(l, j))));
    assert forall|k: int| 0 <= k < w.rows implies #[trigger] x(k) == y(k) by {
        lemma_right_entry::<M>(c, w, b, k, j);
    }
    lemma_sum_eq(w.rows, x, y);
}

/// The products of the layers of two stacks, entry by entry.
pub proof fn law_layer_product_entries<M: Model>(
    a: Block<M::Elem>,
    c: Block<M::Elem>,
    b: int,
    i: int,
    j: int,
)
    requires
        folds::<M>(),
        a.layers == c.layers,
        a.cols == c.rows,
        0 <= b < a.layers,
        0 <= i < a.rows,
        0 <= j < c.cols,
    ensures
        layer_products::<M>(a, c).dims() == (a.layers, a.rows, c.cols),
        layer_products::<M>(a, c).at(b, i, j) == sum_to(
            c.rows,
            |k: int| a.at(b, i, k).s_mul(c.at(b, k, j)),
        ),
{
    broadcast use group_tables;

    let (x, y) = (a.layer(b).row(i), c.layer(b).col(j));
    lemma_folds::<M>(x, y);
    lemma_dot_sum(x, y, c.rows);
    lemma_sum_eq(
        c.rows,
        |k: int| x[k].s_mul(y[k]),
        |k: int| a.at(b, i, k).s_mul(c.at(b, k, j)),
    );
}

/// The covariance built from variances holds them on its diagonal and zeros off
/// it, and its variances are its diagonal.
pub proof fn law_diagonal_blocks<M: Model>(
    f: Format,
    var: Grid<M::Elem>,
    cov: Block<M::Elem>,
    b: int,
    i: int,
    j: int,
)
    requires
        is_exact::<M>(f),
        0 <= b < var.rows,
        0 <= i < var.cols,
        0 <= j < var.cols,
        cov.dims() == (var.rows, var.cols, var.cols),
    ensures
        diagonal_blocks::<M>(f, var).dims() == (var.rows, var.cols, var.cols),
        diagonal_blocks::<M>(f, var).at(b, i, i) == var.at(b, i),
        i != j ==> diagonal_blocks::<M>(f, var).at(b, i, j) == M::Elem::s_int(0),
        diagonals::<M>(f, cov).dims() == var.dims(),
        diagonals::<M>(f, cov).at(b, i) == cov.at(b, i, i),
{
    broadcast use group_tables;

    let v = var.at(b, i);
    lemma_cast::<M>(f, M::Elem::s_int(0));
    lemma_cast::<M>(f, M::Elem::s_int(1));
    ring_units(v);
    ring_zero(v);
    lemma_diagonal_entry::<M>(f, cov, b, i);
}

/// The entries of a bias are those of its vector, and no bias has none.
pub proof fn law_bias_entries<M: Model>(b: M::Vector, j: int)
    requires
        0 <= j < M::len(&b),
    ensures
        bias_of::<M>(None) is None,
        bias_of::<M>(Some(b)) is Some,
        bias_of::<M>(Some(b))->Some_0.len() == M::len(&b),
        bias_of::<M>(Some(b))->Some_0[j] == M::entry(&b, j),
{
}

} // verus!
