//! Laws of propagation on batches of means and covariance matrices.
use vstd::prelude::*;

use crate::backend::Format;
use crate::scalar::Scalar;

verus! {

use crate::backend::{product, Model};
use crate::burn_sdp::diagonal::squares;
use crate::burn_sdp::full::{
    diagonal_blocks, diagonals, left_product, masked_row, right_product, unit,
};
use crate::laws::arithmetic::{
    is_ring, is_zero, mul_one, mul_zero, ring_mul_assoc, ring_mul_comm, ring_units, ring_zero, same,
    same_trans, zeros_same,
};
use crate::laws::sums::{
    lemma_dot_sum, lemma_sum_assoc, lemma_sum_eq, lemma_sum_single, lemma_total_sum, sum_to,
};
use crate::laws::tensors::{
    folds, is_exact, lemma_cast, lemma_folds, lemma_sum_of_one, lemma_units, tensor_neutral,
};
use crate::tensor::{group_tables, lemma_block_ext, lemma_grid_ext, Block, Grid};

/// An entry of the product of layers and a matrix, as a sum.
pub proof fn lemma_right_entry<M: Model>(
    c: Block<M::Elem>,
    w: Grid<M::Elem>,
    n: int,
    i: int,
    j: int,
)
    requires
        folds::<M>(),
        c.cols == w.rows,
        0 <= n < c.layers,
        0 <= i < c.rows,
        0 <= j < w.cols,
    ensures
        right_product::<M>(c, w).at(n, i, j) == sum_to(
            w.rows,
            |k: int| c.at(n, i, k).s_mul(w.at(k, j)),
        ),
{
    broadcast use group_tables;

    let a = c.layer(n).row(i);
    let b = w.col(j);
    lemma_folds::<M>(a, b);
    lemma_dot_sum(a, b, w.rows);
    lemma_sum_eq(
        w.rows,
        |k: int| a[k].s_mul(b[k]),
        |k: int| c.at(n, i, k).s_mul(w.at(k, j)),
    );
}

/// An entry of the product of a transposed matrix and layers, as a sum.
pub proof fn lemma_left_entry<M: Model>(
    w: Grid<M::Elem>,
    c: Block<M::Elem>,
    n: int,
    i: int,
    j: int,
)
    requires
        folds::<M>(),
        c.rows == w.rows,
        0 <= n < c.layers,
        0 <= i < w.cols,
        0 <= j < c.cols,
    ensures
        left_product::<M>(w, c).at(n, i, j) == sum_to(
            w.rows,
            |k: int| w.at(k, i).s_mul(c.at(n, k, j)),
        ),
{
    broadcast use group_tables;

    let a = w.col(i);
    let b = c.layer(n).col(j);
    lemma_folds::<M>(a, b);
    lemma_dot_sum(a, b, w.rows);
    lemma_sum_eq(
        w.rows,
        |k: int| a[k].s_mul(b[k]),
        |k: int| w.at(k, i).s_mul(c.at(n, k, j)),
    );
}

/// An entry of a matrix product, as a sum.
pub proof fn lemma_product_entry<M: Model>(a: Grid<M::Elem>, b: Grid<M::Elem>, i: int, j: int)
    requires
        folds::<M>(),
        a.cols == b.rows,
        0 <= i < a.rows,
        0 <= j < b.cols,
    ensures
        product::<M>(a, b).at(i, j) == sum_to(b.rows, |k: int| a.at(i, k).s_mul(b.at(k, j))),
{
    broadcast use group_tables;

    let x = a.row(i);
    let y = b.col(j);
    lemma_folds::<M>(x, y);
    lemma_dot_sum(x, y, b.rows);
    lemma_sum_eq(
        b.rows,
        |k: int| x[k].s_mul(y[k]),
        |k: int| a.at(i, k).s_mul(b.at(k, j)),
    );
}

/// A diagonal variance is read back from the covariance built from it.
pub proof fn law_variance_of_diagonal<M: Model>(f: Format, var: Grid<M::Elem>, b: int, i: int)
    requires
        tensor_neutral::<M>(f),
        var.has(b, i),
        var.at(b, i).s_finite(),
    ensures
        same(diagonals::<M>(f, diagonal_blocks::<M>(f, var)).at(b, i), var.at(b, i)),
{
    broadcast use group_tables;

    let cov = diagonal_blocks::<M>(f, var);
    let row = masked_row::<M>(f, cov, b, i);
    let v = var.at(b, i);
    lemma_units::<M>(f);
    assert forall|j: int| 0 <= j < row.len() && j != i implies is_zero(#[trigger] row[j]) by {
        let zero = unit::<M>(f, i, j);
        mul_zero(v, zero);
        zeros_same(v.s_mul(zero), v.s_mul(zero));
        mul_zero(v.s_mul(zero), zero);
    }
    lemma_sum_of_one::<M>(f, row, i);
    let one = unit::<M>(f, i, i);
    mul_one(v, one);
    mul_one(v.s_mul(one), one);
    same_trans(v.s_mul(one).s_mul(one), v.s_mul(one), v);
    same_trans(M::sum(row), row[i], v);
}

/// The variances read from a covariance are its diagonal, whatever stands off
/// it.
pub proof fn law_variance_is_diagonal<M: Model>(f: Format, cov: Block<M::Elem>, b: int, i: int)
    requires
        tensor_neutral::<M>(f),
        cov.rows == cov.cols,
        cov.has(b, i, i),
        forall|j: int| 0 <= j < cov.cols ==> (#[trigger] cov.at(b, i, j)).s_finite(),
    ensures
        same(diagonals::<M>(f, cov).at(b, i), cov.at(b, i, i)),
{
    broadcast use group_tables;

    let row = masked_row::<M>(f, cov, b, i);
    lemma_units::<M>(f);
    assert forall|j: int| 0 <= j < row.len() && j != i implies is_zero(#[trigger] row[j]) by {
        mul_zero(cov.at(b, i, j), unit::<M>(f, i, j));
    }
    lemma_sum_of_one::<M>(f, row, i);
    mul_one(cov.at(b, i, i), unit::<M>(f, i, i));
    same_trans(M::sum(row), row[i], cov.at(b, i, i));
}

/// In exact arithmetic the diagonal of a covariance is just that.
pub proof fn lemma_diagonal_entry<M: Model>(f: Format, cov: Block<M::Elem>, b: int, i: int)
    requires
        is_exact::<M>(f),
        0 <= b < cov.layers,
        0 <= i < cov.rows,
        cov.rows == cov.cols,
    ensures
        diagonals::<M>(f, cov).at(b, i) == cov.at(b, i, i),
{
    broadcast use group_tables;

    let row = masked_row::<M>(f, cov, b, i);
    lemma_folds::<M>(row, row);
    lemma_total_sum(row, cov.cols);
    let term = |j: int| row[j];
    assert forall|j: int| 0 <= j < cov.cols && j != i implies #[trigger] term(j)
        == M::Elem::s_int(0) by {
        lemma_cast::<M>(f, M::Elem::s_int(0));
        ring_zero(cov.at(b, i, j));
    }
    lemma_sum_single(cov.cols, term, i);
    lemma_cast::<M>(f, M::Elem::s_int(1));
    ring_units(cov.at(b, i, i));
}

/// For independent inputs, the variances that full-covariance affine
/// propagation gives are those of diagonal propagation.
pub proof fn law_full_variance_is_diagonal<M: Model>(
    f: Format,
    var: Grid<M::Elem>,
    weight: Grid<M::Elem>,
)
    requires
        is_exact::<M>(f),
        var.cols == weight.rows,
    ensures
        diagonals::<M>(
            f,
            left_product::<M>(
                weight,
                right_product::<M>(diagonal_blocks::<M>(f, var), weight),
            ),
        ) == product::<M>(var, squares(weight)),
{
    broadcast use group_tables;

    let start = diagonal_blocks::<M>(f, var);
    let right = right_product::<M>(start, weight);
    let cov = left_product::<M>(weight, right);
    let direct = product::<M>(var, squares(weight));
    let d = weight.rows;
    assert forall|b: int, j: int| direct.has(b, j) implies #[trigger] diagonals::<M>(f, cov).at(
        b,
        j,
    ) == direct.at(b, j) by {
        lemma_diagonal_entry::<M>(f, cov, b, j);
        lemma_left_entry::<M>(weight, right, b, j, j);
        lemma_product_entry::<M>(var, squares(weight), b, j);
        let x = |k: int| weight.at(k, j).s_mul(right.at(b, k, j));
        let y = |k: int| var.at(b, k).s_mul(squares(weight).at(k, j));
        assert forall|k: int| 0 <= k < d implies #[trigger] x(k) == y(k) by {
            let w = weight.at(k, j);
            let v = var.at(b, k);
            lemma_right_entry::<M>(start, weight, b, k, j);
            let term = |i: int| start.at(b, k, i).s_mul(weight.at(i, j));
            assert forall|i: int| 0 <= i < d && i != k implies #[trigger] term(i)
                == M::Elem::s_int(0) by {
                lemma_cast::<M>(f, M::Elem::s_int(0));
                ring_zero(v);
                ring_zero(weight.at(i, j));
            }
            lemma_sum_single(d, term, k);
            lemma_cast::<M>(f, M::Elem::s_int(1));
            ring_units(v);
            ring_mul_comm(w, v.s_mul(w));
            ring_mul_assoc(v, w, w);
        }
        lemma_sum_eq(d, x, y);
    }
    lemma_grid_ext(diagonals::<M>(f, cov), direct);
}

/// Carrying a covariance through two affine maps of the right variable is
/// carrying it through their product.
pub proof fn law_right_products_compose<M: Model>(
    c: Block<M::Elem>,
    first: Grid<M::Elem>,
    second: Grid<M::Elem>,
)
    requires
        is_ring::<M::Elem>(),
        folds::<M>(),
        c.cols == first.rows,
        first.cols == second.rows,
    ensures
        right_product::<M>(right_product::<M>(c, first), second) == right_product::<M>(
            c,
            product::<M>(first, second),
        ),
{
    broadcast use group_tables;

    let between = right_product::<M>(c, first);
    let whole = product::<M>(first, second);
    let left = right_product::<M>(between, second);
    let right = right_product::<M>(c, whole);
    assert forall|n: int, i: int, j: int| left.has(n, i, j) implies #[trigger] left.at(n, i, j)
        == right.at(n, i, j) by {
        lemma_right_entry::<M>(between, second, n, i, j);
        lemma_right_entry::<M>(c, whole, n, i, j);
        let a = |k: int| c.at(n, i, k);
        let b = |k: int, l: int| first.at(k, l);
        let z = |l: int| second.at(l, j);
        lemma_sum_assoc(first.rows, second.rows, a, b, z);
        let p = |l: int| between.at(n, i, l).s_mul(second.at(l, j));
        let q = |l: int| sum_to(first.rows, |k: int| a(k).s_mul(b(k, l))).s_mul(z(l));
        assert forall|l: int| 0 <= l < second.rows implies #[trigger] p(l) == q(l) by {
            lemma_right_entry::<M>(c, first, n, i, l);
            lemma_sum_eq(
                first.rows,
                |k: int| c.at(n, i, k).s_mul(first.at(k, l)),
                |k: int| a(k).s_mul(b(k, l)),
            );
        }
        lemma_sum_eq(second.rows, p, q);
        let r = |k: int| a(k).s_mul(sum_to(second.rows, |l: int| b(k, l).s_mul(z(l))));
        let s = |k: int| c.at(n, i, k).s_mul(whole.at(k, j));
        assert forall|k: int| 0 <= k < first.rows implies #[trigger] r(k) == s(k) by {
            lemma_product_entry::<M>(first, second, k, j);
            lemma_sum_eq(
                second.rows,
                |l: int| first.at(k, l).s_mul(second.at(l, j)),
                |l: int| b(k, l).s_mul(z(l)),
            );
        }
        lemma_sum_eq(first.rows, r, s);
    }
    lemma_block_ext(left, right);
}

/// The same for the left variable.
proof fn lemma_left_products_compose<M: Model>(
    c: Block<M::Elem>,
    first: Grid<M::Elem>,
    second: Grid<M::Elem>,
)
    requires
        is_ring::<M::Elem>(),
        folds::<M>(),
        c.rows == first.rows,
        first.cols == second.rows,
    ensures
        left_product::<M>(second, left_product::<M>(first, c)) == left_product::<M>(
            product::<M>(first, second),
            c,
        ),
{
    broadcast use group_tables;

    let between = left_product::<M>(first, c);
    let whole = product::<M>(first, second);
    let left = left_product::<M>(second, between);
    let right = left_product::<M>(whole, c);
    assert forall|n: int, i: int, j: int| left.has(n, i, j) implies #[trigger] left.at(n, i, j)
        == right.at(n, i, j) by {
        lemma_left_entry::<M>(second, between, n, i, j);
        lemma_left_entry::<M>(whole, c, n, i, j);
        let a = |l: int| second.at(l, i);
        let b = |l: int, k: int| first.at(k, l);
        let z = |k: int| c.at(n, k, j);
        lemma_sum_assoc(second.rows, first.rows, a, b, z);
        let p = |l: int| second.at(l, i).s_mul(between.at(n, l, j));
        let q = |l: int| a(l).s_mul(sum_to(first.rows, |k: int| b(l, k).s_mul(z(k))));
        assert forall|l: int| 0 <= l < second.rows implies #[trigger] p(l) == q(l) by {
            lemma_left_entry::<M>(first, c, n, l, j);
            lemma_sum_eq(
                first.rows,
                |k: int| first.at(k, l).s_mul(c.at(n, k, j)),
                |k: int| b(l, k).s_mul(z(k)),
            );
        }
        lemma_sum_eq(second.rows, p, q);
        let r = |k: int| sum_to(second.rows, |l: int| a(l).s_mul(b(l, k))).s_mul(z(k));
        let s = |k: int| whole.at(k, i).s_mul(c.at(n, k, j));
        assert forall|k: int| 0 <= k < first.rows implies #[trigger] r(k) == s(k) by {
            lemma_product_entry::<M>(first, second, k, i);
            let x = |l: int| a(l).s_mul(b(l, k));
            let y = |l: int| first.at(k, l).s_mul(second.at(l, i));
            assert forall|l: int| 0 <= l < second.rows implies #[trigger] x(l) == y(l) by {
                ring_mul_comm(second.at(l, i), first.at(k, l));
            }
            lemma_sum_eq(second.rows, x, y);
        }
        lemma_sum_eq(first.rows, r, s);
    }
    lemma_block_ext(left, right);
}

/// Left and right products may be taken in either order.
proof fn lemma_sides_exchange<M: Model>(u: Grid<M::Elem>, c: Block<M::Elem>, w: Grid<M::Elem>)
    requires
        is_ring::<M::Elem>(),
        folds::<M>(),
        c.rows == u.rows,
        c.cols == w.rows,
    ensures
        left_product::<M>(u, right_product::<M>(c, w)) == right_product::<M>(
            left_product::<M>(u, c),
            w,
        ),
{
    broadcast use group_tables;

    let rc = right_product::<M>(c, w);
    let lc = left_product::<M>(u, c);
    let left = left_product::<M>(u, rc);
    let right = right_product::<M>(lc, w);
    assert forall|n: int, i: int, j: int| left.has(n, i, j) implies #[trigger] left.at(n, i, j)
        == right.at(n, i, j) by {
        lemma_left_entry::<M>(u, rc, n, i, j);
        lemma_right_entry::<M>(lc, w, n, i, j);
        let a = |k: int| u.at(k, i);
        let b = |k: int, l: int| c.at(n, k, l);
        let z = |l: int| w.at(l, j);
        lemma_sum_assoc(u.rows, w.rows, a, b, z);
        let p = |k: int| u.at(k, i).s_mul(rc.at(n, k, j));
        let q = |k: int| a(k).s_mul(sum_to(w.rows, |l: int| b(k, l).s_mul(z(l))));
        assert forall|k: int| 0 <= k < u.rows implies #[trigger] p(k) == q(k) by {
            lemma_right_entry::<M>(c, w, n, k, j);
            lemma_sum_eq(
                w.rows,
                |l: int| c.at(n, k, l).s_mul(w.at(l, j)),
                |l: int| b(k, l).s_mul(z(l)),
            );
        }
        lemma_sum_eq(u.rows, p, q);
        let r = |l: int| sum_to(u.rows, |k: int| a(k).s_mul(b(k, l))).s_mul(z(l));
        let s = |l: int| lc.at(n, i, l).s_mul(w.at(l, j));
        assert forall|l: int| 0 <= l < w.rows implies #[trigger] r(l) == s(l) by {
            lemma_left_entry::<M>(u, c, n, i, l);
            lemma_sum_eq(
                u.rows,
                |k: int| u.at(k, i).s_mul(c.at(n, k, l)),
                |k: int| a(k).s_mul(b(k, l)),
            );
        }
        lemma_sum_eq(w.rows, r, s);
    }
    lemma_block_ext(left, right);
}

/// The covariance after an affine map, `W^T cov W`.
pub open spec fn mapped<M: Model>(c: Block<M::Elem>, w: Grid<M::Elem>) -> Block<M::Elem> {
    left_product::<M>(w, right_product::<M>(c, w))
}

/// The covariance after two affine maps is that after their product.
pub proof fn law_full_linear_composes<M: Model>(
    c: Block<M::Elem>,
    first: Grid<M::Elem>,
    second: Grid<M::Elem>,
)
    requires
        is_ring::<M::Elem>(),
        folds::<M>(),
        c.rows == c.cols,
        c.cols == first.rows,
        first.cols == second.rows,
    ensures
        mapped::<M>(mapped::<M>(c, first), second) == mapped::<M>(
            c,
            product::<M>(first, second),
        ),
{
    broadcast use group_tables;

    let whole = product::<M>(first, second);
    let inner = right_product::<M>(c, first);
    lemma_sides_exchange::<M>(first, inner, second);
    lemma_left_products_compose::<M>(right_product::<M>(inner, second), first, second);
    law_right_products_compose::<M>(c, first, second);
}

/// Whether every layer equals its transpose.
pub open spec fn is_symmetric3<E>(c: Block<E>) -> bool {
    &&& c.rows == c.cols
    &&& forall|n: int, i: int, j: int|
        c.has(n, i, j) ==> #[trigger] c.at(n, i, j) == c.at(n, j, i)
}

/// Affine maps keep covariance symmetric.
pub proof fn law_full_linear_keeps_symmetry<M: Model>(c: Block<M::Elem>, w: Grid<M::Elem>)
    requires
        is_ring::<M::Elem>(),
        folds::<M>(),
        c.cols == w.rows,
        is_symmetric3(c),
    ensures
        is_symmetric3(mapped::<M>(c, w)),
{
    broadcast use group_tables;

    let out = mapped::<M>(c, w);
    let right = right_product::<M>(c, w);
    let left = left_product::<M>(w, c);
    lemma_sides_exchange::<M>(w, c, w);
    assert forall|n: int, i: int, j: int| out.has(n, i, j) implies #[trigger] out.at(n, i, j)
        == out.at(n, j, i) by {
        lemma_left_entry::<M>(w, right, n, i, j);
        lemma_right_entry::<M>(left, w, n, j, i);
        let p = |k: int| w.at(k, i).s_mul(right.at(n, k, j));
        let q = |k: int| left.at(n, j, k).s_mul(w.at(k, i));
        assert forall|k: int| 0 <= k < w.rows implies #[trigger] p(k) == q(k) by {
            lemma_right_entry::<M>(c, w, n, k, j);
            lemma_left_entry::<M>(w, c, n, j, k);
            let x = |l: int| c.at(n, k, l).s_mul(w.at(l, j));
            let y = |l: int| w.at(l, j).s_mul(c.at(n, l, k));
            assert forall|l: int| 0 <= l < w.rows implies #[trigger] x(l) == y(l) by {
                assert(c.at(n, k, l) == c.at(n, l, k));
                ring_mul_comm(c.at(n, k, l), w.at(l, j));
            }
            lemma_sum_eq(w.rows, x, y);
            ring_mul_comm(w.at(k, i), right.at(n, k, j));
        }
        lemma_sum_eq(w.rows, p, q);
    }
}

} // verus!
