//! Tables and tensors, entry by entry.
use vstd::prelude::*;

use crate::backend::Model;
use crate::scalar::Scalar;

verus! {

use crate::backend::{block, grid, image, line, mask, mask3};
use crate::laws::sums::{lemma_dot_sum, lemma_total_sum, sum_to};
use crate::scalar::{dot, total};
use crate::tensor::{
    both, both3, both4, chosen, chosen3, each, each3, group_tables, Block, Grid, Volume,
};

/// A function of every entry stands in the place of the entry.
pub proof fn law_each_entry<E, F>(
    g: Grid<E>,
    c: Block<E>,
    f: spec_fn(E) -> F,
    b: int,
    i: int,
    j: int,
)
    requires
        g.has(i, j),
        c.has(b, i, j),
    ensures
        each(g, f).dims() == g.dims(),
        each(g, f).at(i, j) == f(g.at(i, j)),
        each3(c, f).dims() == c.dims(),
        each3(c, f).at(b, i, j) == f(c.at(b, i, j)),
{
    broadcast use group_tables;

}

/// A function of the entries in the same place of two tables stands in that
/// place.
pub proof fn law_entries_of_two<E, F, G>(
    g: Grid<E>,
    h: Grid<F>,
    f: spec_fn(E, F) -> G,
    i: int,
    j: int,
)
    requires
        g.has(i, j),
    ensures
        both(g, h, f).dims() == g.dims(),
        both(g, h, f).at(i, j) == f(g.at(i, j), h.at(i, j)),
{
    broadcast use group_tables;

}

/// The same for stacks and for four-dimensional tables.
pub proof fn law_entries_of_two_stacks<E, F, G>(
    c: Block<E>,
    d: Block<F>,
    x: Volume<E>,
    y: Volume<F>,
    f: spec_fn(E, F) -> G,
    n: int,
    b: int,
    i: int,
    j: int,
)
    requires
        c.has(b, i, j),
        x.has(n, b, i, j),
    ensures
        both3(c, d, f).dims() == c.dims(),
        both3(c, d, f).at(b, i, j) == f(c.at(b, i, j), d.at(b, i, j)),
        both4(x, y, f).dims() == x.dims(),
        both4(x, y, f).at(n, b, i, j) == f(x.at(n, b, i, j), y.at(n, b, i, j)),
{
    broadcast use group_tables;

}

/// A choice takes an entry from the second table where the mask holds, and from
/// the first elsewhere.
pub proof fn law_chosen_entries<E>(
    a: Grid<E>,
    k: Grid<bool>,
    b: Grid<E>,
    c: Block<E>,
    l: Block<bool>,
    d: Block<E>,
    n: int,
    i: int,
    j: int,
)
    requires
        a.has(i, j),
        c.has(n, i, j),
    ensures
        chosen(a, k, b).dims() == a.dims(),
        k.at(i, j) ==> chosen(a, k, b).at(i, j) == b.at(i, j),
        !k.at(i, j) ==> chosen(a, k, b).at(i, j) == a.at(i, j),
        chosen3(c, l, d).dims() == c.dims(),
        l.at(n, i, j) ==> chosen3(c, l, d).at(n, i, j) == d.at(n, i, j),
        !l.at(n, i, j) ==> chosen3(c, l, d).at(n, i, j) == c.at(n, i, j),
{
    broadcast use group_tables;

}

/// Rows, columns and layers hold the entries of their table.
pub proof fn law_rows_and_columns<E>(g: Grid<E>, c: Block<E>, b: int, i: int, j: int)
    requires
        g.has(i, j),
        c.has(b, i, j),
    ensures
        g.row(i).len() == g.cols,
        g.row(i)[j] == g.at(i, j),
        g.col(j).len() == g.rows,
        g.col(j)[i] == g.at(i, j),
        c.layer(b).dims() == (c.rows, c.cols),
        c.layer(b).at(i, j) == c.at(b, i, j),
{
    broadcast use group_tables;

}

/// The entries of a tensor as a table are those of the tensor.
pub proof fn law_tensor_entries<M: Model>(
    v: &M::Vector,
    m: &M::Matrix,
    c: &M::Cube,
    x: &M::Image,
    k: &M::Mask,
    l: &M::CubeMask,
)
    ensures
        line::<M>(v).len() == M::len(v),
        forall|i: int| 0 <= i < M::len(v) ==> #[trigger] line::<M>(v)[i] == M::entry(v, i),
        grid::<M>(m).dims() == M::size(m),
        forall|i: int, j: int|
            grid::<M>(m).has(i, j) ==> #[trigger] grid::<M>(m).at(i, j) == M::at(m, i, j),
        block::<M>(c).dims() == M::size3(c),
        forall|b: int, i: int, j: int|
            block::<M>(c).has(b, i, j) ==> #[trigger] block::<M>(c).at(b, i, j) == M::at3(
                c,
                b,
                i,
                j,
            ),
        image::<M>(x).dims() == M::size4(x),
        forall|n: int, b: int, i: int, j: int|
            image::<M>(x).has(n, b, i, j) ==> #[trigger] image::<M>(x).at(n, b, i, j) == M::at4(
                x,
                n,
                b,
                i,
                j,
            ),
        mask::<M>(k).dims() == M::mask_size(k),
        forall|i: int, j: int|
            mask::<M>(k).has(i, j) ==> #[trigger] mask::<M>(k).at(i, j) == M::on(k, i, j),
        mask3::<M>(l).dims() == M::mask_size3(l),
        forall|b: int, i: int, j: int|
            mask3::<M>(l).has(b, i, j) ==> #[trigger] mask3::<M>(l).at(b, i, j) == M::on3(
                l,
                b,
                i,
                j,
            ),
{
    broadcast use group_tables;

}

/// Inner products and totals are sums of all their terms.
pub proof fn law_inner_products<S: Scalar>(a: Seq<S>, b: Seq<S>, n: nat)
    ensures
        dot(a, b, n) == sum_to(n, |i: int| a[i].s_mul(b[i])),
        total(a, n) == sum_to(n, |i: int| a[i]),
{
    lemma_dot_sum(a, b, n);
    lemma_total_sum(a, n);
}

} // verus!
