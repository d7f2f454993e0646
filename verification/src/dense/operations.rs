//! The operations of the backend of plain vectors.
use vstd::prelude::*;

use crate::backend::{Backend, ConvOptions, Format, Model};
use crate::dense::cells::{batch, plane, solid, Plane, Solid};
use crate::dense::convolution::{count_positions, kernel_vector, window_vector};
use crate::dense::{Dense, DenseCube, DenseImage, DenseMatrix, DenseVector};
use crate::gaussian::clamp;
use crate::scalar::{inner_product, Scalar};

verus! {

use crate::backend::{
    block, conv_fits, conv_size, convolved, grid, image, layer_products, line, lowered, mask, mask3,
    plus_channels, plus_rows, product, raised, sign_of,
};
use crate::dense::convolution::{conv_entry, lemma_row_major};
use crate::gaussian::clamped;
use crate::scalar::{dot, total};
use crate::tensor::{
    both, both3, both4, chosen, chosen3, each, each3, group_tables, lemma_block_ext, lemma_grid_ext,
    lemma_volume_ext, stack, table,
};

/// The matrix of what `f` returns for each entry.
fn entrywise<S: Scalar, F: Fn(S) -> S>(
    m: &DenseMatrix<S>,
    f: &F,
    Ghost(g): Ghost<spec_fn(S) -> S>,
) -> (r: DenseMatrix<S>)
    requires
        forall|x: S| call_requires(*f, (x,)),
        forall|x: S, y: S| call_ensures(*f, (x,), y) ==> y == g(x),
    ensures
        r.format == m.format,
        grid::<Dense<S>>(&r) == each(grid::<Dense<S>>(m), g),
{
    broadcast use group_tables;

    let r = DenseMatrix { format: m.format, entries: m.entries.map(f) };
    proof {
        lemma_grid_ext(grid::<Dense<S>>(&r), each(grid::<Dense<S>>(m), g));
    }
    r
}

/// The matrix of what `f` returns for each pair of entries.
fn pairwise<S: Scalar, F: Fn(S, S) -> S>(
    a: &DenseMatrix<S>,
    b: &DenseMatrix<S>,
    f: &F,
    Ghost(g): Ghost<spec_fn(S, S) -> S>,
) -> (r: DenseMatrix<S>)
    requires
        a.entries.size() == b.entries.size(),
        forall|x: S, y: S| call_requires(*f, (x, y)),
        forall|x: S, y: S, z: S| call_ensures(*f, (x, y), z) ==> z == g(x, y),
    ensures
        r.format == a.format,
        grid::<Dense<S>>(&r) == both(grid::<Dense<S>>(a), grid::<Dense<S>>(b), g),
{
    broadcast use group_tables;

    let r = DenseMatrix { format: a.format, entries: a.entries.zip(&b.entries, f) };
    proof {
        lemma_grid_ext(
            grid::<Dense<S>>(&r),
            both(grid::<Dense<S>>(a), grid::<Dense<S>>(b), g),
        );
    }
    r
}

/// Where `f` holds of the entries.
fn marks<S: Scalar, F: Fn(S) -> bool>(
    m: &DenseMatrix<S>,
    f: &F,
    Ghost(g): Ghost<spec_fn(S) -> bool>,
) -> (r: Plane<bool>)
    requires
        forall|x: S| call_requires(*f, (x,)),
        forall|x: S, y: bool| call_ensures(*f, (x,), y) ==> y == g(x),
    ensures
        mask::<Dense<S>>(&r) == each(grid::<Dense<S>>(m), g),
{
    broadcast use group_tables;

    let r = m.entries.map(f);
    proof {
        lemma_grid_ext(mask::<Dense<S>>(&r), each(grid::<Dense<S>>(m), g));
    }
    r
}

/// Where `f` holds of the pairs of entries.
fn pair_marks<S: Scalar, F: Fn(S, S) -> bool>(
    a: &DenseMatrix<S>,
    b: &DenseMatrix<S>,
    f: &F,
    Ghost(g): Ghost<spec_fn(S, S) -> bool>,
) -> (r: Plane<bool>)
    requires
        a.entries.size() == b.entries.size(),
        forall|x: S, y: S| call_requires(*f, (x, y)),
        forall|x: S, y: S, z: bool| call_ensures(*f, (x, y), z) ==> z == g(x, y),
    ensures
        mask::<Dense<S>>(&r) == both(grid::<Dense<S>>(a), grid::<Dense<S>>(b), g),
{
    broadcast use group_tables;

    let r = a.entries.zip(&b.entries, f);
    proof {
        lemma_grid_ext(
            mask::<Dense<S>>(&r),
            both(grid::<Dense<S>>(a), grid::<Dense<S>>(b), g),
        );
    }
    r
}

/// The tensor of what `f` returns for each entry.
fn entrywise3<S: Scalar, F: Fn(S) -> S>(
    c: &DenseCube<S>,
    f: &F,
    Ghost(g): Ghost<spec_fn(S) -> S>,
) -> (r: DenseCube<S>)
    requires
        forall|x: S| call_requires(*f, (x,)),
        forall|x: S, y: S| call_ensures(*f, (x,), y) ==> y == g(x),
    ensures
        r.format == c.format,
        block::<Dense<S>>(&r) == each3(block::<Dense<S>>(c), g),
{
    broadcast use group_tables;

    let r = DenseCube { format: c.format, entries: c.entries.map(f) };
    proof {
        lemma_block_ext(block::<Dense<S>>(&r), each3(block::<Dense<S>>(c), g));
    }
    r
}

/// The tensor of what `f` returns for each pair of entries.
fn pairwise3<S: Scalar, F: Fn(S, S) -> S>(
    a: &DenseCube<S>,
    b: &DenseCube<S>,
    f: &F,
    Ghost(g): Ghost<spec_fn(S, S) -> S>,
) -> (r: DenseCube<S>)
    requires
        a.entries.size() == b.entries.size(),
        forall|x: S, y: S| call_requires(*f, (x, y)),
        forall|x: S, y: S, z: S| call_ensures(*f, (x, y), z) ==> z == g(x, y),
    ensures
        r.format == a.format,
        block::<Dense<S>>(&r) == both3(block::<Dense<S>>(a), block::<Dense<S>>(b), g),
{
    broadcast use group_tables;

    let r = DenseCube { format: a.format, entries: a.entries.zip(&b.entries, f) };
    proof {
        lemma_block_ext(
            block::<Dense<S>>(&r),
            both3(block::<Dense<S>>(a), block::<Dense<S>>(b), g),
        );
    }
    r
}

impl<S: Scalar> Backend for Dense<S> {
    fn length(v: &DenseVector<S>) -> (r: usize) {
        v.entries.len()
    }

    fn format_of_vector(v: &DenseVector<S>) -> (r: Format) {
        v.format
    }

    fn dims(m: &DenseMatrix<S>) -> (r: (usize, usize)) {
        m.entries.dims()
    }

    fn format_of(m: &DenseMatrix<S>) -> (r: Format) {
        m.format
    }

    fn dims3(c: &DenseCube<S>) -> (r: (usize, usize, usize)) {
        c.entries.dims()
    }

    fn format_of3(c: &DenseCube<S>) -> (r: Format) {
        c.format
    }

    fn dims4(x: &DenseImage<S>) -> (r: (usize, usize, usize, usize)) {
        x.entries.dims()
    }

    fn format_of4(x: &DenseImage<S>) -> (r: Format) {
        x.format
    }

    fn narrowed(f: Format, value: S) -> (r: S) {
        value.narrowed(f)
    }

    fn largest_finite(f: Format) -> (r: S) {
        S::largest(f)
    }

    fn matrix_like(entries: Vec<S>, rows: usize, cols: usize, like: &DenseMatrix<S>) -> (r:
        DenseMatrix<S>) {
        broadcast use group_tables;

        let f = |i: usize, j: usize| -> (y: S)
            requires
                i < rows,
                j < cols,
                entries@.len() == rows * cols,
            ensures
                y == entries@[i * cols + j].s_cast(like.format),
        {
            let count: usize = entries.len();
            assert(count == rows * cols);
            proof {
                lemma_row_major(i as int, j as int, rows as int, cols as int);
            }
            entries[i * cols + j].narrowed(like.format)
        };
        let cells = plane(rows, cols, f);
        let r = DenseMatrix { format: like.format, entries: cells };
        proof {
            lemma_grid_ext(
                grid::<Self>(&r),
                table(
                    rows as nat,
                    cols as nat,
                    |i: int, j: int| Self::cast(Self::format(like), entries@[i * cols + j]),
                ),
            );
        }
        r
    }

    fn matmul(a: &DenseMatrix<S>, b: &DenseMatrix<S>) -> (r: DenseMatrix<S>) {
        broadcast use group_tables;

        let (rows, shared) = a.entries.dims();
        let (_, cols) = b.entries.dims();
        let f = |i: usize, j: usize| -> (y: S)
            requires
                i < rows,
                j < cols,
                a.entries.size() == (rows as nat, shared as nat),
                b.entries.size() == (shared as nat, cols as nat),
            ensures
                y == dot(
                    Seq::new(shared as nat, |k: int| a.entries.cell(i as int, k)),
                    Seq::new(shared as nat, |k: int| b.entries.cell(k, j as int)),
                    shared as nat,
                ),
        {
            let mut row: Vec<S> = Vec::new();
            let mut col: Vec<S> = Vec::new();
            let mut k: usize = 0;
            while k < shared
                invariant
                    k <= shared,
                    i < rows,
                    j < cols,
                    a.entries.size() == (rows as nat, shared as nat),
                    b.entries.size() == (shared as nat, cols as nat),
                    row@.len() == k,
                    col@.len() == k,
                    forall|q: int|
                        0 <= q < k ==> #[trigger] row@[q] == a.entries.cell(i as int, q),
                    forall|q: int|
                        0 <= q < k ==> #[trigger] col@[q] == b.entries.cell(q, j as int),
                decreases shared - k,
            {
                row.push(a.entries.get(i, k));
                col.push(b.entries.get(k, j));
                k += 1;
            }
            assert(row@ =~= Seq::new(
                shared as nat,
                |k: int| a.entries.cell(i as int, k),
            ));
            assert(col@ =~= Seq::new(
                shared as nat,
                |k: int| b.entries.cell(k, j as int),
            ));
            inner_product(&row, &col)
        };
        let cells = plane(rows, cols, f);
        let r = DenseMatrix { format: a.format, entries: cells };
        proof {
            let want = product::<Self>(grid::<Self>(a), grid::<Self>(b));
            assert forall|i: int, j: int| want.has(i, j) implies #[trigger] grid::<Self>(&r).at(
                i,
                j,
            ) == want.at(i, j) by {
                assert(r.entries.cell(i as usize as int, j as usize as int) == r.entries.cell(
                    i,
                    j,
                ));
                assert(grid::<Self>(a).row(i) =~= Seq::new(
                    shared as nat,
                    |k: int| a.entries.cell(i, k),
                ));
                assert(grid::<Self>(b).col(j) =~= Seq::new(
                    shared as nat,
                    |k: int| b.entries.cell(k, j),
                ));
            }
            lemma_grid_ext(grid::<Self>(&r), want);
        }
        r
    }

    fn transposed(m: &DenseMatrix<S>) -> (r: DenseMatrix<S>) {
        broadcast use group_tables;

        let (rows, cols) = m.entries.dims();
        let f = |i: usize, j: usize| -> (y: S)
            requires
                i < cols,
                j < rows,
                m.entries.size() == (rows as nat, cols as nat),
            ensures
                y == m.entries.cell(j as int, i as int),
        {
            m.entries.get(j, i)
        };
        let cells = plane(cols, rows, f);
        let r = DenseMatrix { format: m.format, entries: cells };
        proof {
            lemma_grid_ext(
                grid::<Self>(&r),
                table(
                    Self::size(m).1,
                    Self::size(m).0,
                    |i: int, j: int| grid::<Self>(m).at(j, i),
                ),
            );
        }
        r
    }

    fn plus_row(m: &DenseMatrix<S>, v: &DenseVector<S>) -> (r: DenseMatrix<S>) {
        broadcast use group_tables;

        let (rows, cols) = m.entries.dims();
        let f = |i: usize, j: usize| -> (y: S)
            requires
                i < rows,
                j < cols,
                m.entries.size() == (rows as nat, cols as nat),
                v.entries@.len() == cols,
            ensures
                y == m.entries.cell(i as int, j as int).s_add(v.entries@[j as int]),
        {
            m.entries.get(i, j).plus(v.entries[j])
        };
        let cells = plane(rows, cols, f);
        let r = DenseMatrix { format: m.format, entries: cells };
        proof {
            lemma_grid_ext(grid::<Self>(&r), plus_rows(grid::<Self>(m), line::<Self>(v)));
        }
        r
    }

    fn plus(a: &DenseMatrix<S>, b: &DenseMatrix<S>) -> (r: DenseMatrix<S>) {
        let f = |x: S, y: S| -> (z: S)
            ensures
                z == x.s_add(y),
        {
            x.plus(y)
        };
        pairwise(a, b, &f, Ghost(|x: S, y: S| x.s_add(y)))
    }

    fn minus(a: &DenseMatrix<S>, b: &DenseMatrix<S>) -> (r: DenseMatrix<S>) {
        let f = |x: S, y: S| -> (z: S)
            ensures
                z == x.s_sub(y),
        {
            x.minus(y)
        };
        pairwise(a, b, &f, Ghost(|x: S, y: S| x.s_sub(y)))
    }

    fn times(a: &DenseMatrix<S>, b: &DenseMatrix<S>) -> (r: DenseMatrix<S>) {
        let f = |x: S, y: S| -> (z: S)
            ensures
                z == x.s_mul(y),
        {
            x.times(y)
        };
        pairwise(a, b, &f, Ghost(|x: S, y: S| x.s_mul(y)))
    }

    fn over(a: &DenseMatrix<S>, b: &DenseMatrix<S>) -> (r: DenseMatrix<S>) {
        let f = |x: S, y: S| -> (z: S)
            ensures
                z == x.s_div(y),
        {
            x.over(y)
        };
        pairwise(a, b, &f, Ghost(|x: S, y: S| x.s_div(y)))
    }

    fn negated(m: &DenseMatrix<S>) -> (r: DenseMatrix<S>) {
        let f = |x: S| -> (z: S)
            ensures
                z == x.s_neg(),
        {
            x.negated()
        };
        entrywise(m, &f, Ghost(|x: S| x.s_neg()))
    }

    fn reciprocal(m: &DenseMatrix<S>) -> (r: DenseMatrix<S>) {
        let one = S::whole(1).narrowed(m.format);
        let f = |x: S| -> (z: S)
            ensures
                z == one.s_div(x),
        {
            one.over(x)
        };
        entrywise(m, &f, Ghost(|x: S| one.s_div(x)))
    }

    fn root(m: &DenseMatrix<S>) -> (r: DenseMatrix<S>) {
        let f = |x: S| -> (z: S)
            ensures
                z == x.s_sqrt(),
        {
            x.root()
        };
        entrywise(m, &f, Ghost(|x: S| x.s_sqrt()))
    }

    fn exponential(m: &DenseMatrix<S>) -> (r: DenseMatrix<S>) {
        let f = |x: S| -> (z: S)
            ensures
                z == x.s_exp(),
        {
            x.exponential()
        };
        entrywise(m, &f, Ghost(|x: S| x.s_exp()))
    }

    fn error_function(m: &DenseMatrix<S>) -> (r: DenseMatrix<S>) {
        let f = |x: S| -> (z: S)
            ensures
                z == x.s_erf(),
        {
            x.error_function()
        };
        entrywise(m, &f, Ghost(|x: S| x.s_erf()))
    }

    fn magnitude(m: &DenseMatrix<S>) -> (r: DenseMatrix<S>) {
        let f = |x: S| -> (z: S)
            ensures
                z == x.s_abs(),
        {
            x.magnitude()
        };
        entrywise(m, &f, Ghost(|x: S| x.s_abs()))
    }

    fn sign(m: &DenseMatrix<S>) -> (r: DenseMatrix<S>) {
        let zero = S::whole(0).narrowed(m.format);
        let one = S::whole(1).narrowed(m.format);
        let less = S::whole(-1).narrowed(m.format);
        let f = |x: S| -> (z: S)
            ensures
                z == if x.s_eq(zero) {
                    zero
                } else if zero.s_lt(x) {
                    one
                } else {
                    less
                },
        {
            if x.equals(zero) {
                zero
            } else if zero.less(x) {
                one
            } else {
                less
            }
        };
        entrywise(m, &f, Ghost(|x: S| sign_of::<Self>(m.format, x)))
    }

    fn scaled(m: &DenseMatrix<S>, s: S) -> (r: DenseMatrix<S>) {
        let s = s.narrowed(m.format);
        let f = |x: S| -> (z: S)
            ensures
                z == x.s_mul(s),
        {
            x.times(s)
        };
        entrywise(m, &f, Ghost(|x: S| x.s_mul(s)))
    }

    fn shifted(m: &DenseMatrix<S>, s: S) -> (r: DenseMatrix<S>) {
        let s = s.narrowed(m.format);
        let f = |x: S| -> (z: S)
            ensures
                z == x.s_add(s),
        {
            x.plus(s)
        };
        entrywise(m, &f, Ghost(|x: S| x.s_add(s)))
    }

    fn raised_to(m: &DenseMatrix<S>, s: S) -> (r: DenseMatrix<S>) {
        let s = s.narrowed(m.format);
        let f = |x: S| -> (z: S)
            ensures
                z == raised(x, s),
        {
            if x.less(s) {
                s
            } else {
                x
            }
        };
        entrywise(m, &f, Ghost(|x: S| raised(x, s)))
    }

    fn lowered_to(m: &DenseMatrix<S>, s: S) -> (r: DenseMatrix<S>) {
        let s = s.narrowed(m.format);
        let f = |x: S| -> (z: S)
            ensures
                z == lowered(x, s),
        {
            if s.less(x) {
                s
            } else {
                x
            }
        };
        entrywise(m, &f, Ghost(|x: S| lowered(x, s)))
    }

    fn exceeds(a: &DenseMatrix<S>, b: &DenseMatrix<S>) -> (r: Plane<bool>) {
        let f = |x: S, y: S| -> (z: bool)
            ensures
                z == y.s_lt(x),
        {
            y.less(x)
        };
        pair_marks(a, b, &f, Ghost(|x: S, y: S| y.s_lt(x)))
    }

    fn falls_below(a: &DenseMatrix<S>, b: &DenseMatrix<S>) -> (r: Plane<bool>) {
        let f = |x: S, y: S| -> (z: bool)
            ensures
                z == x.s_lt(y),
        {
            x.less(y)
        };
        pair_marks(a, b, &f, Ghost(|x: S, y: S| x.s_lt(y)))
    }

    fn is_below(m: &DenseMatrix<S>, s: S) -> (r: Plane<bool>) {
        let s = s.narrowed(m.format);
        let f = |x: S| -> (z: bool)
            ensures
                z == x.s_lt(s),
        {
            x.less(s)
        };
        marks(m, &f, Ghost(|x: S| x.s_lt(s)))
    }

    fn is_at_most(m: &DenseMatrix<S>, s: S) -> (r: Plane<bool>) {
        let s = s.narrowed(m.format);
        let f = |x: S| -> (z: bool)
            ensures
                z == x.s_le(s),
        {
            x.at_most(s)
        };
        marks(m, &f, Ghost(|x: S| x.s_le(s)))
    }

    fn is_at_least(m: &DenseMatrix<S>, s: S) -> (r: Plane<bool>) {
        let s = s.narrowed(m.format);
        let f = |x: S| -> (z: bool)
            ensures
                z == s.s_le(x),
        {
            s.at_most(x)
        };
        marks(m, &f, Ghost(|x: S| s.s_le(x)))
    }

    fn either(a: &Plane<bool>, b: &Plane<bool>) -> (r: Plane<bool>) {
        broadcast use group_tables;

        let (rows, cols) = a.dims();
        let f = |i: usize, j: usize| -> (z: bool)
            requires
                i < rows,
                j < cols,
                a.size() == (rows as nat, cols as nat),
                b.size() == (rows as nat, cols as nat),
            ensures
                z == (a.cell(i as int, j as int) || b.cell(i as int, j as int)),
        {
            a.get(i, j) || b.get(i, j)
        };
        let r = plane(rows, cols, f);
        proof {
            lemma_grid_ext(
                mask::<Self>(&r),
                both(mask::<Self>(a), mask::<Self>(b), |x: bool, y: bool| x || y),
            );
        }
        r
    }

    fn select(a: &DenseMatrix<S>, k: &Plane<bool>, b: &DenseMatrix<S>) -> (r: DenseMatrix<S>) {
        broadcast use group_tables;

        let (rows, cols) = a.entries.dims();
        let f = |i: usize, j: usize| -> (y: S)
            requires
                i < rows,
                j < cols,
                a.entries.size() == (rows as nat, cols as nat),
                b.entries.size() == (rows as nat, cols as nat),
                k.size() == (rows as nat, cols as nat),
            ensures
                y == if k.cell(i as int, j as int) {
                    b.entries.cell(i as int, j as int)
                } else {
                    a.entries.cell(i as int, j as int)
                },
        {
            if k.get(i, j) {
                b.entries.get(i, j)
            } else {
                a.entries.get(i, j)
            }
        };
        let cells = plane(rows, cols, f);
        let r = DenseMatrix { format: a.format, entries: cells };
        proof {
            lemma_grid_ext(
                grid::<Self>(&r),
                chosen(grid::<Self>(a), mask::<Self>(k), grid::<Self>(b)),
            );
        }
        r
    }

    fn fill(m: &DenseMatrix<S>, k: &Plane<bool>, s: S) -> (r: DenseMatrix<S>) {
        broadcast use group_tables;

        let s = s.narrowed(m.format);
        let (rows, cols) = m.entries.dims();
        let f = |i: usize, j: usize| -> (y: S)
            requires
                i < rows,
                j < cols,
                m.entries.size() == (rows as nat, cols as nat),
                k.size() == (rows as nat, cols as nat),
            ensures
                y == if k.cell(i as int, j as int) {
                    s
                } else {
                    m.entries.cell(i as int, j as int)
                },
        {
            if k.get(i, j) {
                s
            } else {
                m.entries.get(i, j)
            }
        };
        let cells = plane(rows, cols, f);
        let r = DenseMatrix { format: m.format, entries: cells };
        proof {
            lemma_grid_ext(
                grid::<Self>(&r),
                both(
                    grid::<Self>(m),
                    mask::<Self>(k),
                    |x: S, on: bool|
                        if on {
                            s
                        } else {
                            x
                        },
                ),
            );
        }
        r
    }

    fn repeated(m: &DenseMatrix<S>, layers: usize) -> (r: DenseCube<S>) {
        broadcast use group_tables;

        let (rows, cols) = m.entries.dims();
        let f = |b: usize, i: usize, j: usize| -> (y: S)
            requires
                i < rows,
                j < cols,
                m.entries.size() == (rows as nat, cols as nat),
            ensures
                y == m.entries.cell(i as int, j as int),
        {
            m.entries.get(i, j)
        };
        let cells = solid(layers, rows, cols, f);
        let r = DenseCube { format: m.format, entries: cells };
        proof {
            lemma_block_ext(
                block::<Self>(&r),
                stack(
                    layers as nat, rows as nat, cols as nat,
                    |b: int, i: int, j: int| grid::<Self>(m).at(i, j),
                ),
            );
        }
        r
    }

    fn across(m: &DenseMatrix<S>, cols: usize) -> (r: DenseCube<S>) {
        broadcast use group_tables;

        let (layers, rows) = m.entries.dims();
        let f = |b: usize, i: usize, j: usize| -> (y: S)
            requires
                b < layers,
                i < rows,
                m.entries.size() == (layers as nat, rows as nat),
            ensures
                y == m.entries.cell(b as int, i as int),
        {
            m.entries.get(b, i)
        };
        let cells = solid(layers, rows, cols, f);
        let r = DenseCube { format: m.format, entries: cells };
        proof {
            lemma_block_ext(
                block::<Self>(&r),
                stack(
                    layers as nat, rows as nat, cols as nat,
                    |b: int, i: int, j: int| grid::<Self>(m).at(b, i),
                ),
            );
        }
        r
    }

    fn down(m: &DenseMatrix<S>, rows: usize) -> (r: DenseCube<S>) {
        broadcast use group_tables;

        let (layers, cols) = m.entries.dims();
        let f = |b: usize, i: usize, j: usize| -> (y: S)
            requires
                b < layers,
                j < cols,
                m.entries.size() == (layers as nat, cols as nat),
            ensures
                y == m.entries.cell(b as int, j as int),
        {
            m.entries.get(b, j)
        };
        let cells = solid(layers, rows, cols, f);
        let r = DenseCube { format: m.format, entries: cells };
        proof {
            lemma_block_ext(
                block::<Self>(&r),
                stack(
                    layers as nat, rows as nat, cols as nat,
                    |b: int, i: int, j: int| grid::<Self>(m).at(b, j),
                ),
            );
        }
        r
    }

    fn matmul3(a: &DenseCube<S>, b: &DenseCube<S>) -> (r: DenseCube<S>) {
        broadcast use group_tables;

        let (layers, rows, shared) = a.entries.dims();
        let (_, _, cols) = b.entries.dims();
        let f = |n: usize, i: usize, j: usize| -> (y: S)
            requires
                n < layers,
                i < rows,
                j < cols,
                a.entries.size() == (layers as nat, rows as nat, shared as nat),
                b.entries.size() == (layers as nat, shared as nat, cols as nat),
            ensures
                y == dot(
                    Seq::new(shared as nat, |k: int| a.entries.cell(n as int, i as int, k)),
                    Seq::new(shared as nat, |k: int| b.entries.cell(n as int, k, j as int)),
                    shared as nat,
                ),
        {
            let mut row: Vec<S> = Vec::new();
            let mut col: Vec<S> = Vec::new();
            let mut k: usize = 0;
            while k < shared
                invariant
                    k <= shared,
                    n < layers,
                    i < rows,
                    j < cols,
                    a.entries.size() == (layers as nat, rows as nat, shared as nat),
                    b.entries.size() == (layers as nat, shared as nat, cols as nat),
                    row@.len() == k,
                    col@.len() == k,
                    forall|q: int|
                        0 <= q < k ==> #[trigger] row@[q] == a.entries.cell(
                            n as int,
                            i as int,
                            q,
                        ),
                    forall|q: int|
                        0 <= q < k ==> #[trigger] col@[q] == b.entries.cell(
                            n as int,
                            q,
                            j as int,
                        ),
                decreases shared - k,
            {
                row.push(a.entries.get(n, i, k));
                col.push(b.entries.get(n, k, j));
                k += 1;
            }
            assert(row@ =~= Seq::new(
                shared as nat,
                |k: int| a.entries.cell(n as int, i as int, k),
            ));
            assert(col@ =~= Seq::new(
                shared as nat,
                |k: int| b.entries.cell(n as int, k, j as int),
            ));
            inner_product(&row, &col)
        };
        let cells = solid(layers, rows, cols, f);
        let r = DenseCube { format: a.format, entries: cells };
        proof {
            let want = layer_products::<Self>(block::<Self>(a), block::<Self>(b));
            assert forall|n: int, i: int, j: int| want.has(n, i, j) implies #[trigger] block::<Self>(
                &r,
            ).at(n, i, j) == want.at(n, i, j) by {
                assert(r.entries.cell(n as usize as int, i as usize as int, j as usize as int)
                    == r.entries.cell(n, i, j));
                assert(block::<Self>(a).layer(n).row(i) =~= Seq::new(
                    shared as nat,
                    |k: int| a.entries.cell(n, i, k),
                ));
                assert(block::<Self>(b).layer(n).col(j) =~= Seq::new(
                    shared as nat,
                    |k: int| b.entries.cell(n, k, j),
                ));
            }
            lemma_block_ext(block::<Self>(&r), want);
        }
        r
    }

    fn plus3(a: &DenseCube<S>, b: &DenseCube<S>) -> (r: DenseCube<S>) {
        let f = |x: S, y: S| -> (z: S)
            ensures
                z == x.s_add(y),
        {
            x.plus(y)
        };
        pairwise3(a, b, &f, Ghost(|x: S, y: S| x.s_add(y)))
    }

    fn times3(a: &DenseCube<S>, b: &DenseCube<S>) -> (r: DenseCube<S>) {
        let f = |x: S, y: S| -> (z: S)
            ensures
                z == x.s_mul(y),
        {
            x.times(y)
        };
        pairwise3(a, b, &f, Ghost(|x: S, y: S| x.s_mul(y)))
    }

    fn over3(a: &DenseCube<S>, b: &DenseCube<S>) -> (r: DenseCube<S>) {
        let f = |x: S, y: S| -> (z: S)
            ensures
                z == x.s_div(y),
        {
            x.over(y)
        };
        pairwise3(a, b, &f, Ghost(|x: S, y: S| x.s_div(y)))
    }

    fn scaled3(c: &DenseCube<S>, s: S) -> (r: DenseCube<S>) {
        let s = s.narrowed(c.format);
        let f = |x: S| -> (z: S)
            ensures
                z == x.s_mul(s),
        {
            x.times(s)
        };
        entrywise3(c, &f, Ghost(|x: S| x.s_mul(s)))
    }

    fn confined3(c: &DenseCube<S>, low: S, high: S) -> (r: DenseCube<S>) {
        let low = low.narrowed(c.format);
        let high = high.narrowed(c.format);
        let f = |x: S| -> (z: S)
            ensures
                z == clamped(x, low, high),
        {
            clamp(x, low, high)
        };
        entrywise3(c, &f, Ghost(|x: S| clamped(x, low, high)))
    }

    fn falls_below3(a: &DenseCube<S>, b: &DenseCube<S>) -> (r: Solid<bool>) {
        broadcast use group_tables;

        let (layers, rows, cols) = a.entries.dims();
        let f = |n: usize, i: usize, j: usize| -> (z: bool)
            requires
                n < layers,
                i < rows,
                j < cols,
                a.entries.size() == (layers as nat, rows as nat, cols as nat),
                b.entries.size() == (layers as nat, rows as nat, cols as nat),
            ensures
                z == a.entries.cell(n as int, i as int, j as int).s_lt(
                    b.entries.cell(n as int, i as int, j as int),
                ),
        {
            a.entries.get(n, i, j).less(b.entries.get(n, i, j))
        };
        let r = solid(layers, rows, cols, f);
        proof {
            lemma_block_ext(
                mask3::<Self>(&r),
                both3(block::<Self>(a), block::<Self>(b), |x: S, y: S| x.s_lt(y)),
            );
        }
        r
    }

    fn select3(a: &DenseCube<S>, k: &Solid<bool>, b: &DenseCube<S>) -> (r: DenseCube<S>) {
        broadcast use group_tables;

        let (layers, rows, cols) = a.entries.dims();
        let f = |n: usize, i: usize, j: usize| -> (y: S)
            requires
                n < layers,
                i < rows,
                j < cols,
                a.entries.size() == (layers as nat, rows as nat, cols as nat),
                b.entries.size() == (layers as nat, rows as nat, cols as nat),
                k.size() == (layers as nat, rows as nat, cols as nat),
            ensures
                y == if k.cell(n as int, i as int, j as int) {
                    b.entries.cell(n as int, i as int, j as int)
                } else {
                    a.entries.cell(n as int, i as int, j as int)
                },
        {
            if k.get(n, i, j) {
                b.entries.get(n, i, j)
            } else {
                a.entries.get(n, i, j)
            }
        };
        let cells = solid(layers, rows, cols, f);
        let r = DenseCube { format: a.format, entries: cells };
        proof {
            lemma_block_ext(
                block::<Self>(&r),
                chosen3(block::<Self>(a), mask3::<Self>(k), block::<Self>(b)),
            );
        }
        r
    }

    fn row_sums(c: &DenseCube<S>) -> (r: DenseMatrix<S>) {
        broadcast use group_tables;

        let (layers, rows, cols) = c.entries.dims();
        let f = |b: usize, i: usize| -> (y: S)
            requires
                b < layers,
                i < rows,
                c.entries.size() == (layers as nat, rows as nat, cols as nat),
            ensures
                y == total(
                    Seq::new(cols as nat, |j: int| c.entries.cell(b as int, i as int, j)),
                    cols as nat,
                ),
        {
            let ghost row = Seq::new(
                cols as nat,
                |j: int| c.entries.cell(b as int, i as int, j),
            );
            let mut sum = S::whole(0);
            let mut j: usize = 0;
            while j < cols
                invariant
                    j <= cols,
                    b < layers,
                    i < rows,
                    c.entries.size() == (layers as nat, rows as nat, cols as nat),
                    row == Seq::new(
                        cols as nat,
                        |j: int| c.entries.cell(b as int, i as int, j),
                    ),
                    sum == total(row, j as nat),
                decreases cols - j,
            {
                sum = sum.plus(c.entries.get(b, i, j));
                j += 1;
            }
            sum
        };
        let cells = plane(layers, rows, f);
        let r = DenseMatrix { format: c.format, entries: cells };
        proof {
            let want = table(
                Self::size3(c).0,
                Self::size3(c).1,
                |b: int, i: int| Self::sum(block::<Self>(c).layer(b).row(i)),
            );
            assert forall|b: int, i: int| want.has(b, i) implies #[trigger] grid::<Self>(&r).at(
                b,
                i,
            ) == want.at(b, i) by {
                assert(r.entries.cell(b as usize as int, i as usize as int) == r.entries.cell(
                    b,
                    i,
                ));
                assert(block::<Self>(c).layer(b).row(i) =~= Seq::new(
                    cols as nat,
                    |j: int| c.entries.cell(b, i, j),
                ));
            }
            lemma_grid_ext(grid::<Self>(&r), want);
        }
        r
    }

    fn times4(a: &DenseImage<S>, b: &DenseImage<S>) -> (r: DenseImage<S>) {
        broadcast use group_tables;

        let dims = a.entries.dims();
        let f = |n: usize, c: usize, i: usize, j: usize| -> (y: S)
            requires
                n < dims.0,
                c < dims.1,
                i < dims.2,
                j < dims.3,
                a.entries.size() == (
                    dims.0 as nat,
                    dims.1 as nat,
                    dims.2 as nat,
                    dims.3 as nat,
                ),
                b.entries.size() == a.entries.size(),
            ensures
                y == a.entries.cell(n as int, c as int, i as int, j as int).s_mul(
                    b.entries.cell(n as int, c as int, i as int, j as int),
                ),
        {
            a.entries.get(n, c, i, j).times(b.entries.get(n, c, i, j))
        };
        let cells = batch(dims, f);
        let r = DenseImage { format: a.format, entries: cells };
        proof {
            lemma_volume_ext(
                image::<Self>(&r),
                both4(image::<Self>(a), image::<Self>(b), |x: S, y: S| x.s_mul(y)),
            );
        }
        r
    }

    fn conv2d(
        x: &DenseImage<S>,
        w: &DenseImage<S>,
        bias: Option<&DenseVector<S>>,
        options: ConvOptions,
    ) -> (r: DenseImage<S>) {
        broadcast use group_tables;

        let xs = x.entries.dims();
        let ws = w.entries.dims();
        let rows = count_positions(
            xs.2,
            ws.2,
            options.stride.0,
            options.padding.0,
            options.dilation.0,
        );
        let cols = count_positions(
            xs.3,
            ws.3,
            options.stride.1,
            options.padding.1,
            options.dilation.1,
        );
        let f = |n: usize, o: usize, p: usize, q: usize| -> (y: S)
            requires
                conv_fits(x.entries.size(), w.entries.size(), options),
                n < x.entries.size().0,
                o < w.entries.size().0,
                p < conv_size(x.entries.size(), w.entries.size(), options).2,
                q < conv_size(x.entries.size(), w.entries.size(), options).3,
                bias matches Some(v) ==> v.entries@.len() == w.entries.size().0,
            ensures
                y == conv_entry(x, w, bias, options, n as int, o as int, p as int, q as int),
        {
            let window = window_vector(x, ws, options, n, o, p, q);
            let kernel = kernel_vector(w, o);
            let plain = inner_product(&window, &kernel);
            match bias {
                None => plain,
                Some(v) => plain.plus(v.entries[o]),
            }
        };
        let cells = batch((xs.0, ws.0, rows, cols), f);
        let r = DenseImage { format: x.format, entries: cells };
        proof {
            let plain = convolved::<Self>(x.format, image::<Self>(x), image::<Self>(w), options);
            let want = match bias {
                None => plain,
                Some(v) => plus_channels(plain, line::<Self>(v)),
            };
            assert forall|n: int, o: int, p: int, q: int| want.has(n, o, p, q) implies #[trigger] image::<
                Self,
            >(&r).at(n, o, p, q) == want.at(n, o, p, q) by {
                assert(r.entries.cell(
                    n as usize as int,
                    o as usize as int,
                    p as usize as int,
                    q as usize as int,
                ) == r.entries.cell(n, o, p, q));
            }
            lemma_volume_ext(image::<Self>(&r), want);
        }
        r
    }
}

} // verus!
