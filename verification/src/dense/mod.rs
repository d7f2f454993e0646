//! A tensor library of plain vectors.
//!
//! [`Dense`] keeps every entry as a number of the host and accumulates from the
//! first entry on. It is the reference that other backends can be compared to.
//!
//! The format of a tensor decides how host numbers become its entries: they are
//! rounded to the format, and lost where they exceed it. What is computed from
//! entries is computed as the number type computes: in double precision for
//! [`Binary64`](crate::binary64::Binary64), and in the entries' own format for
//! [`Rounded`](crate::binary64::rounded::Rounded).
use std::marker::PhantomData;

use vstd::prelude::*;

use crate::backend::{Format, Model};
use crate::dense::cells::{batch, plane, solid, Batch, Plane, Solid};
use crate::scalar::Scalar;

pub mod cells;
pub mod convolution;
pub mod operations;

verus! {

use crate::laws::tensors::folds;
use crate::scalar::{dot, total};

/// A vector with an element format.
pub struct DenseVector<S> {
    pub format: Format,
    pub entries: Vec<S>,
}

/// A matrix with an element format.
pub struct DenseMatrix<S> {
    pub format: Format,
    pub entries: Plane<S>,
}

/// A tensor of rank three with an element format.
pub struct DenseCube<S> {
    pub format: Format,
    pub entries: Solid<S>,
}

/// A tensor of rank four with an element format.
pub struct DenseImage<S> {
    pub format: Format,
    pub entries: Batch<S>,
}

impl<S: Scalar> DenseMatrix<S> {
    /// The matrix with the given rows, all of length `cols`, or nothing where
    /// some row has another length.
    pub fn from_rows(rows: Vec<Vec<S>>, cols: usize, format: Format) -> (r: Option<Self>)
        ensures
            r is Some <==> forall|i: int|
                0 <= i < rows@.len() ==> (#[trigger] rows@[i])@.len() == cols,
            r matches Some(m) ==> {
                &&& m.format == format
                &&& m.entries.size() == (rows@.len(), cols as nat)
                &&& forall|i: int, j: int|
                    0 <= i < rows@.len() && 0 <= j < cols ==> #[trigger] m.entries.cell(i, j)
                        == rows@[i]@[j]
            },
    {
        let mut i: usize = 0;
        while i < rows.len()
            invariant
                i <= rows@.len(),
                forall|k: int| 0 <= k < i ==> (#[trigger] rows@[k])@.len() == cols,
            decreases rows@.len() - i,
        {
            if rows[i].len() != cols {
                assert(rows@[i as int]@.len() != cols);
                return None;
            }
            i += 1;
        }
        let height: usize = rows.len();
        let f = |i: usize, j: usize| -> (y: S)
            requires
                i < height,
                j < cols,
                rows@.len() == height,
                forall|k: int| 0 <= k < rows@.len() ==> (#[trigger] rows@[k])@.len() == cols,
            ensures
                y == rows@[i as int]@[j as int],
        {
            rows[i][j]
        };
        Some(DenseMatrix { format, entries: plane(height, cols, f) })
    }

}

impl<S: Scalar> DenseCube<S> {
    /// The tensor whose layers are the given matrices, all of `rows` rows and
    /// `cols` columns, or nothing where some matrix has another size.
    pub fn from_layers(layers: Vec<DenseMatrix<S>>, rows: usize, cols: usize, format: Format) -> (r:
        Option<Self>)
        ensures
            r is Some <==> forall|b: int|
                0 <= b < layers@.len() ==> (#[trigger] layers@[b]).entries.size() == (
                    rows as nat,
                    cols as nat,
                ),
            r matches Some(c) ==> {
                &&& c.format == format
                &&& c.entries.size() == (layers@.len(), rows as nat, cols as nat)
                &&& forall|b: int, i: int, j: int|
                    0 <= b < layers@.len() && 0 <= i < rows && 0 <= j < cols
                        ==> #[trigger] c.entries.cell(b, i, j) == layers@[b].entries.cell(i, j)
            },
    {
        let mut b: usize = 0;
        while b < layers.len()
            invariant
                b <= layers@.len(),
                forall|k: int|
                    0 <= k < b ==> (#[trigger] layers@[k]).entries.size() == (
                        rows as nat,
                        cols as nat,
                    ),
            decreases layers@.len() - b,
        {
            let size = layers[b].entries.dims();
            if size.0 != rows || size.1 != cols {
                assert(layers@[b as int].entries.size() != (rows as nat, cols as nat));
                return None;
            }
            b += 1;
        }
        let depth: usize = layers.len();
        let f = |b: usize, i: usize, j: usize| -> (y: S)
            requires
                b < depth,
                i < rows,
                j < cols,
                layers@.len() == depth,
                forall|k: int|
                    0 <= k < layers@.len() ==> (#[trigger] layers@[k]).entries.size() == (
                        rows as nat,
                        cols as nat,
                    ),
            ensures
                y == layers@[b as int].entries.cell(i as int, j as int),
        {
            layers[b].entries.get(i, j)
        };
        Some(DenseCube { format, entries: solid(depth, rows, cols, f) })
    }
}

impl<S: Scalar> DenseImage<S> {
    /// The tensor whose items are the given tensors, all of `channels` layers,
    /// `rows` rows and `cols` columns, or nothing where some item has another
    /// size.
    pub fn from_items(
        items: Vec<DenseCube<S>>,
        channels: usize,
        rows: usize,
        cols: usize,
        format: Format,
    ) -> (r: Option<Self>)
        ensures
            r is Some <==> forall|n: int|
                0 <= n < items@.len() ==> (#[trigger] items@[n]).entries.size() == (
                    channels as nat,
                    rows as nat,
                    cols as nat,
                ),
            r matches Some(x) ==> {
                &&& x.format == format
                &&& x.entries.size() == (items@.len(), channels as nat, rows as nat, cols as nat)
                &&& forall|n: int, c: int, i: int, j: int|
                    0 <= n < items@.len() && 0 <= c < channels && 0 <= i < rows && 0 <= j < cols
                        ==> #[trigger] x.entries.cell(n, c, i, j) == items@[n].entries.cell(c, i, j)
            },
    {
        let mut n: usize = 0;
        while n < items.len()
            invariant
                n <= items@.len(),
                forall|k: int|
                    0 <= k < n ==> (#[trigger] items@[k]).entries.size() == (
                        channels as nat,
                        rows as nat,
                        cols as nat,
                    ),
            decreases items@.len() - n,
        {
            let size = items[n].entries.dims();
            if size.0 != channels || size.1 != rows || size.2 != cols {
                assert(items@[n as int].entries.size() != (
                    channels as nat,
                    rows as nat,
                    cols as nat,
                ));
                return None;
            }
            n += 1;
        }
        let count: usize = items.len();
        let f = |n: usize, c: usize, i: usize, j: usize| -> (y: S)
            requires
                n < count,
                c < channels,
                i < rows,
                j < cols,
                items@.len() == count,
                forall|k: int|
                    0 <= k < items@.len() ==> (#[trigger] items@[k]).entries.size() == (
                        channels as nat,
                        rows as nat,
                        cols as nat,
                    ),
            ensures
                y == items@[n as int].entries.cell(c as int, i as int, j as int),
        {
            items[n].entries.get(c, i, j)
        };
        Some(DenseImage { format, entries: batch((count, channels, rows, cols), f) })
    }
}

/// The backend of plain vectors of numbers `S`.
pub struct Dense<S> {
    numbers: PhantomData<S>,
}

impl<S: Scalar> Model for Dense<S> {
    type Elem = S;

    type Vector = DenseVector<S>;

    type Matrix = DenseMatrix<S>;

    type Cube = DenseCube<S>;

    type Image = DenseImage<S>;

    type Mask = Plane<bool>;

    type CubeMask = Solid<bool>;

    open spec fn len(v: &DenseVector<S>) -> nat {
        v.entries@.len()
    }

    open spec fn entry(v: &DenseVector<S>, i: int) -> S {
        v.entries@[i]
    }

    open spec fn vector_format(v: &DenseVector<S>) -> Format {
        v.format
    }

    open spec fn size(m: &DenseMatrix<S>) -> (nat, nat) {
        m.entries.size()
    }

    open spec fn at(m: &DenseMatrix<S>, i: int, j: int) -> S {
        m.entries.cell(i, j)
    }

    open spec fn format(m: &DenseMatrix<S>) -> Format {
        m.format
    }

    open spec fn size3(c: &DenseCube<S>) -> (nat, nat, nat) {
        c.entries.size()
    }

    open spec fn at3(c: &DenseCube<S>, b: int, i: int, j: int) -> S {
        c.entries.cell(b, i, j)
    }

    open spec fn format3(c: &DenseCube<S>) -> Format {
        c.format
    }

    open spec fn size4(x: &DenseImage<S>) -> (nat, nat, nat, nat) {
        x.entries.size()
    }

    open spec fn at4(x: &DenseImage<S>, n: int, c: int, i: int, j: int) -> S {
        x.entries.cell(n, c, i, j)
    }

    open spec fn format4(x: &DenseImage<S>) -> Format {
        x.format
    }

    open spec fn mask_size(k: &Plane<bool>) -> (nat, nat) {
        k.size()
    }

    open spec fn on(k: &Plane<bool>, i: int, j: int) -> bool {
        k.cell(i, j)
    }

    open spec fn mask_size3(k: &Solid<bool>) -> (nat, nat, nat) {
        k.size()
    }

    open spec fn on3(k: &Solid<bool>, b: int, i: int, j: int) -> bool {
        k.cell(b, i, j)
    }

    open spec fn inner(a: Seq<S>, b: Seq<S>) -> S {
        dot(a, b, a.len())
    }

    open spec fn inner3(a: Seq<S>, b: Seq<S>) -> S {
        dot(a, b, a.len())
    }

    open spec fn inner4(a: Seq<S>, b: Seq<S>) -> S {
        dot(a, b, a.len())
    }

    open spec fn sum(a: Seq<S>) -> S {
        total(a, a.len())
    }

    open spec fn cast(f: Format, value: S) -> S {
        value.s_cast(f)
    }

    open spec fn largest(f: Format) -> S {
        S::s_largest(f)
    }
}

/// Inner products and sums are accumulated from the first entry on.
pub proof fn law_dense_accumulates<S: Scalar>()
    ensures
        folds::<Dense<S>>(),
{
    reveal(folds);
}

} // verus!
