//! Tensor libraries that batched propagation runs on.
//!
//! [`Model`] says what a backend's tensors hold; [`Backend`] lists the tensor
//! operations that propagation uses, each with the entries of its result. The
//! operations do not broadcast: operands have equal sizes, and the operations
//! that repeat a tensor along a new axis say so.
use vstd::prelude::*;

use crate::scalar::Scalar;

verus! {

use crate::gaussian::clamped;
use crate::tensor::{
    both, both3, both4, chosen, chosen3, each, each3, stack, table, volume, Block, Grid, Volume,
};

/// The element format of a tensor.
#[derive(Clone, Copy, Debug, PartialEq, Eq, Structural)]
pub enum Format {
    F64,
    F32,
    Flex32,
    F16,
    BF16,
}

/// How a convolution moves its kernel; each pair is for rows and columns.
#[derive(Clone, Copy, Debug)]
pub struct ConvOptions {
    /// Distance between kernel positions.
    pub stride: (usize, usize),
    /// Zeros added around each channel.
    pub padding: (usize, usize),
    /// Distance between the input entries that a kernel reads.
    pub dilation: (usize, usize),
    /// Number of channel groups that do not mix.
    pub groups: usize,
}

/// What tensors hold.
///
/// The specification functions describe an implementation's tensors and
/// arithmetic. A verified implementation must give a body to each of them: the
/// bodies that stand here say nothing that any tensors could meet, and only let
/// backends of unverified crates do without.
pub trait Model: Sized {
    /// Numbers on the host, and tensor entries.
    type Elem: Scalar;

    /// A tensor of rank one.
    type Vector;

    /// A tensor of rank two.
    type Matrix;

    /// A tensor of rank three.
    type Cube;

    /// A tensor of rank four.
    type Image;

    /// A tensor of truth values of rank two.
    type Mask;

    /// A tensor of truth values of rank three.
    type CubeMask;

    /// Number of entries of a vector.
    open spec fn len(v: &Self::Vector) -> nat {
        arbitrary()
    }

    /// Entry `i` of a vector.
    open spec fn entry(v: &Self::Vector, i: int) -> Self::Elem {
        arbitrary()
    }

    /// Element format of a vector.
    open spec fn vector_format(v: &Self::Vector) -> Format {
        arbitrary()
    }

    /// Rows and columns of a matrix.
    open spec fn size(m: &Self::Matrix) -> (nat, nat) {
        arbitrary()
    }

    /// Entry `(i, j)` of a matrix.
    open spec fn at(m: &Self::Matrix, i: int, j: int) -> Self::Elem {
        arbitrary()
    }

    /// Element format of a matrix.
    open spec fn format(m: &Self::Matrix) -> Format {
        arbitrary()
    }

    /// Layers, rows and columns of a cube.
    open spec fn size3(c: &Self::Cube) -> (nat, nat, nat) {
        arbitrary()
    }

    /// Entry `(b, i, j)` of a cube.
    open spec fn at3(c: &Self::Cube, b: int, i: int, j: int) -> Self::Elem {
        arbitrary()
    }

    /// Element format of a cube.
    open spec fn format3(c: &Self::Cube) -> Format {
        arbitrary()
    }

    /// Batches, channels, rows and columns of an image tensor.
    open spec fn size4(x: &Self::Image) -> (nat, nat, nat, nat) {
        arbitrary()
    }

    /// Entry `(n, c, i, j)` of an image tensor.
    open spec fn at4(x: &Self::Image, n: int, c: int, i: int, j: int) -> Self::Elem {
        arbitrary()
    }

    /// Element format of an image tensor.
    open spec fn format4(x: &Self::Image) -> Format {
        arbitrary()
    }

    /// Rows and columns of a mask.
    open spec fn mask_size(k: &Self::Mask) -> (nat, nat) {
        arbitrary()
    }

    /// Entry `(i, j)` of a mask.
    open spec fn on(k: &Self::Mask, i: int, j: int) -> bool {
        arbitrary()
    }

    /// Layers, rows and columns of a mask of rank three.
    open spec fn mask_size3(k: &Self::CubeMask) -> (nat, nat, nat) {
        arbitrary()
    }

    /// Entry `(b, i, j)` of a mask of rank three.
    open spec fn on3(k: &Self::CubeMask, b: int, i: int, j: int) -> bool {
        arbitrary()
    }

    /// The inner product of a row and a column of matrices, in the order in
    /// which the backend accumulates it.
    open spec fn inner(a: Seq<Self::Elem>, b: Seq<Self::Elem>) -> Self::Elem {
        arbitrary()
    }

    /// The inner product of a row and a column of layers of tensors of rank
    /// three, in the order in which the backend accumulates it.
    open spec fn inner3(a: Seq<Self::Elem>, b: Seq<Self::Elem>) -> Self::Elem {
        arbitrary()
    }

    /// The inner product of a window and a kernel of a convolution, in the order
    /// in which the backend accumulates it.
    open spec fn inner4(a: Seq<Self::Elem>, b: Seq<Self::Elem>) -> Self::Elem {
        arbitrary()
    }

    /// The sum of a sequence of tensor entries, in the order in which the
    /// backend accumulates it.
    open spec fn sum(a: Seq<Self::Elem>) -> Self::Elem {
        arbitrary()
    }

    /// The tensor entry of format `f` that a host number becomes.
    open spec fn cast(f: Format, value: Self::Elem) -> Self::Elem {
        arbitrary()
    }

    /// The largest finite number of format `f`.
    open spec fn largest(f: Format) -> Self::Elem {
        arbitrary()
    }
}

/// The entries of a vector.
pub open spec fn line<M: Model>(v: &M::Vector) -> Seq<M::Elem> {
    Seq::new(M::len(v), |i: int| M::entry(v, i))
}

/// The entries of a matrix.
pub open spec fn grid<M: Model>(m: &M::Matrix) -> Grid<M::Elem> {
    table(M::size(m).0, M::size(m).1, |i: int, j: int| M::at(m, i, j))
}

/// The entries of a cube.
pub open spec fn block<M: Model>(c: &M::Cube) -> Block<M::Elem> {
    stack(
        M::size3(c).0,
        M::size3(c).1,
        M::size3(c).2,
        |b: int, i: int, j: int| M::at3(c, b, i, j),
    )
}

/// The entries of an image tensor.
pub open spec fn image<M: Model>(x: &M::Image) -> Volume<M::Elem> {
    volume(M::size4(x), |n: int, c: int, i: int, j: int| M::at4(x, n, c, i, j))
}

/// The entries of a mask.
pub open spec fn mask<M: Model>(k: &M::Mask) -> Grid<bool> {
    table(M::mask_size(k).0, M::mask_size(k).1, |i: int, j: int| M::on(k, i, j))
}

/// The entries of a mask of rank three.
pub open spec fn mask3<M: Model>(k: &M::CubeMask) -> Block<bool> {
    stack(
        M::mask_size3(k).0,
        M::mask_size3(k).1,
        M::mask_size3(k).2,
        |b: int, i: int, j: int| M::on3(k, b, i, j),
    )
}

/// The integer `value` as a tensor entry of format `f`.
pub open spec fn constant<M: Model>(f: Format, value: int) -> M::Elem {
    M::cast(f, M::Elem::s_int(value))
}

/// The matrix product.
pub open spec fn product<M: Model>(a: Grid<M::Elem>, b: Grid<M::Elem>) -> Grid<M::Elem> {
    table(a.rows, b.cols, |i: int, j: int| M::inner(a.row(i), b.col(j)))
}

/// The products of the layers of two stacks.
pub open spec fn layer_products<M: Model>(a: Block<M::Elem>, b: Block<M::Elem>) -> Block<M::Elem> {
    stack(
        a.layers,
        a.rows,
        b.cols,
        |n: int, i: int, j: int| M::inner3(a.layer(n).row(i), b.layer(n).col(j)),
    )
}

/// `x` but at least `low`.
pub open spec fn raised<S: Scalar>(x: S, low: S) -> S {
    if x.s_lt(low) {
        low
    } else {
        x
    }
}

/// `x` but at most `high`.
pub open spec fn lowered<S: Scalar>(x: S, high: S) -> S {
    if high.s_lt(x) {
        high
    } else {
        x
    }
}

/// The sign of `x` in format `f`: zero, one or minus one.
pub open spec fn sign_of<M: Model>(f: Format, x: M::Elem) -> M::Elem {
    if x.s_eq(constant::<M>(f, 0)) {
        constant::<M>(f, 0)
    } else if constant::<M>(f, 0).s_lt(x) {
        constant::<M>(f, 1)
    } else {
        constant::<M>(f, -1)
    }
}

/// The number of kernel positions along one axis.
pub open spec fn positions(
    extent: nat,
    kernel: nat,
    stride: int,
    padding: int,
    dilation: int,
) -> nat {
    ((extent + 2 * padding - dilation * (kernel - 1) - 1) / stride + 1) as nat
}

/// Whether a kernel fits the padded input along one axis.
pub open spec fn axis_fits(
    extent: nat,
    kernel: nat,
    stride: int,
    padding: int,
    dilation: int,
) -> bool {
    &&& stride > 0
    &&& dilation > 0
    &&& kernel > 0
    &&& dilation * (kernel - 1) + 1 <= extent + 2 * padding <= usize::MAX
}

/// Whether a convolution is defined: input `x` is batches, channels, rows and
/// columns; `w` is output channels, channels per group, rows and columns.
pub open spec fn conv_fits(
    x: (nat, nat, nat, nat),
    w: (nat, nat, nat, nat),
    options: ConvOptions,
) -> bool {
    &&& options.groups > 0
    &&& w.1 * options.groups == x.1
    &&& w.0 % (options.groups as nat) == 0
    &&& axis_fits(
        x.2,
        w.2,
        options.stride.0 as int,
        options.padding.0 as int,
        options.dilation.0 as int,
    )
    &&& axis_fits(
        x.3,
        w.3,
        options.stride.1 as int,
        options.padding.1 as int,
        options.dilation.1 as int,
    )
}

/// The size of the result of a convolution.
pub open spec fn conv_size(
    x: (nat, nat, nat, nat),
    w: (nat, nat, nat, nat),
    options: ConvOptions,
) -> (nat, nat, nat, nat) {
    (
        x.0,
        w.0,
        positions(
            x.2,
            w.2,
            options.stride.0 as int,
            options.padding.0 as int,
            options.dilation.0 as int,
        ),
        positions(
            x.3,
            w.3,
            options.stride.1 as int,
            options.padding.1 as int,
            options.dilation.1 as int,
        ),
    )
}

/// The kernel of output channel `o`, in the order of channels, rows and
/// columns.
pub open spec fn kernel_of<E>(w: Volume<E>, o: int) -> Seq<E> {
    Seq::new(
        w.channels * (w.rows * w.cols),
        |q: int|
            w.at(
                o,
                q / (w.rows * w.cols) as int,
                (q % (w.rows * w.cols) as int) / w.cols as int,
                (q % (w.rows * w.cols) as int) % w.cols as int,
            ),
    )
}

/// The input entry at row `i` and column `j`, or zero in the padding.
pub open spec fn padded<E>(x: Volume<E>, n: int, c: int, i: int, j: int, zero: E) -> E {
    if 0 <= i < x.rows && 0 <= j < x.cols {
        x.at(n, c, i, j)
    } else {
        zero
    }
}

/// The input entries that the kernel of output channel `o` meets at position
/// `(p, q)`, in the order of [`kernel_of`].
pub open spec fn window_of<E>(
    x: Volume<E>,
    w: (nat, nat, nat, nat),
    options: ConvOptions,
    zero: E,
    n: int,
    o: int,
    p: int,
    q: int,
) -> Seq<E> {
    let group = o / (w.0 as int / options.groups as int);
    Seq::new(
        w.1 * (w.2 * w.3),
        |t: int|
            padded(
                x,
                n,
                group * w.1 + t / (w.2 * w.3) as int,
                p * options.stride.0 + ((t % (w.2 * w.3) as int) / w.3 as int) * options.dilation.0
                    - options.padding.0,
                q * options.stride.1 + ((t % (w.2 * w.3) as int) % w.3 as int) * options.dilation.1
                    - options.padding.1,
                zero,
            ),
    )
}

/// A convolution without bias, in format `f`.
pub open spec fn convolved<M: Model>(
    f: Format,
    x: Volume<M::Elem>,
    w: Volume<M::Elem>,
    options: ConvOptions,
) -> Volume<M::Elem> {
    volume(
        conv_size(x.dims(), w.dims(), options),
        |n: int, o: int, p: int, q: int|
            M::inner4(
                window_of(x, w.dims(), options, constant::<M>(f, 0), n, o, p, q),
                kernel_of(w, o),
            ),
    )
}

/// `bias[c]` added to every entry of channel `c`.
pub open spec fn plus_channels<S: Scalar>(x: Volume<S>, bias: Seq<S>) -> Volume<S> {
    volume(x.dims(), |n: int, c: int, i: int, j: int| x.at(n, c, i, j).s_add(bias[c]))
}

/// `v` added to every row.
pub open spec fn plus_rows<S: Scalar>(m: Grid<S>, v: Seq<S>) -> Grid<S> {
    table(m.rows, m.cols, |i: int, j: int| m.at(i, j).s_add(v[j]))
}

/// The tensor operations that propagation uses.
pub trait Backend: Model {
    /// Number of entries.
    fn length(v: &Self::Vector) -> (r: usize)
        ensures
            r == Self::len(v),
    ;

    /// Element format.
    fn format_of_vector(v: &Self::Vector) -> (r: Format)
        ensures
            r == Self::vector_format(v),
    ;

    /// Rows and columns.
    fn dims(m: &Self::Matrix) -> (r: (usize, usize))
        ensures
            (r.0 as nat, r.1 as nat) == Self::size(m),
    ;

    /// Element format.
    fn format_of(m: &Self::Matrix) -> (r: Format)
        ensures
            r == Self::format(m),
    ;

    /// Layers, rows and columns.
    fn dims3(c: &Self::Cube) -> (r: (usize, usize, usize))
        ensures
            (r.0 as nat, r.1 as nat, r.2 as nat) == Self::size3(c),
    ;

    /// Element format.
    fn format_of3(c: &Self::Cube) -> (r: Format)
        ensures
            r == Self::format3(c),
    ;

    /// Batches, channels, rows and columns.
    fn dims4(x: &Self::Image) -> (r: (usize, usize, usize, usize))
        ensures
            (r.0 as nat, r.1 as nat, r.2 as nat, r.3 as nat) == Self::size4(x),
    ;

    /// Element format.
    fn format_of4(x: &Self::Image) -> (r: Format)
        ensures
            r == Self::format4(x),
    ;

    /// The tensor entry that a host number becomes.
    fn narrowed(f: Format, value: Self::Elem) -> (r: Self::Elem)
        ensures
            r == Self::cast(f, value),
    ;

    /// The largest finite number of a format.
    fn largest_finite(f: Format) -> (r: Self::Elem)
        ensures
            r == Self::largest(f),
    ;

    /// The matrix with the given entries, row by row, in the format of `like`.
    fn matrix_like(entries: Vec<Self::Elem>, rows: usize, cols: usize, like: &Self::Matrix) -> (r: Self::Matrix)
        requires
            entries@.len() == rows * cols,
        ensures
            Self::format(&r) == Self::format(like),
            grid::<Self>(&r) == table(rows as nat, cols as nat, |i: int, j: int| Self::cast(Self::format(like), entries@[i * cols + j])),
    ;

    /// The matrix product.
    fn matmul(a: &Self::Matrix, b: &Self::Matrix) -> (r: Self::Matrix)
        requires
            Self::size(a).1 == Self::size(b).0,
            Self::format(a) == Self::format(b),
        ensures
            Self::format(&r) == Self::format(a),
            grid::<Self>(&r) == product::<Self>(grid::<Self>(a), grid::<Self>(b)),
    ;

    /// The rows as columns.
    fn transposed(m: &Self::Matrix) -> (r: Self::Matrix)
        ensures
            Self::format(&r) == Self::format(m),
            grid::<Self>(&r) == table(Self::size(m).1, Self::size(m).0, |i: int, j: int| grid::<Self>(m).at(j, i)),
    ;

    /// A vector added to every row.
    fn plus_row(m: &Self::Matrix, v: &Self::Vector) -> (r: Self::Matrix)
        requires
            Self::len(v) == Self::size(m).1,
            Self::vector_format(v) == Self::format(m),
        ensures
            Self::format(&r) == Self::format(m),
            grid::<Self>(&r) == plus_rows(grid::<Self>(m), line::<Self>(v)),
    ;

    /// The entrywise sum.
    fn plus(a: &Self::Matrix, b: &Self::Matrix) -> (r: Self::Matrix)
        requires
            Self::size(a) == Self::size(b),
            Self::format(a) == Self::format(b),
        ensures
            Self::format(&r) == Self::format(a),
            grid::<Self>(&r) == both(grid::<Self>(a), grid::<Self>(b), |x: Self::Elem, y: Self::Elem| x.s_add(y)),
    ;

    /// The entrywise difference.
    fn minus(a: &Self::Matrix, b: &Self::Matrix) -> (r: Self::Matrix)
        requires
            Self::size(a) == Self::size(b),
            Self::format(a) == Self::format(b),
        ensures
            Self::format(&r) == Self::format(a),
            grid::<Self>(&r) == both(grid::<Self>(a), grid::<Self>(b), |x: Self::Elem, y: Self::Elem| x.s_sub(y)),
    ;

    /// The entrywise product.
    fn times(a: &Self::Matrix, b: &Self::Matrix) -> (r: Self::Matrix)
        requires
            Self::size(a) == Self::size(b),
            Self::format(a) == Self::format(b),
        ensures
            Self::format(&r) == Self::format(a),
            grid::<Self>(&r) == both(grid::<Self>(a), grid::<Self>(b), |x: Self::Elem, y: Self::Elem| x.s_mul(y)),
    ;

    /// The entrywise quotient.
    fn over(a: &Self::Matrix, b: &Self::Matrix) -> (r: Self::Matrix)
        requires
            Self::size(a) == Self::size(b),
            Self::format(a) == Self::format(b),
        ensures
            Self::format(&r) == Self::format(a),
            grid::<Self>(&r) == both(grid::<Self>(a), grid::<Self>(b), |x: Self::Elem, y: Self::Elem| x.s_div(y)),
    ;

    /// The negated entries.
    fn negated(m: &Self::Matrix) -> (r: Self::Matrix)
        ensures
            Self::format(&r) == Self::format(m),
            grid::<Self>(&r) == each(grid::<Self>(m), |x: Self::Elem| x.s_neg()),
    ;

    /// One over each entry.
    fn reciprocal(m: &Self::Matrix) -> (r: Self::Matrix)
        ensures
            Self::format(&r) == Self::format(m),
            grid::<Self>(&r) == each(grid::<Self>(m), |x: Self::Elem| constant::<Self>(Self::format(m), 1).s_div(x)),
    ;

    /// The square roots.
    fn root(m: &Self::Matrix) -> (r: Self::Matrix)
        ensures
            Self::format(&r) == Self::format(m),
            grid::<Self>(&r) == each(grid::<Self>(m), |x: Self::Elem| x.s_sqrt()),
    ;

    /// The exponentials.
    fn exponential(m: &Self::Matrix) -> (r: Self::Matrix)
        ensures
            Self::format(&r) == Self::format(m),
            grid::<Self>(&r) == each(grid::<Self>(m), |x: Self::Elem| x.s_exp()),
    ;

    /// The error function of each entry.
    fn error_function(m: &Self::Matrix) -> (r: Self::Matrix)
        ensures
            Self::format(&r) == Self::format(m),
            grid::<Self>(&r) == each(grid::<Self>(m), |x: Self::Elem| x.s_erf()),
    ;

    /// The absolute values.
    fn magnitude(m: &Self::Matrix) -> (r: Self::Matrix)
        ensures
            Self::format(&r) == Self::format(m),
            grid::<Self>(&r) == each(grid::<Self>(m), |x: Self::Elem| x.s_abs()),
    ;

    /// The signs.
    fn sign(m: &Self::Matrix) -> (r: Self::Matrix)
        ensures
            Self::format(&r) == Self::format(m),
            grid::<Self>(&r) == each(grid::<Self>(m), |x: Self::Elem| sign_of::<Self>(Self::format(m), x)),
    ;

    /// Every entry times a host number.
    fn scaled(m: &Self::Matrix, s: Self::Elem) -> (r: Self::Matrix)
        ensures
            Self::format(&r) == Self::format(m),
            grid::<Self>(&r) == each(grid::<Self>(m), |x: Self::Elem| x.s_mul(Self::cast(Self::format(m), s))),
    ;

    /// A host number added to every entry.
    fn shifted(m: &Self::Matrix, s: Self::Elem) -> (r: Self::Matrix)
        ensures
            Self::format(&r) == Self::format(m),
            grid::<Self>(&r) == each(grid::<Self>(m), |x: Self::Elem| x.s_add(Self::cast(Self::format(m), s))),
    ;

    /// Every entry, but at least a host number.
    fn raised_to(m: &Self::Matrix, s: Self::Elem) -> (r: Self::Matrix)
        ensures
            Self::format(&r) == Self::format(m),
            grid::<Self>(&r) == each(grid::<Self>(m), |x: Self::Elem| raised(x, Self::cast(Self::format(m), s))),
    ;

    /// Every entry, but at most a host number.
    fn lowered_to(m: &Self::Matrix, s: Self::Elem) -> (r: Self::Matrix)
        ensures
            Self::format(&r) == Self::format(m),
            grid::<Self>(&r) == each(grid::<Self>(m), |x: Self::Elem| lowered(x, Self::cast(Self::format(m), s))),
    ;

    /// Where the entries of `a` are greater than those of `b`.
    fn exceeds(a: &Self::Matrix, b: &Self::Matrix) -> (r: Self::Mask)
        requires
            Self::size(a) == Self::size(b),
            Self::format(a) == Self::format(b),
        ensures
            mask::<Self>(&r) == both(grid::<Self>(a), grid::<Self>(b), |x: Self::Elem, y: Self::Elem| y.s_lt(x)),
    ;

    /// Where the entries of `a` are less than those of `b`.
    fn falls_below(a: &Self::Matrix, b: &Self::Matrix) -> (r: Self::Mask)
        requires
            Self::size(a) == Self::size(b),
            Self::format(a) == Self::format(b),
        ensures
            mask::<Self>(&r) == both(grid::<Self>(a), grid::<Self>(b), |x: Self::Elem, y: Self::Elem| x.s_lt(y)),
    ;

    /// Where the entries are less than a host number.
    fn is_below(m: &Self::Matrix, s: Self::Elem) -> (r: Self::Mask)
        ensures
            mask::<Self>(&r) == each(grid::<Self>(m), |x: Self::Elem| x.s_lt(Self::cast(Self::format(m), s))),
    ;

    /// Where the entries are at most a host number.
    fn is_at_most(m: &Self::Matrix, s: Self::Elem) -> (r: Self::Mask)
        ensures
            mask::<Self>(&r) == each(grid::<Self>(m), |x: Self::Elem| x.s_le(Self::cast(Self::format(m), s))),
    ;

    /// Where the entries are at least a host number.
    fn is_at_least(m: &Self::Matrix, s: Self::Elem) -> (r: Self::Mask)
        ensures
            mask::<Self>(&r) == each(grid::<Self>(m), |x: Self::Elem| Self::cast(Self::format(m), s).s_le(x)),
    ;

    /// Where either mask holds.
    fn either(a: &Self::Mask, b: &Self::Mask) -> (r: Self::Mask)
        requires
            Self::mask_size(a) == Self::mask_size(b),
        ensures
            mask::<Self>(&r) == both(mask::<Self>(a), mask::<Self>(b), |x: bool, y: bool| x || y),
    ;

    /// The entries of `b` where the mask holds, and of `a` elsewhere.
    fn select(a: &Self::Matrix, k: &Self::Mask, b: &Self::Matrix) -> (r: Self::Matrix)
        requires
            Self::size(a) == Self::size(b),
            Self::format(a) == Self::format(b),
            Self::mask_size(k) == Self::size(a),
        ensures
            Self::format(&r) == Self::format(a),
            grid::<Self>(&r) == chosen(grid::<Self>(a), mask::<Self>(k), grid::<Self>(b)),
    ;

    /// A host number where the mask holds, and the entries of `m` elsewhere.
    fn fill(m: &Self::Matrix, k: &Self::Mask, s: Self::Elem) -> (r: Self::Matrix)
        requires
            Self::mask_size(k) == Self::size(m),
        ensures
            Self::format(&r) == Self::format(m),
            grid::<Self>(&r) == both(grid::<Self>(m), mask::<Self>(k), |x: Self::Elem, on: bool| if on { Self::cast(Self::format(m), s) } else { x }),
    ;

    /// `layers` copies of a matrix.
    fn repeated(m: &Self::Matrix, layers: usize) -> (r: Self::Cube)
        ensures
            Self::format3(&r) == Self::format(m),
            block::<Self>(&r) == stack(layers as nat, Self::size(m).0, Self::size(m).1, |b: int, i: int, j: int| grid::<Self>(m).at(i, j)),
    ;

    /// Each row as the columns of a layer, `cols` times.
    fn across(m: &Self::Matrix, cols: usize) -> (r: Self::Cube)
        ensures
            Self::format3(&r) == Self::format(m),
            block::<Self>(&r) == stack(Self::size(m).0, Self::size(m).1, cols as nat, |b: int, i: int, j: int| grid::<Self>(m).at(b, i)),
    ;

    /// Each row as the rows of a layer, `rows` times.
    fn down(m: &Self::Matrix, rows: usize) -> (r: Self::Cube)
        ensures
            Self::format3(&r) == Self::format(m),
            block::<Self>(&r) == stack(Self::size(m).0, rows as nat, Self::size(m).1, |b: int, i: int, j: int| grid::<Self>(m).at(b, j)),
    ;

    /// The matrix products of the layers.
    fn matmul3(a: &Self::Cube, b: &Self::Cube) -> (r: Self::Cube)
        requires
            Self::size3(a).0 == Self::size3(b).0,
            Self::size3(a).2 == Self::size3(b).1,
            Self::format3(a) == Self::format3(b),
        ensures
            Self::format3(&r) == Self::format3(a),
            block::<Self>(&r) == layer_products::<Self>(block::<Self>(a), block::<Self>(b)),
    ;

    /// The entrywise sum.
    fn plus3(a: &Self::Cube, b: &Self::Cube) -> (r: Self::Cube)
        requires
            Self::size3(a) == Self::size3(b),
            Self::format3(a) == Self::format3(b),
        ensures
            Self::format3(&r) == Self::format3(a),
            block::<Self>(&r) == both3(block::<Self>(a), block::<Self>(b), |x: Self::Elem, y: Self::Elem| x.s_add(y)),
    ;

    /// The entrywise product.
    fn times3(a: &Self::Cube, b: &Self::Cube) -> (r: Self::Cube)
        requires
            Self::size3(a) == Self::size3(b),
            Self::format3(a) == Self::format3(b),
        ensures
            Self::format3(&r) == Self::format3(a),
            block::<Self>(&r) == both3(block::<Self>(a), block::<Self>(b), |x: Self::Elem, y: Self::Elem| x.s_mul(y)),
    ;

    /// The entrywise quotient.
    fn over3(a: &Self::Cube, b: &Self::Cube) -> (r: Self::Cube)
        requires
            Self::size3(a) == Self::size3(b),
            Self::format3(a) == Self::format3(b),
        ensures
            Self::format3(&r) == Self::format3(a),
            block::<Self>(&r) == both3(block::<Self>(a), block::<Self>(b), |x: Self::Elem, y: Self::Elem| x.s_div(y)),
    ;

    /// Every entry times a host number.
    fn scaled3(c: &Self::Cube, s: Self::Elem) -> (r: Self::Cube)
        ensures
            Self::format3(&r) == Self::format3(c),
            block::<Self>(&r) == each3(block::<Self>(c), |x: Self::Elem| x.s_mul(Self::cast(Self::format3(c), s))),
    ;

    /// Every entry, kept between two host numbers.
    fn confined3(c: &Self::Cube, low: Self::Elem, high: Self::Elem) -> (r: Self::Cube)
        ensures
            Self::format3(&r) == Self::format3(c),
            block::<Self>(&r) == each3(block::<Self>(c), |x: Self::Elem| clamped(x, Self::cast(Self::format3(c), low), Self::cast(Self::format3(c), high))),
    ;

    /// Where the entries of `a` are less than those of `b`.
    fn falls_below3(a: &Self::Cube, b: &Self::Cube) -> (r: Self::CubeMask)
        requires
            Self::size3(a) == Self::size3(b),
            Self::format3(a) == Self::format3(b),
        ensures
            mask3::<Self>(&r) == both3(block::<Self>(a), block::<Self>(b), |x: Self::Elem, y: Self::Elem| x.s_lt(y)),
    ;

    /// The entries of `b` where the mask holds, and of `a` elsewhere.
    fn select3(a: &Self::Cube, k: &Self::CubeMask, b: &Self::Cube) -> (r: Self::Cube)
        requires
            Self::size3(a) == Self::size3(b),
            Self::format3(a) == Self::format3(b),
            Self::mask_size3(k) == Self::size3(a),
        ensures
            Self::format3(&r) == Self::format3(a),
            block::<Self>(&r) == chosen3(block::<Self>(a), mask3::<Self>(k), block::<Self>(b)),
    ;

    /// The sums along the columns of each layer.
    fn row_sums(c: &Self::Cube) -> (r: Self::Matrix)
        ensures
            Self::format(&r) == Self::format3(c),
            grid::<Self>(&r) == table(Self::size3(c).0, Self::size3(c).1, |b: int, i: int| Self::sum(block::<Self>(c).layer(b).row(i))),
    ;

    /// The entrywise product.
    fn times4(a: &Self::Image, b: &Self::Image) -> (r: Self::Image)
        requires
            Self::size4(a) == Self::size4(b),
            Self::format4(a) == Self::format4(b),
        ensures
            Self::format4(&r) == Self::format4(a),
            image::<Self>(&r) == both4(image::<Self>(a), image::<Self>(b), |x: Self::Elem, y: Self::Elem| x.s_mul(y)),
    ;

    /// The convolution of an input with a kernel, and a bias for each output channel.
    fn conv2d(x: &Self::Image, w: &Self::Image, bias: Option<&Self::Vector>, options: ConvOptions) -> (r: Self::Image)
        requires
            conv_fits(Self::size4(x), Self::size4(w), options),
            Self::format4(x) == Self::format4(w),
            bias matches Some(v) ==> Self::len(v) == Self::size4(w).0 && Self::vector_format(v) == Self::format4(x),
        ensures
            Self::format4(&r) == Self::format4(x),
            image::<Self>(&r) == match bias { None => convolved::<Self>(Self::format4(x), image::<Self>(x), image::<Self>(w), options), Some(v) => plus_channels(convolved::<Self>(Self::format4(x), image::<Self>(x), image::<Self>(w), options), line::<Self>(v)), },
    ;
}

} // verus!
