//! The windows and kernels of a convolution, laid out as vectors.
use vstd::prelude::*;

use crate::backend::ConvOptions;
use crate::dense::{Dense, DenseImage, DenseVector};
use crate::scalar::Scalar;

verus! {

use crate::backend::{axis_fits, conv_fits, conv_size, image, kernel_of, padded, positions, window_of};
use crate::scalar::dot;
use crate::tensor::group_tables;

/// The place of an entry of a table that is stored row by row.
pub(crate) proof fn lemma_row_major(i: int, j: int, rows: int, cols: int)
    requires
        0 <= i < rows,
        0 <= j < cols,
    ensures
        0 <= i * cols <= i * cols + j < rows * cols,
{
    assert(0 <= i * cols && i * cols + j < rows * cols) by (nonlinear_arith)
        requires
            0 <= i < rows,
            0 <= j < cols,
    ;
}
/// The entry of a convolution at the four indices.
pub(crate) open spec fn conv_entry<S: Scalar>(
    x: &DenseImage<S>,
    w: &DenseImage<S>,
    bias: Option<&DenseVector<S>>,
    options: ConvOptions,
    n: int,
    o: int,
    p: int,
    q: int,
) -> S {
    let window = window_of(
        image::<Dense<S>>(x),
        w.entries.size(),
        options,
        S::s_int(0).s_cast(x.format),
        n,
        o,
        p,
        q,
    );
    let plain = dot(window, kernel_of(image::<Dense<S>>(w), o), window.len());
    match bias {
        None => plain,
        Some(v) => plain.s_add(v.entries@[o]),
    }
}

/// The number of kernel positions along one axis.
pub(crate) fn count_positions(
    extent: usize,
    kernel: usize,
    stride: usize,
    padding: usize,
    dilation: usize,
) -> (r: usize)
    requires
        axis_fits(
            extent as nat,
            kernel as nat,
            stride as int,
            padding as int,
            dilation as int,
        ),
    ensures
        r == positions(
            extent as nat,
            kernel as nat,
            stride as int,
            padding as int,
            dilation as int,
        ),
{
    assert(dilation * (kernel - 1) >= 0) by (nonlinear_arith)
        requires
            dilation >= 0,
            kernel >= 1,
    ;
    let steps: usize = kernel - 1;
    let reach: usize = dilation * steps;
    let room: usize = extent + 2 * padding;
    let free: usize = room - reach - 1;
    assert(free / stride <= free) by (nonlinear_arith)
        requires
            stride > 0,
            free >= 0,
    ;
    free / stride + 1
}

/// Where the kernel reads, along one axis.
proof fn lemma_axis_bound(
    extent: int,
    kernel: int,
    stride: int,
    padding: int,
    dilation: int,
    p: int,
    r: int,
)
    requires
        extent >= 0,
        padding >= 0,
        axis_fits(extent as nat, kernel as nat, stride, padding, dilation),
        0 <= p < positions(extent as nat, kernel as nat, stride, padding, dilation),
        0 <= r < kernel,
    ensures
        0 <= p * stride,
        0 <= r * dilation,
        p * stride + r * dilation < extent + 2 * padding,
{
    let free = extent + 2 * padding - dilation * (kernel - 1) - 1;
    assert(p <= free / stride);
    assert(p * stride <= free) by (nonlinear_arith)
        requires
            p <= free / stride,
            stride > 0,
            free >= 0,
    ;
    assert(r * dilation <= dilation * (kernel - 1)) by (nonlinear_arith)
        requires
            0 <= r <= kernel - 1,
            dilation > 0,
    ;
    assert(0 <= p * stride) by (nonlinear_arith)
        requires
            0 <= p,
            stride > 0,
    ;
    assert(0 <= r * dilation) by (nonlinear_arith)
        requires
            0 <= r,
            dilation > 0,
    ;
}

/// The place of an entry of a kernel that is stored by channels, rows and
/// columns, and back.
proof fn lemma_split(c: int, r: int, s: int, channels: int, rows: int, cols: int)
    requires
        0 <= c < channels,
        0 <= r < rows,
        0 <= s < cols,
    ensures
        ({
            let t = c * (rows * cols) + r * cols + s;
            &&& 0 <= t < channels * (rows * cols)
            &&& t / (rows * cols) == c
            &&& (t % (rows * cols)) / cols == r
            &&& (t % (rows * cols)) % cols == s
        }),
{
    let area = rows * cols;
    let rest = r * cols + s;
    let t = c * area + rest;
    lemma_row_major(r, s, rows, cols);
    assert(t < channels * area) by (nonlinear_arith)
        requires
            t == c * area + rest,
            0 <= rest < area,
            0 <= c <= channels - 1,
    ;
    assert(0 <= c * area) by (nonlinear_arith)
        requires
            0 <= c,
            0 <= area,
    ;
    vstd::arithmetic::div_mod::lemma_fundamental_div_mod_converse(t, area, c, rest);
    vstd::arithmetic::div_mod::lemma_fundamental_div_mod_converse(rest, cols, r, s);
}

/// The input entry at row `i` and column `j` of the padded channel.
fn padded_entry<S: Scalar>(
    x: &DenseImage<S>,
    n: usize,
    c: usize,
    i: usize,
    j: usize,
    padding: (usize, usize),
) -> (r: S)
    requires
        n < x.entries.size().0,
        c < x.entries.size().1,
    ensures
        r == padded(
            image::<Dense<S>>(x),
            n as int,
            c as int,
            i - padding.0,
            j - padding.1,
            S::s_int(0).s_cast(x.format),
        ),
{
    broadcast use group_tables;

    let (_, _, rows, cols) = x.entries.dims();
    if i >= padding.0 && j >= padding.1 && i - padding.0 < rows && j - padding.1 < cols {
        x.entries.get(n, c, i - padding.0, j - padding.1)
    } else {
        S::whole(0).narrowed(x.format)
    }
}

/// The channel group of an output channel is one of the groups.
proof fn lemma_group(o: int, outputs: int, groups: int, channels: int, c: int)
    requires
        0 <= o < outputs,
        groups > 0,
        outputs % groups == 0,
        0 <= c < channels,
    ensures
        outputs / groups > 0,
        0 <= o / (outputs / groups) < groups,
        0 <= (o / (outputs / groups)) * channels,
        (o / (outputs / groups)) * channels + c < channels * groups,
{
    let share = outputs / groups;
    assert(outputs == groups * share) by {
        vstd::arithmetic::div_mod::lemma_fundamental_div_mod(outputs, groups);
    }
    assert(share > 0) by (nonlinear_arith)
        requires
            outputs == groups * share,
            outputs > 0,
            groups > 0,
    ;
    let group = o / share;
    assert(0 <= group < groups) by (nonlinear_arith)
        requires
            group == o / share,
            0 <= o < groups * share,
            share > 0,
    ;
    assert(0 <= group * channels && group * channels + c < channels * groups) by (nonlinear_arith)
        requires
            0 <= group <= groups - 1,
            0 <= c < channels,
    ;
}

/// The input entries that the kernel of output channel `o` meets at position
/// `(p, q)`.
pub(crate) fn window_vector<S: Scalar>(
    x: &DenseImage<S>,
    w: (usize, usize, usize, usize),
    options: ConvOptions,
    n: usize,
    o: usize,
    p: usize,
    q: usize,
) -> (r: Vec<S>)
    requires
        conv_fits(
            x.entries.size(),
            (w.0 as nat, w.1 as nat, w.2 as nat, w.3 as nat),
            options,
        ),
        n < x.entries.size().0,
        o < w.0,
        p < conv_size(
            x.entries.size(),
            (w.0 as nat, w.1 as nat, w.2 as nat, w.3 as nat),
            options,
        ).2,
        q < conv_size(
            x.entries.size(),
            (w.0 as nat, w.1 as nat, w.2 as nat, w.3 as nat),
            options,
        ).3,
    ensures
        r@ == window_of(
            image::<Dense<S>>(x),
            (w.0 as nat, w.1 as nat, w.2 as nat, w.3 as nat),
            options,
            S::s_int(0).s_cast(x.format),
            n as int,
            o as int,
            p as int,
            q as int,
        ),
{
    let (_, depth, height, width) = x.entries.dims();
    let ghost dims = (w.0 as nat, w.1 as nat, w.2 as nat, w.3 as nat);
    let ghost want = window_of(
        image::<Dense<S>>(x),
        dims,
        options,
        S::s_int(0).s_cast(x.format),
        n as int,
        o as int,
        p as int,
        q as int,
    );
    proof {
        if w.1 > 0 {
            lemma_group(o as int, w.0 as int, options.groups as int, w.1 as int, 0);
        } else {
            lemma_group(o as int, w.0 as int, options.groups as int, 1, 0);
        }
    }
    let share: usize = w.0 / options.groups;
    let group: usize = o / share;
    let mut out: Vec<S> = Vec::new();
    let mut c: usize = 0;
    while c < w.1
        invariant
            c <= w.1,
            dims == (w.0 as nat, w.1 as nat, w.2 as nat, w.3 as nat),
            conv_fits(x.entries.size(), dims, options),
            x.entries.size().1 == depth,
            x.entries.size().2 == height,
            x.entries.size().3 == width,
            n < x.entries.size().0,
            o < w.0,
            p < conv_size(x.entries.size(), dims, options).2,
            q < conv_size(x.entries.size(), dims, options).3,
            share == w.0 / options.groups,
            share > 0,
            group == o / share,
            want == window_of(
                image::<Dense<S>>(x),
                dims,
                options,
                S::s_int(0).s_cast(x.format),
                n as int,
                o as int,
                p as int,
                q as int,
            ),
            out@.len() == c * (w.2 * w.3),
            forall|t: int| 0 <= t < out@.len() ==> #[trigger] out@[t] == want[t],
        decreases w.1 - c,
    {
        proof {
            lemma_group(o as int, w.0 as int, options.groups as int, w.1 as int, c as int);
        }
        let channel: usize = group * w.1 + c;
        let mut r: usize = 0;
        while r < w.2
            invariant
                r <= w.2,
                c < w.1,
                dims == (w.0 as nat, w.1 as nat, w.2 as nat, w.3 as nat),
                conv_fits(x.entries.size(), dims, options),
                x.entries.size().1 == depth,
                x.entries.size().2 == height,
                x.entries.size().3 == width,
                n < x.entries.size().0,
                o < w.0,
                p < conv_size(x.entries.size(), dims, options).2,
                q < conv_size(x.entries.size(), dims, options).3,
                share == w.0 / options.groups,
                share > 0,
                group == o / share,
                channel == group * w.1 + c,
                channel < x.entries.size().1,
                want == window_of(
                    image::<Dense<S>>(x),
                    dims,
                    options,
                    S::s_int(0).s_cast(x.format),
                    n as int,
                    o as int,
                    p as int,
                    q as int,
                ),
                out@.len() == c * (w.2 * w.3) + r * w.3,
                forall|t: int| 0 <= t < out@.len() ==> #[trigger] out@[t] == want[t],
            decreases w.2 - r,
        {
            proof {
                lemma_axis_bound(
                    height as int,
                    w.2 as int,
                    options.stride.0 as int,
                    options.padding.0 as int,
                    options.dilation.0 as int,
                    p as int,
                    r as int,
                );
            }
            let i: usize = p * options.stride.0 + r * options.dilation.0;
            let mut s: usize = 0;
            while s < w.3
                invariant
                    s <= w.3,
                    r < w.2,
                    c < w.1,
                    dims == (w.0 as nat, w.1 as nat, w.2 as nat, w.3 as nat),
                    conv_fits(x.entries.size(), dims, options),
                    x.entries.size().1 == depth,
                    x.entries.size().2 == height,
                    x.entries.size().3 == width,
                    n < x.entries.size().0,
                    o < w.0,
                    p < conv_size(x.entries.size(), dims, options).2,
                    q < conv_size(x.entries.size(), dims, options).3,
                    share == w.0 / options.groups,
                    share > 0,
                    group == o / share,
                    channel == group * w.1 + c,
                    channel < x.entries.size().1,
                    i == p * options.stride.0 + r * options.dilation.0,
                    want == window_of(
                        image::<Dense<S>>(x),
                        dims,
                        options,
                        S::s_int(0).s_cast(x.format),
                        n as int,
                        o as int,
                        p as int,
                        q as int,
                    ),
                    out@.len() == c * (w.2 * w.3) + r * w.3 + s,
                    forall|t: int| 0 <= t < out@.len() ==> #[trigger] out@[t] == want[t],
                decreases w.3 - s,
            {
                proof {
                    lemma_axis_bound(
                        width as int,
                        w.3 as int,
                        options.stride.1 as int,
                        options.padding.1 as int,
                        options.dilation.1 as int,
                        q as int,
                        s as int,
                    );
                    lemma_split(c as int, r as int, s as int, w.1 as int, w.2 as int, w.3 as int);
                }
                let j: usize = q * options.stride.1 + s * options.dilation.1;
                let value = padded_entry(x, n, channel, i, j, options.padding);
                assert(value == want[out@.len() as int]);
                out.push(value);
                s += 1;
            }
            assert((r + 1) * w.3 == r * w.3 + w.3) by (nonlinear_arith);
            r += 1;
        }
        assert((c + 1) * (w.2 * w.3) == c * (w.2 * w.3) + w.2 * w.3) by (nonlinear_arith);
        c += 1;
    }
    assert(out@ =~= want);
    out
}

/// The kernel of output channel `o`, by channels, rows and columns.
pub(crate) fn kernel_vector<S: Scalar>(w: &DenseImage<S>, o: usize) -> (r: Vec<S>)
    requires
        o < w.entries.size().0,
    ensures
        r@ == kernel_of(image::<Dense<S>>(w), o as int),
{
    broadcast use group_tables;

    let (_, channels, rows, cols) = w.entries.dims();
    let ghost want = kernel_of(image::<Dense<S>>(w), o as int);
    let mut out: Vec<S> = Vec::new();
    let mut c: usize = 0;
    while c < channels
        invariant
            c <= channels,
            o < w.entries.size().0,
            w.entries.size() == (
                w.entries.size().0,
                channels as nat,
                rows as nat,
                cols as nat,
            ),
            want == kernel_of(image::<Dense<S>>(w), o as int),
            out@.len() == c * (rows * cols),
            forall|t: int| 0 <= t < out@.len() ==> #[trigger] out@[t] == want[t],
        decreases channels - c,
    {
        let mut r: usize = 0;
        while r < rows
            invariant
                r <= rows,
                c < channels,
                o < w.entries.size().0,
                w.entries.size() == (
                    w.entries.size().0,
                    channels as nat,
                    rows as nat,
                    cols as nat,
                ),
                want == kernel_of(image::<Dense<S>>(w), o as int),
                out@.len() == c * (rows * cols) + r * cols,
                forall|t: int| 0 <= t < out@.len() ==> #[trigger] out@[t] == want[t],
            decreases rows - r,
        {
            let mut s: usize = 0;
            while s < cols
                invariant
                    s <= cols,
                    r < rows,
                    c < channels,
                    o < w.entries.size().0,
                    w.entries.size() == (
                        w.entries.size().0,
                        channels as nat,
                        rows as nat,
                        cols as nat,
                    ),
                    want == kernel_of(image::<Dense<S>>(w), o as int),
                    out@.len() == c * (rows * cols) + r * cols + s,
                    forall|t: int| 0 <= t < out@.len() ==> #[trigger] out@[t] == want[t],
                decreases cols - s,
            {
                broadcast use group_tables;

                proof {
                    lemma_split(
                        c as int,
                        r as int,
                        s as int,
                        channels as int,
                        rows as int,
                        cols as int,
                    );
                }
                let value = w.entries.get(o, c, r, s);
                assert(value == want[out@.len() as int]);
                out.push(value);
                s += 1;
            }
            assert((r + 1) * cols == r * cols + cols) by (nonlinear_arith);
            r += 1;
        }
        assert((c + 1) * (rows * cols) == c * (rows * cols) + rows * cols) by (nonlinear_arith);
        c += 1;
    }
    assert(out@ =~= want);
    out
}

} // verus!
