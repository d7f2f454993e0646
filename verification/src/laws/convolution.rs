//! What a convolution does, entry by entry.
use vstd::prelude::*;

use crate::backend::{ConvOptions, Format};
use crate::scalar::Scalar;

verus! {

use crate::backend::{
    axis_fits, conv_fits, conv_size, convolved, kernel_of, plus_channels, positions, window_of, Model,
};
use crate::burn_sdp::diagonal::squares4;
use crate::laws::arithmetic::{is_ring, ring_add_assoc, ring_units};
use crate::laws::sums::{lemma_dot_sum, lemma_sum_eq, sum_to};
use crate::laws::tensors::{casts_nothing, folds, lemma_cast};
use crate::tensor::{group_tables, Volume};

/// The entry of an image, or zero beside it.
pub open spec fn seen<S: Scalar>(x: Volume<S>, n: int, c: int, i: int, j: int) -> S {
    if 0 <= i && i < x.rows && 0 <= j && j < x.cols {
        x.at(n, c, i, j)
    } else {
        S::s_int(0)
    }
}

/// A sum in two parts.
proof fn lemma_sum_split<S: Scalar>(m: nat, n: nat, f: spec_fn(int) -> S)
    requires
        is_ring::<S>(),
    ensures
        sum_to(m + n, f) == sum_to(m, f).s_add(sum_to(n, |j: int| f(m + j))),
    decreases n,
{
    let g = |j: int| f(m + j);
    if n == 0 {
        ring_units(sum_to(m, f));
    } else {
        let k = (n - 1) as nat;
        lemma_sum_split(m, k, f);
        lemma_sum_eq(k, |j: int| f(m + j), g);
        ring_add_assoc(sum_to(m, f), sum_to(k, g), f(m + n - 1));
        assert(sum_to(n, g) == sum_to(k, g).s_add(g(n - 1)));
    }
}

/// A sum over a table that is stored row by row.
proof fn lemma_sum_rows<S: Scalar>(a: nat, b: nat, f: spec_fn(int) -> S)
    requires
        is_ring::<S>(),
    ensures
        sum_to(a * b, f) == sum_to(a, |i: int| sum_to(b, |j: int| f(i * b + j))),
    decreases a,
{
    let rows = |i: int| sum_to(b, |j: int| f(i * b + j));
    if a == 0 {
        assert(a * b == 0) by (nonlinear_arith)
            requires
                a == 0,
        ;
    } else {
        let k = (a - 1) as nat;
        lemma_sum_rows(k, b, f);
        assert(a * b == k * b + b) by (nonlinear_arith)
            requires
                a == k + 1,
        ;
        lemma_sum_split(k * b, b, f);
        lemma_sum_eq(
            k,
            |i: int| sum_to(b, |j: int| f(i * b + j)),
            rows,
        );
        lemma_sum_eq(b, |j: int| f((k * b) as nat + j), |j: int| f(k * b + j));
        assert(rows(a - 1) == sum_to(b, |j: int| f(k * b + j)));
    }
}

/// The place of an entry, taken apart.
proof fn lemma_place(c: int, q: int, area: int)
    requires
        0 <= q < area,
        0 <= c,
    ensures
        (c * area + q) / area == c,
        (c * area + q) % area == q,
{
    vstd::arithmetic::div_mod::lemma_fundamental_div_mod_converse(c * area + q, area, c, q);
}

/// Every entry of a convolution is the sum, over the input channels of its
/// group and the rows and columns of the kernel, of the kernel's weight for that
/// channel, row and column times the input that it meets: output channel `o`, of
/// group `g`, at position `(p, q)` meets with row `r` and column `s` the entry
/// `(p stride + r dilation - padding, q stride + s dilation - padding)` of
/// channel `g C + c`, and zero beside the image.
pub proof fn law_convolution_entries<M: Model>(
    f: Format,
    x: Volume<M::Elem>,
    w: Volume<M::Elem>,
    options: ConvOptions,
    per: nat,
    g: int,
    n: int,
    o: int,
    p: int,
    q: int,
)
    requires
        is_ring::<M::Elem>(),
        folds::<M>(),
        casts_nothing::<M>(f),
        conv_fits(x.dims(), w.dims(), options),
        per * options.groups == w.batches,
        g * per <= o < (g + 1) * per,
        0 <= g,
        0 <= n < x.batches,
        0 <= o < w.batches,
        0 <= p < conv_size(x.dims(), w.dims(), options).2,
        0 <= q < conv_size(x.dims(), w.dims(), options).3,
    ensures
        convolved::<M>(f, x, w, options).dims() == conv_size(x.dims(), w.dims(), options),
        convolved::<M>(f, x, w, options).at(n, o, p, q) == sum_to(
            w.channels,
            |c: int|
                sum_to(
                    w.rows,
                    |r: int|
                        sum_to(
                            w.cols,
                            |s: int|
                                seen(
                                    x,
                                    n,
                                    g * w.channels + c,
                                    p * options.stride.0 + r * options.dilation.0
                                        - options.padding.0,
                                    q * options.stride.1 + s * options.dilation.1
                                        - options.padding.1,
                                ).s_mul(w.at(o, c, r, s)),
                        ),
                ),
        ),
{
    broadcast use group_tables;

    let zero = M::Elem::s_int(0);
    lemma_cast::<M>(f, zero);
    let window = window_of(x, w.dims(), options, zero, n, o, p, q);
    let kernel = kernel_of(w, o);
    let (k, rows, cols) = (w.channels, w.rows, w.cols);
    let area = rows * cols;
    let len = k * area;
    assert(window.len() == len);
    assert(convolved::<M>(f, x, w, options).at(n, o, p, q) == M::inner4(window, kernel));
    assert(M::inner4(window, kernel) == crate::scalar::dot(window, kernel, window.len())) by {
        reveal(folds);
    }
    lemma_dot_sum(window, kernel, len);
    // The group of the output channel.
    let groups = options.groups as int;
    assert(w.batches as int / groups == per) by {
        vstd::arithmetic::div_mod::lemma_div_multiples_vanish(per as int, groups);
        assert(groups * per == per * groups) by (nonlinear_arith);
    }
    assert((g + 1) * per == g * per + per) by (nonlinear_arith);
    assert(o / per as int == g) by {
        vstd::arithmetic::div_mod::lemma_fundamental_div_mod_converse(
            o,
            per as int,
            g,
            o - g * per,
        );
    }
    let term = |t: int| window[t].s_mul(kernel[t]);
    lemma_sum_eq(len, |t: int| window[t].s_mul(kernel[t]), term);
    lemma_sum_rows(k, area, term);
    let given = |c: int| sum_to(area, |t: int| term(c * area + t));
    let want = |c: int|
        sum_to(
            rows,
            |r: int|
                sum_to(
                    cols,
                    |s: int|
                        seen(
                            x,
                            n,
                            g * w.channels + c,
                            p * options.stride.0 + r * options.dilation.0 - options.padding.0,
                            q * options.stride.1 + s * options.dilation.1 - options.padding.1,
                        ).s_mul(w.at(o, c, r, s)),
                ),
        );
    assert forall|c: int| 0 <= c < k implies #[trigger] given(c) == want(c) by {
        let inner = |t: int| term(c * area + t);
        lemma_sum_rows(rows, cols, inner);
        let a = |r: int| sum_to(cols, |s: int| inner(r * cols + s));
        let b = |r: int|
            sum_to(
                cols,
                |s: int|
                    seen(
                        x,
                        n,
                        g * w.channels + c,
                        p * options.stride.0 + r * options.dilation.0 - options.padding.0,
                        q * options.stride.1 + s * options.dilation.1 - options.padding.1,
                    ).s_mul(w.at(o, c, r, s)),
            );
        assert forall|r: int| 0 <= r < rows implies #[trigger] a(r) == b(r) by {
            let u = |s: int| inner(r * cols + s);
            let v = |s: int|
                seen(
                    x,
                    n,
                    g * w.channels + c,
                    p * options.stride.0 + r * options.dilation.0 - options.padding.0,
                    q * options.stride.1 + s * options.dilation.1 - options.padding.1,
                ).s_mul(w.at(o, c, r, s));
            assert forall|s: int| 0 <= s < cols implies #[trigger] u(s) == v(s) by {
                let t = r * cols + s;
                crate::dense::convolution::lemma_row_major(r, s, rows as int, cols as int);
                crate::dense::convolution::lemma_row_major(c, t, k as int, area as int);
                lemma_place(c, t, area as int);
                lemma_place(r, s, cols as int);
            }
            lemma_sum_eq(cols, u, v);
        }
        lemma_sum_eq(rows, a, b);
    }
    lemma_sum_eq(k, given, want);
}

/// A convolution with a kernel of one entry, stride one and no padding is an
/// affine map of the channels, at every place of the image by itself.
pub proof fn law_small_convolution_is_affine<M: Model>(
    f: Format,
    x: Volume<M::Elem>,
    w: Volume<M::Elem>,
    options: ConvOptions,
    n: int,
    o: int,
    i: int,
    j: int,
)
    requires
        is_ring::<M::Elem>(),
        folds::<M>(),
        casts_nothing::<M>(f),
        conv_fits(x.dims(), w.dims(), options),
        options.groups == 1,
        options.stride == (1usize, 1usize),
        options.padding == (0usize, 0usize),
        w.rows == 1,
        w.cols == 1,
        0 <= n < x.batches,
        0 <= o < w.batches,
        0 <= i < x.rows,
        0 <= j < x.cols,
    ensures
        convolved::<M>(f, x, w, options).dims() == (x.batches, w.batches, x.rows, x.cols),
        convolved::<M>(f, x, w, options).at(n, o, i, j) == sum_to(
            x.channels,
            |c: int| x.at(n, c, i, j).s_mul(w.at(o, c, 0, 0)),
        ),
{
    broadcast use group_tables;

    law_convolution_size(x.dims(), w.dims(), options);
    assert(options.dilation.0 * (w.rows - 1) == 0) by (nonlinear_arith)
        requires
            w.rows == 1,
    ;
    assert(options.dilation.1 * (w.cols - 1) == 0) by (nonlinear_arith)
        requires
            w.cols == 1,
    ;
    let channels = w.batches as int;
    assert(0 * channels == 0 && (0 + 1) * channels == channels && channels * 1 == channels)
        by (nonlinear_arith);
    law_convolution_entries::<M>(f, x, w, options, w.batches, 0, n, o, i, j);
    let term = |c: int, r: int, s: int|
        seen(
            x,
            n,
            0 * w.channels + c,
            i * options.stride.0 + r * options.dilation.0 - options.padding.0,
            j * options.stride.1 + s * options.dilation.1 - options.padding.1,
        ).s_mul(w.at(o, c, r, s));
    let whole = |c: int| sum_to(w.rows, |r: int| sum_to(w.cols, |s: int| term(c, r, s)));
    let given = |c: int|
        sum_to(
            w.rows,
            |r: int|
                sum_to(
                    w.cols,
                    |s: int|
                        seen(
                            x,
                            n,
                            0 * w.channels + c,
                            i * options.stride.0 + r * options.dilation.0 - options.padding.0,
                            j * options.stride.1 + s * options.dilation.1 - options.padding.1,
                        ).s_mul(w.at(o, c, r, s)),
                ),
        );
    let want = |c: int| x.at(n, c, i, j).s_mul(w.at(o, c, 0, 0));
    assert forall|c: int| 0 <= c < w.channels implies #[trigger] given(c) == want(c) by {
        let row = |r: int|
            sum_to(
                w.cols,
                |s: int|
                    seen(
                        x,
                        n,
                        0 * w.channels + c,
                        i * options.stride.0 + r * options.dilation.0 - options.padding.0,
                        j * options.stride.1 + s * options.dilation.1 - options.padding.1,
                    ).s_mul(w.at(o, c, r, s)),
            );
        let col = |s: int|
            seen(
                x,
                n,
                0 * w.channels + c,
                i * options.stride.0 + 0 * options.dilation.0 - options.padding.0,
                j * options.stride.1 + s * options.dilation.1 - options.padding.1,
            ).s_mul(w.at(o, c, 0, s));
        assert(0 * w.channels == 0 && i * 1 == i && j * 1 == j);
        assert(0 * options.dilation.0 == 0 && 0 * options.dilation.1 == 0);
        assert(row(0) == sum_to(w.cols, col));
        crate::laws::sums::lemma_sum_single(w.cols, col, 0);
        crate::laws::sums::lemma_sum_single(w.rows, row, 0);
    }
    lemma_sum_eq(w.channels, given, want);
}

/// The size of a convolution: it keeps the batch, has a channel for every
/// kernel, and along each axis as many positions as fit: the kernel at the last
/// one lies in the padded image, and one stride further it would not.
pub proof fn law_convolution_size(
    x: (nat, nat, nat, nat),
    w: (nat, nat, nat, nat),
    options: ConvOptions,
)
    requires
        conv_fits(x, w, options),
    ensures
        ({
            let (a, b) = (conv_size(x, w, options).2, conv_size(x, w, options).3);
            let (s, d, p) = (options.stride, options.dilation, options.padding);
            &&& conv_size(x, w, options).0 == x.0
            &&& conv_size(x, w, options).1 == w.0
            &&& a >= 1
            &&& (a - 1) * s.0 + d.0 * (w.2 - 1) + 1 <= x.2 + 2 * p.0
            &&& x.2 + 2 * p.0 < a * s.0 + d.0 * (w.2 - 1) + 1
            &&& b >= 1
            &&& (b - 1) * s.1 + d.1 * (w.3 - 1) + 1 <= x.3 + 2 * p.1
            &&& x.3 + 2 * p.1 < b * s.1 + d.1 * (w.3 - 1) + 1
        }),
{
    let (s, d, p) = (options.stride, options.dilation, options.padding);
    lemma_positions(x.2, w.2, s.0 as int, p.0 as int, d.0 as int);
    lemma_positions(x.3, w.3, s.1 as int, p.1 as int, d.1 as int);
}

/// The positions along one axis.
proof fn lemma_positions(extent: nat, kernel: nat, stride: int, padding: int, dilation: int)
    requires
        axis_fits(extent, kernel, stride, padding, dilation),
        padding >= 0,
    ensures
        ({
            let a = positions(extent, kernel, stride, padding, dilation);
            &&& a >= 1
            &&& (a - 1) * stride + dilation * (kernel - 1) + 1 <= extent + 2 * padding
            &&& extent + 2 * padding < a * stride + dilation * (kernel - 1) + 1
        }),
{
    let free = extent + 2 * padding - dilation * (kernel - 1) - 1;
    vstd::arithmetic::div_mod::lemma_fundamental_div_mod(free, stride);
    let k = free / stride;
    assert(k >= 0) by (nonlinear_arith)
        requires
            k == free / stride,
            free >= 0,
            stride > 0,
    ;
    let a = positions(extent, kernel, stride, padding, dilation);
    assert((a - 1) * stride == stride * k) by (nonlinear_arith)
        requires
            a == k + 1,
    ;
    assert(a * stride == stride * k + stride) by (nonlinear_arith)
        requires
            a == k + 1,
    ;
}

/// A bias is added to every place of its own channel, in every image.
pub proof fn law_channel_bias<S: Scalar>(
    x: Volume<S>,
    bias: Seq<S>,
    n: int,
    c: int,
    i: int,
    j: int,
)
    requires
        x.has(n, c, i, j),
    ensures
        plus_channels(x, bias).dims() == x.dims(),
        plus_channels(x, bias).at(n, c, i, j) == x.at(n, c, i, j).s_add(bias[c]),
{
    broadcast use group_tables;

}

/// The kernel of the variances holds the squares of the weights.
pub proof fn law_squared_kernel<S: Scalar>(w: Volume<S>, o: int, c: int, r: int, s: int)
    requires
        w.has(o, c, r, s),
    ensures
        squares4(w).dims() == w.dims(),
        squares4(w).at(o, c, r, s) == w.at(o, c, r, s).s_mul(w.at(o, c, r, s)),
{
    broadcast use group_tables;

}

/// Images of a batch do not meet: an output depends on its own image alone.
pub proof fn law_convolved_images_apart<M: Model>(
    f: Format,
    x: Volume<M::Elem>,
    y: Volume<M::Elem>,
    w: Volume<M::Elem>,
    options: ConvOptions,
    n: int,
    k: int,
    o: int,
    p: int,
    q: int,
)
    requires
        conv_fits(x.dims(), w.dims(), options),
        (x.channels, x.rows, x.cols) == (y.channels, y.rows, y.cols),
        0 <= n < x.batches,
        0 <= o < w.batches,
        0 <= p < conv_size(x.dims(), w.dims(), options).2,
        0 <= q < conv_size(x.dims(), w.dims(), options).3,
        0 <= k < y.batches,
        forall|c: int, i: int, j: int|
            0 <= c < x.channels && 0 <= i < x.rows && 0 <= j < x.cols ==> #[trigger] x.at(
                n,
                c,
                i,
                j,
            ) == y.at(k, c, i, j),
    ensures
        convolved::<M>(f, x, w, options).at(n, o, p, q) == convolved::<M>(f, y, w, options).at(
            k,
            o,
            p,
            q,
        ),
{
    broadcast use group_tables;

    let zero = crate::backend::constant::<M>(f, 0);
    let a = window_of(x, w.dims(), options, zero, n, o, p, q);
    let b = window_of(y, w.dims(), options, zero, k, o, p, q);
    let area = w.rows * w.cols;
    let per = w.batches as int / options.groups as int;
    let group = o / per;
    lemma_group_bound(o, w.batches as int, options.groups as int);
    assert forall|t: int| 0 <= t < a.len() implies a[t] == b[t] by {
        let c = t / area as int;
        lemma_channel_bound(t, w.channels as int, area as int, group, options.groups as int);
    }
    assert(a =~= b);
}

/// The group of an output channel.
proof fn lemma_group_bound(o: int, channels: int, groups: int)
    requires
        0 <= o < channels,
        groups > 0,
        channels % groups == 0,
    ensures
        0 <= o / (channels / groups) < groups,
{
    let per = channels / groups;
    vstd::arithmetic::div_mod::lemma_fundamental_div_mod(channels, groups);
    assert(per > 0) by (nonlinear_arith)
        requires
            channels == groups * per,
            channels > 0,
            groups > 0,
    ;
    vstd::arithmetic::div_mod::lemma_fundamental_div_mod(o, per);
    let g = o / per;
    assert(0 <= g && g < groups) by (nonlinear_arith)
        requires
            o == per * g + o % per,
            0 <= o % per < per,
            0 <= o < groups * per,
            per > 0,
    ;
}

/// The input channel that an entry of a window is read from.
proof fn lemma_channel_bound(t: int, channels: int, area: int, group: int, groups: int)
    requires
        0 <= t < channels * area,
        area >= 0,
        0 <= group < groups,
    ensures
        0 <= group * channels + t / area < channels * groups,
{
    assert(area > 0) by (nonlinear_arith)
        requires
            0 <= t < channels * area,
            area >= 0,
    ;
    vstd::arithmetic::div_mod::lemma_fundamental_div_mod(t, area);
    let c = t / area;
    assert(0 <= c < channels) by (nonlinear_arith)
        requires
            t == area * c + t % area,
            0 <= t % area < area,
            0 <= t < channels * area,
            area > 0,
    ;
    assert(0 <= group * channels + c < channels * groups) by (nonlinear_arith)
        requires
            0 <= c < channels,
            0 <= group < groups,
    ;
}

} // verus!
