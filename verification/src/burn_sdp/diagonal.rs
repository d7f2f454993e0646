//! Means and variances of independent features.
use vstd::prelude::*;

use crate::backend::{Backend, ConvOptions, Format};
use crate::scalar::Scalar;
use crate::violation::Violation;

verus! {

use crate::backend::{
    axis_fits, constant, conv_fits, convolved, grid, image, line, plus_channels, plus_rows, product,
    Model,
};
use crate::tensor::{both, both4, each, group_tables, Grid, Volume};

/// Mean and per-feature variance of batched Gaussian marginals.
///
/// Both tensors are `[n, d]` (n rows, d features). Variance is the diagonal of
/// the covariance; covariance between features or batch rows is not stored.
#[derive(Clone, Debug)]
pub struct Moments<B: Backend> {
    pub mean: B::Matrix,
    pub var: B::Matrix,
}

impl<B: Backend> Moments<B> {
    /// Whether mean and variance have the same size and format.
    pub open spec fn wf(&self) -> bool {
        moments_fault::<B>(&self.mean, &self.var) is None
    }

    /// Construct matching mean and variance tensors; their contents are not
    /// checked.
    pub fn new(mean: B::Matrix, var: B::Matrix) -> (r: Self)
        requires
            moments_fault::<B>(&mean, &var) is None,
        ensures
            r.mean == mean,
            r.var == var,
            r.wf(),
    {
        Moments { mean, var }
    }
}

/// What keeps a mean and a variance from making up moments, if anything.
pub open spec fn moments_fault<B: Backend>(mean: &B::Matrix, var: &B::Matrix) -> Option<Violation> {
    if B::size(mean) != B::size(var) {
        Some(Violation::MomentsShapes)
    } else if B::format(mean) != B::format(var) {
        Some(Violation::MomentsFormats)
    } else {
        None
    }
}

/// What keeps a mean and a variance from making up moments, if anything.
pub fn check_moments<B: Backend>(mean: &B::Matrix, var: &B::Matrix) -> (r: Option<Violation>)
    ensures
        r == moments_fault::<B>(mean, var),
{
    let a = B::dims(mean);
    let b = B::dims(var);
    if a.0 != b.0 || a.1 != b.1 {
        Some(Violation::MomentsShapes)
    } else if B::format_of(mean) != B::format_of(var) {
        Some(Violation::MomentsFormats)
    } else {
        None
    }
}

/// The squares of the entries.
pub open spec fn squares<S: Scalar>(m: Grid<S>) -> Grid<S> {
    both(m, m, |x: S, y: S| x.s_mul(y))
}

/// The sums of the entries of two tables of equal size.
pub open spec fn sums<S: Scalar>(a: Grid<S>, b: Grid<S>) -> Grid<S> {
    both(a, b, |x: S, y: S| x.s_add(y))
}

/// What keeps an input of the given size and format from an affine map, if
/// anything.
pub open spec fn affine_fault<B: Backend>(
    input: &B::Matrix,
    weight: &B::Matrix,
    bias: Option<B::Vector>,
) -> Option<Violation> {
    if B::size(input).1 != B::size(weight).0 {
        Some(Violation::InputWidth)
    } else if B::format(input) != B::format(weight) {
        Some(Violation::OperandFormats)
    } else {
        match bias {
            None => None,
            Some(b) => if B::len(&b) != B::size(weight).1 {
                Some(Violation::BiasWidth)
            } else if B::vector_format(&b) != B::format(input) {
                Some(Violation::OperandFormats)
            } else {
                None
            },
        }
    }
}

/// What keeps an input from an affine map, if anything.
pub fn check_affine<B: Backend>(
    input: &B::Matrix,
    weight: &B::Matrix,
    bias: &Option<B::Vector>,
) -> (r: Option<Violation>)
    ensures
        r == affine_fault::<B>(input, weight, *bias),
{
    if B::dims(input).1 != B::dims(weight).0 {
        return Some(Violation::InputWidth);
    }
    if B::format_of(input) != B::format_of(weight) {
        return Some(Violation::OperandFormats);
    }
    match bias {
        None => None,
        Some(b) => {
            if B::length(b) != B::dims(weight).1 {
                Some(Violation::BiasWidth)
            } else if B::format_of_vector(b) != B::format_of(input) {
                Some(Violation::OperandFormats)
            } else {
                None
            }
        },
    }
}

/// `x @ weight + bias`, the bias where there is one.
pub open spec fn affine<M: Model>(
    x: Grid<M::Elem>,
    weight: Grid<M::Elem>,
    bias: Option<Seq<M::Elem>>,
) -> Grid<M::Elem> {
    match bias {
        None => product::<M>(x, weight),
        Some(b) => plus_rows(product::<M>(x, weight), b),
    }
}

/// The entries of a bias, where there is one.
pub open spec fn bias_of<M: Model>(bias: Option<M::Vector>) -> Option<Seq<M::Elem>> {
    match bias {
        None => None,
        Some(b) => Some(line::<M>(&b)),
    }
}

/// `x @ weight + bias`.
pub(crate) fn affine_map<B: Backend>(
    x: &B::Matrix,
    weight: &B::Matrix,
    bias: &Option<B::Vector>,
) -> (r: B::Matrix)
    requires
        affine_fault::<B>(x, weight, *bias) is None,
    ensures
        B::format(&r) == B::format(x),
        B::size(&r) == (B::size(x).0, B::size(weight).1),
        grid::<B>(&r) == affine::<B>(grid::<B>(x), grid::<B>(weight), bias_of::<B>(*bias)),
{
    broadcast use group_tables;

    let mapped = B::matmul(x, weight);
    match bias {
        None => mapped,
        Some(b) => B::plus_row(&mapped, b),
    }
}

/// Propagate through an affine map `y = x @ weight + bias`.
///
/// `weight` is `[d_in, d_out]`; `bias` is `[d_out]`. The mean is exact; the
/// variance is `var @ weight^2`, the exact marginal variance of each output when
/// the input covariance is diagonal.
pub fn propagate_linear<B: Backend>(
    m: &Moments<B>,
    weight: B::Matrix,
    bias: Option<B::Vector>,
) -> (r: Moments<B>)
    requires
        m.wf(),
        affine_fault::<B>(&m.mean, &weight, bias) is None,
    ensures
        r.wf(),
        B::format(&r.mean) == B::format(&m.mean),
        grid::<B>(&r.mean) == affine::<B>(
            grid::<B>(&m.mean),
            grid::<B>(&weight),
            bias_of::<B>(bias),
        ),
        grid::<B>(&r.var) == product::<B>(grid::<B>(&m.var), squares(grid::<B>(&weight))),
{
    broadcast use group_tables;

    let mean = affine_map::<B>(&m.mean, &weight, &bias);
    let square = B::times(&weight, &weight);
    let var = B::matmul(&m.var, &square);
    Moments { mean, var }
}

/// What keeps an input from an affine map with uncertain parameters, if
/// anything.
pub open spec fn bayes_fault<B: Backend>(
    m: &Moments<B>,
    w_mean: &B::Matrix,
    w_var: &B::Matrix,
    bias: Option<(B::Vector, B::Vector)>,
) -> Option<Violation> {
    if B::size(w_mean) != B::size(w_var) {
        Some(Violation::WeightShapes)
    } else if B::size(&m.mean).1 != B::size(w_mean).0 {
        Some(Violation::InputWidth)
    } else if B::format(&m.mean) != B::format(w_mean) || B::format(&m.mean) != B::format(w_var) {
        Some(Violation::OperandFormats)
    } else {
        match bias {
            None => None,
            Some((bm, bv)) => if B::len(&bm) != B::len(&bv) {
                Some(Violation::BiasShapes)
            } else if B::len(&bm) != B::size(w_mean).1 {
                Some(Violation::BiasWidths)
            } else if B::vector_format(&bm) != B::format(&m.mean) || B::vector_format(&bv)
                != B::format(&m.mean) {
                Some(Violation::OperandFormats)
            } else {
                None
            },
        }
    }
}

/// What keeps an input from an affine map with uncertain parameters, if
/// anything.
pub fn check_bayes<B: Backend>(
    m: &Moments<B>,
    w_mean: &B::Matrix,
    w_var: &B::Matrix,
    bias: &Option<(B::Vector, B::Vector)>,
) -> (r: Option<Violation>)
    ensures
        r == bayes_fault::<B>(m, w_mean, w_var, *bias),
{
    let size = B::dims(w_mean);
    let other = B::dims(w_var);
    let format = B::format_of(&m.mean);
    if size.0 != other.0 || size.1 != other.1 {
        return Some(Violation::WeightShapes);
    }
    if B::dims(&m.mean).1 != size.0 {
        return Some(Violation::InputWidth);
    }
    if format != B::format_of(w_mean) || format != B::format_of(w_var) {
        return Some(Violation::OperandFormats);
    }
    match bias {
        None => None,
        Some((bm, bv)) => {
            if B::length(bm) != B::length(bv) {
                Some(Violation::BiasShapes)
            } else if B::length(bm) != size.1 {
                Some(Violation::BiasWidths)
            } else if B::format_of_vector(bm) != format || B::format_of_vector(bv) != format {
                Some(Violation::OperandFormats)
            } else {
                None
            }
        },
    }
}

/// The variance of `x @ W` for independent uncertain `x` and `W`:
/// `mean_x^2 @ w_var + var_x @ mean_W^2 + var_x @ w_var`.
pub open spec fn bayes_variance<M: Model>(
    mean: Grid<M::Elem>,
    var: Grid<M::Elem>,
    w_mean: Grid<M::Elem>,
    w_var: Grid<M::Elem>,
) -> Grid<M::Elem> {
    sums(
        sums(product::<M>(squares(mean), w_var), product::<M>(var, squares(w_mean))),
        product::<M>(var, w_var),
    )
}

/// Propagate through `y = x @ W + b` where both inputs and weights are uncertain
/// and all elements independent.
///
/// `var_out = mean_x^2 @ w_var + var_x @ mean_W^2 + var_x @ w_var + b_var`: the
/// first term is the parameter-variance contribution, the second the
/// input-variance propagation, the third the cross term. Shared uncertain
/// weights also induce covariance across batch rows, which is not retained.
pub fn propagate_linear_bayes<B: Backend>(
    m: &Moments<B>,
    w_mean: B::Matrix,
    w_var: B::Matrix,
    bias: Option<(B::Vector, B::Vector)>,
) -> (r: Moments<B>)
    requires
        m.wf(),
        bayes_fault::<B>(m, &w_mean, &w_var, bias) is None,
    ensures
        r.wf(),
        B::format(&r.mean) == B::format(&m.mean),
        grid::<B>(&r.mean) == match bias {
            None => product::<B>(grid::<B>(&m.mean), grid::<B>(&w_mean)),
            Some((bm, bv)) => plus_rows(
                product::<B>(grid::<B>(&m.mean), grid::<B>(&w_mean)),
                line::<B>(&bm),
            ),
        },
        grid::<B>(&r.var) == match bias {
            None => bayes_variance::<B>(
                grid::<B>(&m.mean),
                grid::<B>(&m.var),
                grid::<B>(&w_mean),
                grid::<B>(&w_var),
            ),
            Some((bm, bv)) => plus_rows(
                bayes_variance::<B>(
                    grid::<B>(&m.mean),
                    grid::<B>(&m.var),
                    grid::<B>(&w_mean),
                    grid::<B>(&w_var),
                ),
                line::<B>(&bv),
            ),
        },
{
    broadcast use group_tables;

    let mean = B::matmul(&m.mean, &w_mean);
    let w_square = B::times(&w_mean, &w_mean);
    let x_square = B::times(&m.mean, &m.mean);
    let parameters = B::matmul(&x_square, &w_var);
    let inputs = B::matmul(&m.var, &w_square);
    let crossed = B::matmul(&m.var, &w_var);
    let first = B::plus(&parameters, &inputs);
    let var = B::plus(&first, &crossed);
    match bias {
        None => Moments { mean, var },
        Some((bm, bv)) => {
            let shifted = B::plus_row(&mean, &bm);
            let widened = B::plus_row(&var, &bv);
            Moments { mean: shifted, var: widened }
        },
    }
}

/// What keeps moments from left multiplication by `a`, if anything.
pub open spec fn left_fault<B: Backend>(a: &B::Matrix, m: &Moments<B>) -> Option<Violation> {
    if B::size(a).1 != B::size(&m.mean).0 {
        Some(Violation::InputWidth)
    } else if B::format(a) != B::format(&m.mean) {
        Some(Violation::OperandFormats)
    } else {
        None
    }
}

/// What keeps moments from left multiplication by `a`, if anything.
pub fn check_left<B: Backend>(a: &B::Matrix, m: &Moments<B>) -> (r: Option<Violation>)
    ensures
        r == left_fault::<B>(a, m),
{
    if B::dims(a).1 != B::dims(&m.mean).0 {
        Some(Violation::InputWidth)
    } else if B::format_of(a) != B::format_of(&m.mean) {
        Some(Violation::OperandFormats)
    } else {
        None
    }
}

/// Propagate through left multiplication by a fixed matrix `y = a @ x`, as in a
/// message-passing step of a graph network.
///
/// For independent rows with diagonal variance the output variance is
/// `a^2 @ var`; correlations between rows are dropped.
pub fn propagate_matmul_left<B: Backend>(a: B::Matrix, m: &Moments<B>) -> (r: Moments<B>)
    requires
        m.wf(),
        left_fault::<B>(&a, m) is None,
    ensures
        r.wf(),
        B::format(&r.mean) == B::format(&m.mean),
        grid::<B>(&r.mean) == product::<B>(grid::<B>(&a), grid::<B>(&m.mean)),
        grid::<B>(&r.var) == product::<B>(squares(grid::<B>(&a)), grid::<B>(&m.var)),
{
    broadcast use group_tables;

    let mean = B::matmul(&a, &m.mean);
    let square = B::times(&a, &a);
    let var = B::matmul(&square, &m.var);
    Moments { mean, var }
}

/// What keeps a skip and a branch from being added, if anything.
pub open spec fn residual_fault<B: Backend>(skip: &Moments<B>, branch: &Moments<B>) -> Option<
    Violation,
> {
    if B::size(&skip.mean) != B::size(&branch.mean) {
        Some(Violation::ResidualShapes)
    } else if B::format(&skip.mean) != B::format(&branch.mean) {
        Some(Violation::OperandFormats)
    } else {
        None
    }
}

/// What keeps a skip and a branch from being added, if anything.
pub fn check_residual<B: Backend>(skip: &Moments<B>, branch: &Moments<B>) -> (r: Option<Violation>)
    ensures
        r == residual_fault::<B>(skip, branch),
{
    let a = B::dims(&skip.mean);
    let b = B::dims(&branch.mean);
    if a.0 != b.0 || a.1 != b.1 {
        Some(Violation::ResidualShapes)
    } else if B::format_of(&skip.mean) != B::format_of(&branch.mean) {
        Some(Violation::OperandFormats)
    } else {
        None
    }
}

/// Combine a residual skip and a branch `y = skip + branch` under the
/// independence approximation.
///
/// This ignores the covariance of skip and branch. Use
/// [`propagate_residual_add_correlated`] when that covariance is available.
pub fn propagate_residual_add<B: Backend>(skip: &Moments<B>, branch: &Moments<B>) -> (r: Moments<B>)
    requires
        skip.wf(),
        branch.wf(),
        residual_fault::<B>(skip, branch) is None,
    ensures
        r.wf(),
        B::format(&r.mean) == B::format(&skip.mean),
        grid::<B>(&r.mean) == sums(grid::<B>(&skip.mean), grid::<B>(&branch.mean)),
        grid::<B>(&r.var) == sums(grid::<B>(&skip.var), grid::<B>(&branch.var)),
{
    broadcast use group_tables;

    let mean = B::plus(&skip.mean, &branch.mean);
    let var = B::plus(&skip.var, &branch.var);
    Moments { mean, var }
}

/// What keeps a skip, a branch and their covariance from being combined, if
/// anything.
pub open spec fn correlated_fault<B: Backend>(
    skip: &Moments<B>,
    branch: &Moments<B>,
    skip_branch_cov: &B::Matrix,
) -> Option<Violation> {
    if B::size(&skip.mean) != B::size(&branch.mean) {
        Some(Violation::ResidualShapes)
    } else if B::size(&skip.mean) != B::size(skip_branch_cov) {
        Some(Violation::ResidualCrossShape)
    } else if B::format(&skip.mean) != B::format(&branch.mean) || B::format(&skip.mean)
        != B::format(skip_branch_cov) {
        Some(Violation::OperandFormats)
    } else {
        None
    }
}

/// What keeps a skip, a branch and their covariance from being combined, if
/// anything.
pub fn check_correlated<B: Backend>(
    skip: &Moments<B>,
    branch: &Moments<B>,
    skip_branch_cov: &B::Matrix,
) -> (r: Option<Violation>)
    ensures
        r == correlated_fault::<B>(skip, branch, skip_branch_cov),
{
    let a = B::dims(&skip.mean);
    let b = B::dims(&branch.mean);
    let c = B::dims(skip_branch_cov);
    let format = B::format_of(&skip.mean);
    if a.0 != b.0 || a.1 != b.1 {
        Some(Violation::ResidualShapes)
    } else if a.0 != c.0 || a.1 != c.1 {
        Some(Violation::ResidualCrossShape)
    } else if format != B::format_of(&branch.mean) || format != B::format_of(skip_branch_cov) {
        Some(Violation::OperandFormats)
    } else {
        None
    }
}

/// Twice the entries, in format `f`.
pub open spec fn doubled<M: Model>(f: Format, m: Grid<M::Elem>) -> Grid<M::Elem> {
    each(m, |x: M::Elem| x.s_mul(constant::<M>(f, 2)))
}

/// Combine `y = skip + branch` with the covariance of skip and branch, entry by
/// entry: `Var(y) = Var(skip) + Var(branch) + 2 Cov(skip, branch)`.
///
/// Values are not checked; invalid joint moments can produce negative variance.
pub fn propagate_residual_add_correlated<B: Backend>(
    skip: &Moments<B>,
    branch: &Moments<B>,
    skip_branch_cov: B::Matrix,
) -> (r: Moments<B>)
    requires
        skip.wf(),
        branch.wf(),
        correlated_fault::<B>(skip, branch, &skip_branch_cov) is None,
    ensures
        r.wf(),
        B::format(&r.mean) == B::format(&skip.mean),
        grid::<B>(&r.mean) == sums(grid::<B>(&skip.mean), grid::<B>(&branch.mean)),
        grid::<B>(&r.var) == sums(
            sums(grid::<B>(&skip.var), grid::<B>(&branch.var)),
            doubled::<B>(B::format(&skip.mean), grid::<B>(&skip_branch_cov)),
        ),
{
    broadcast use group_tables;

    let mean = B::plus(&skip.mean, &branch.mean);
    let own = B::plus(&skip.var, &branch.var);
    let shared = B::scaled(&skip_branch_cov, B::Elem::whole(2));
    let var = B::plus(&own, &shared);
    Moments { mean, var }
}

/// The squares of the entries of a four-dimensional table.
pub open spec fn squares4<S: Scalar>(x: Volume<S>) -> Volume<S> {
    both4(x, x, |a: S, b: S| a.s_mul(b))
}

/// What keeps tensors from being convolved, if anything.
pub open spec fn conv_fault<B: Backend>(
    mean: &B::Image,
    var: &B::Image,
    weight: &B::Image,
    bias: Option<B::Vector>,
    options: ConvOptions,
) -> Option<Violation> {
    if B::size4(mean) != B::size4(var) {
        Some(Violation::ConvolutionShapes)
    } else if !conv_fits(B::size4(mean), B::size4(weight), options) || (bias matches Some(b)
        && B::len(&b) != B::size4(weight).0) {
        Some(Violation::ConvolutionFit)
    } else if B::format4(mean) != B::format4(var) || B::format4(mean) != B::format4(weight) || (
    bias matches Some(b) && B::vector_format(&b) != B::format4(mean)) {
        Some(Violation::OperandFormats)
    } else {
        None
    }
}

/// Whether a kernel fits the padded input along one axis.
fn check_axis(extent: usize, kernel: usize, stride: usize, padding: usize, dilation: usize) -> (r:
    bool)
    ensures
        r == axis_fits(
            extent as nat,
            kernel as nat,
            stride as int,
            padding as int,
            dilation as int,
        ),
{
    if stride == 0 || dilation == 0 || kernel == 0 {
        return false;
    }
    let steps: usize = kernel - 1;
    assert(dilation * steps <= 0xffff_ffff_ffff_ffff * 0xffff_ffff_ffff_ffff) by (nonlinear_arith)
        requires
            dilation <= 0xffff_ffff_ffff_ffff,
            steps <= 0xffff_ffff_ffff_ffff,
    ;
    assert(dilation * steps >= 0) by (nonlinear_arith);
    let reach: u128 = (dilation as u128) * (steps as u128) + 1;
    let room: u128 = (extent as u128) + 2 * (padding as u128);
    reach <= room && room <= usize::MAX as u128
}

/// Whether a convolution is defined.
fn check_fit(
    x: (usize, usize, usize, usize),
    w: (usize, usize, usize, usize),
    options: ConvOptions,
) -> (r: bool)
    ensures
        r == conv_fits(
            (x.0 as nat, x.1 as nat, x.2 as nat, x.3 as nat),
            (w.0 as nat, w.1 as nat, w.2 as nat, w.3 as nat),
            options,
        ),
{
    if options.groups == 0 {
        return false;
    }
    assert(w.1 * options.groups <= 0xffff_ffff_ffff_ffff * 0xffff_ffff_ffff_ffff)
        by (nonlinear_arith)
        requires
            w.1 <= 0xffff_ffff_ffff_ffff,
            options.groups <= 0xffff_ffff_ffff_ffff,
    ;
    assert(w.1 * options.groups >= 0) by (nonlinear_arith);
    (w.1 as u128) * (options.groups as u128) == x.1 as u128 && w.0 % options.groups == 0
        && check_axis(x.2, w.2, options.stride.0, options.padding.0, options.dilation.0)
        && check_axis(x.3, w.3, options.stride.1, options.padding.1, options.dilation.1)
}

/// What keeps tensors from being convolved, if anything.
pub fn check_conv2d<B: Backend>(
    mean: &B::Image,
    var: &B::Image,
    weight: &B::Image,
    bias: &Option<B::Vector>,
    options: ConvOptions,
) -> (r: Option<Violation>)
    ensures
        r == conv_fault::<B>(mean, var, weight, *bias, options),
{
    let a = B::dims4(mean);
    let b = B::dims4(var);
    let w = B::dims4(weight);
    let format = B::format_of4(mean);
    if a.0 != b.0 || a.1 != b.1 || a.2 != b.2 || a.3 != b.3 {
        return Some(Violation::ConvolutionShapes);
    }
    if !check_fit(a, w, options) {
        return Some(Violation::ConvolutionFit);
    }
    let mut bias_format = format;
    if let Some(v) = bias {
        if B::length(v) != w.0 {
            return Some(Violation::ConvolutionFit);
        }
        bias_format = B::format_of_vector(v);
    }
    if format != B::format_of4(var) || format != B::format_of4(weight) || bias_format != format {
        Some(Violation::OperandFormats)
    } else {
        None
    }
}

/// Propagate independent Gaussian inputs through a two-dimensional convolution.
///
/// Output means and marginal variances are exact:
/// `mean_out = conv(mean, w) + b`, `var_out = conv(var, w^2)`. Shared inputs
/// induce correlations between output positions and channels, which are not
/// represented by the returned variances.
pub fn propagate_conv2d<B: Backend>(
    mean: B::Image,
    var: B::Image,
    weight: B::Image,
    bias: Option<B::Vector>,
    options: ConvOptions,
) -> (r: (B::Image, B::Image))
    requires
        conv_fault::<B>(&mean, &var, &weight, bias, options) is None,
    ensures
        B::format4(&r.0) == B::format4(&mean),
        B::format4(&r.1) == B::format4(&mean),
        image::<B>(&r.0) == match bias {
            None => convolved::<B>(
                B::format4(&mean),
                image::<B>(&mean),
                image::<B>(&weight),
                options,
            ),
            Some(b) => plus_channels(
                convolved::<B>(
                    B::format4(&mean),
                    image::<B>(&mean),
                    image::<B>(&weight),
                    options,
                ),
                line::<B>(&b),
            ),
        },
        image::<B>(&r.1) == convolved::<B>(
            B::format4(&mean),
            image::<B>(&var),
            squares4(image::<B>(&weight)),
            options,
        ),
{
    broadcast use group_tables;

    let square = B::times4(&weight, &weight);
    let bias_ref = match &bias {
        None => None,
        Some(b) => Some(b),
    };
    let mean_out = B::conv2d(&mean, &weight, bias_ref, options);
    let var_out = B::conv2d(&var, &square, None, options);
    (mean_out, var_out)
}

} // verus!
