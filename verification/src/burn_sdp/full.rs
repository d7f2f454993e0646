//! Means and covariance matrices.
use vstd::prelude::*;

use crate::backend::{Backend, Format};
use crate::burn_sdp::diagonal::{affine_map, check_moments};
use crate::burn_sdp::rectify::{gaussian_relu_terms, limited_moments, GaussianReluTerms};
use crate::scalar::{one_half, Scalar};
use crate::violation::Violation;

verus! {

use crate::backend::{block, constant, grid, Model};
use crate::burn_sdp::diagonal::{affine, affine_fault, bias_of, moments_fault};
use crate::burn_sdp::rectify::{
    alpha_of, density_of, is_active, is_fixed, is_inactive, relu_means, relu_variance,
    safe_deviation, smooth_mass,
};
use crate::gaussian::clamped;
use crate::scalar::half;
use crate::tensor::{
    both, group_tables, lemma_block_ext, lemma_both_ext, lemma_grid_ext, stack, table, Block, Grid,
};

/// A batch of means and within-row covariance matrices.
///
/// `mean` is `[n, d]`, `cov` is `[n, d, d]`. Each row describes one distribution;
/// covariance between rows is not represented. Each covariance matrix must be
/// symmetric positive semidefinite; tensor contents are not checked.
#[derive(Clone, Debug)]
pub struct MomentsFull<B: Backend> {
    pub mean: B::Matrix,
    pub cov: B::Cube,
}

/// What keeps a mean and a covariance from making up moments, if anything.
pub open spec fn full_fault<B: Backend>(mean: &B::Matrix, cov: &B::Cube) -> Option<Violation> {
    if B::size3(cov) != (B::size(mean).0, B::size(mean).1, B::size(mean).1) {
        Some(Violation::CovarianceShape)
    } else if B::format3(cov) != B::format(mean) {
        Some(Violation::CovarianceFormats)
    } else {
        None
    }
}

/// What keeps a mean and a covariance from making up moments, if anything.
pub fn check_full<B: Backend>(mean: &B::Matrix, cov: &B::Cube) -> (r: Option<Violation>)
    ensures
        r == full_fault::<B>(mean, cov),
{
    let a = B::dims(mean);
    let c = B::dims3(cov);
    if c.0 != a.0 || c.1 != a.1 || c.2 != a.1 {
        Some(Violation::CovarianceShape)
    } else if B::format_of3(cov) != B::format_of(mean) {
        Some(Violation::CovarianceFormats)
    } else {
        None
    }
}

/// What keeps a feature count from having an identity matrix, if anything.
pub open spec fn width_fault(d: nat) -> Option<Violation> {
    if d * d > usize::MAX {
        Some(Violation::FeatureCount)
    } else {
        None
    }
}

/// What keeps a feature count from having an identity matrix, if anything.
pub fn check_width(d: usize) -> (r: Option<Violation>)
    ensures
        r == width_fault(d as nat),
{
    match d.checked_mul(d) {
        None => Some(Violation::FeatureCount),
        Some(_) => None,
    }
}

/// What keeps a mean and a diagonal variance from making up moments with a
/// covariance, if anything.
pub open spec fn diagonal_fault<B: Backend>(mean: &B::Matrix, var: &B::Matrix) -> Option<
    Violation,
> {
    match moments_fault::<B>(mean, var) {
        Some(fault) => Some(fault),
        None => width_fault(B::size(mean).1),
    }
}

/// One on the diagonal and zero elsewhere.
pub open spec fn kronecker(i: int, j: int) -> int {
    if i == j {
        1
    } else {
        0
    }
}

/// The entry of the identity matrix in format `f`.
pub open spec fn unit<M: Model>(f: Format, i: int, j: int) -> M::Elem {
    constant::<M>(f, kronecker(i, j))
}

/// The `d x d` identity in the format of `like`.
pub(crate) fn eye<B: Backend>(d: usize, like: &B::Matrix) -> (r: B::Matrix)
    requires
        width_fault(d as nat) is None,
    ensures
        B::format(&r) == B::format(like),
        grid::<B>(&r) == table(
            d as nat,
            d as nat,
            |i: int, j: int| unit::<B>(B::format(like), i, j),
        ),
{
    broadcast use group_tables;

    let mut entries: Vec<B::Elem> = Vec::new();
    let count: usize = d * d;
    let mut i: usize = 0;
    while i < d
        invariant
            i <= d,
            count == d * d,
            entries@.len() == i * d,
            forall|a: int, b: int|
                0 <= a < i && 0 <= b < d ==> #[trigger] entries@[a * d + b] == B::Elem::s_int(kronecker(a, b)),
        decreases d - i,
    {
        let mut j: usize = 0;
        assert(i * d + d <= d * d) by (nonlinear_arith)
            requires
                i < d,
        ;
        while j < d
            invariant
                i < d,
                j <= d,
                i * d + d <= count,
                entries@.len() == i * d + j,
                forall|a: int, b: int|
                    0 <= a < i && 0 <= b < d ==> #[trigger] entries@[a * d + b] == B::Elem::s_int(kronecker(a, b)),
                forall|b: int|
                    0 <= b < j ==> #[trigger] entries@[i * d + b] == B::Elem::s_int(kronecker(i as int, b)),
            decreases d - j,
        {
            let ghost before = entries@;
            let value = if i == j {
                B::Elem::whole(1)
            } else {
                B::Elem::whole(0)
            };
            entries.push(value);
            assert forall|a: int, b: int| 0 <= a < i && 0 <= b < d implies #[trigger] entries@[a * d
                + b] == B::Elem::s_int(kronecker(a, b)) by {
                assert(0 <= a * d + b < i * d) by (nonlinear_arith)
                    requires
                        0 <= a < i,
                        0 <= b < d,
                ;
                assert(entries@[a * d + b] == before[a * d + b]);
            }
            j += 1;
        }
        assert((i + 1) * d == i * d + d) by (nonlinear_arith);
        assert forall|a: int, b: int| 0 <= a < i + 1 && 0 <= b < d implies #[trigger] entries@[a * d
            + b] == B::Elem::s_int(kronecker(a, b)) by {
            if a == i {
                assert(entries@[i * d + b] == B::Elem::s_int(kronecker(i as int, b)));
            }
        }
        i += 1;
    }
    let r = B::matrix_like(entries, d, d, like);
    proof {
        lemma_grid_ext(
            grid::<B>(&r),
            table(d as nat, d as nat, |i: int, j: int| unit::<B>(B::format(like), i, j)),
        );
    }
    r
}

/// The covariance matrices with the given variances on the diagonal.
pub open spec fn diagonal_blocks<M: Model>(f: Format, var: Grid<M::Elem>) -> Block<M::Elem> {
    stack(
        var.rows,
        var.cols,
        var.cols,
        |b: int, i: int, j: int| var.at(b, i).s_mul(unit::<M>(f, i, j)),
    )
}

/// Row `i` of layer `b`, with everything off the diagonal multiplied by zero.
pub open spec fn masked_row<M: Model>(f: Format, cov: Block<M::Elem>, b: int, i: int) -> Seq<
    M::Elem,
> {
    Seq::new(cov.cols, |j: int| cov.at(b, i, j).s_mul(unit::<M>(f, i, j)))
}

/// The diagonals of the covariance matrices.
pub open spec fn diagonals<M: Model>(f: Format, cov: Block<M::Elem>) -> Grid<M::Elem> {
    table(cov.layers, cov.rows, |b: int, i: int| M::sum(masked_row::<M>(f, cov, b, i)))
}

/// Variances as the diagonals of covariance matrices, given the identity.
fn on_diagonal<B: Backend>(var: &B::Matrix, eye_d: &B::Matrix) -> (r: B::Cube)
    requires
        B::format(eye_d) == B::format(var),
        grid::<B>(eye_d) == table(
            B::size(var).1,
            B::size(var).1,
            |i: int, j: int| unit::<B>(B::format(var), i, j),
        ),
    ensures
        B::format3(&r) == B::format(var),
        block::<B>(&r) == diagonal_blocks::<B>(B::format(var), grid::<B>(var)),
{
    broadcast use group_tables;

    let (n, d) = B::dims(var);
    let wide = B::across(var, d);
    let units = B::repeated(eye_d, n);
    let r = B::times3(&wide, &units);
    proof {
        lemma_block_ext(
            block::<B>(&r),
            diagonal_blocks::<B>(B::format(var), grid::<B>(var)),
        );
    }
    r
}

/// The diagonals of covariance matrices, given the identity.
fn read_diagonal<B: Backend>(cov: &B::Cube, eye_d: &B::Matrix) -> (r: B::Matrix)
    requires
        B::format(eye_d) == B::format3(cov),
        B::size3(cov).1 == B::size3(cov).2,
        grid::<B>(eye_d) == table(
            B::size3(cov).1,
            B::size3(cov).1,
            |i: int, j: int| unit::<B>(B::format3(cov), i, j),
        ),
    ensures
        B::format(&r) == B::format3(cov),
        B::size(&r) == (B::size3(cov).0, B::size3(cov).1),
        grid::<B>(&r) == diagonals::<B>(B::format3(cov), block::<B>(cov)),
{
    broadcast use group_tables;

    let (n, d, _) = B::dims3(cov);
    let units = B::repeated(eye_d, n);
    let masked = B::times3(cov, &units);
    let r = B::row_sums(&masked);
    proof {
        let f = B::format3(cov);
        let c = block::<B>(cov);
        assert forall|b: int, i: int| grid::<B>(&r).has(b, i) implies #[trigger] grid::<B>(&r).at(
            b,
            i,
        ) == diagonals::<B>(f, c).at(b, i) by {
            assert(block::<B>(&masked).layer(b).row(i) =~= masked_row::<B>(f, c, b, i));
        }
        lemma_grid_ext(grid::<B>(&r), diagonals::<B>(f, c));
    }
    r
}

impl<B: Backend> MomentsFull<B> {
    /// Whether mean and covariance fit each other in size and format.
    pub open spec fn wf(&self) -> bool {
        full_fault::<B>(&self.mean, &self.cov) is None
    }

    /// Construct means `[n, d]` and covariance matrices `[n, d, d]`; contents
    /// are not inspected.
    pub fn new(mean: B::Matrix, cov: B::Cube) -> (r: Self)
        requires
            full_fault::<B>(&mean, &cov) is None,
        ensures
            r.mean == mean,
            r.cov == cov,
            r.wf(),
    {
        MomentsFull { mean, cov }
    }

    /// Build from a diagonal variance `[n, d]` of independent input features.
    pub fn from_diagonal(mean: B::Matrix, var: B::Matrix) -> (r: Self)
        requires
            diagonal_fault::<B>(&mean, &var) is None,
        ensures
            r.wf(),
            r.mean == mean,
            block::<B>(&r.cov) == diagonal_blocks::<B>(B::format(&mean), grid::<B>(&var)),
    {
        broadcast use group_tables;

        let (_, d) = B::dims(&var);
        let eye_d = eye::<B>(d, &var);
        let cov = on_diagonal::<B>(&var, &eye_d);
        MomentsFull { mean, cov }
    }

    /// Per-feature variance, the diagonal of the covariance, shape `[n, d]`.
    pub fn variance(&self) -> (r: B::Matrix)
        requires
            self.wf(),
            width_fault(B::size(&self.mean).1) is None,
        ensures
            B::format(&r) == B::format(&self.mean),
            B::size(&r) == B::size(&self.mean),
            grid::<B>(&r) == diagonals::<B>(B::format(&self.mean), block::<B>(&self.cov)),
    {
        let (_, d, _) = B::dims3(&self.cov);
        let eye_d = eye::<B>(d, &self.mean);
        read_diagonal::<B>(&self.cov, &eye_d)
    }
}

/// What keeps a mean and a diagonal variance from making up moments with a
/// covariance, if anything.
pub fn check_diagonal<B: Backend>(mean: &B::Matrix, var: &B::Matrix) -> (r: Option<Violation>)
    ensures
        r == diagonal_fault::<B>(mean, var),
{
    match check_moments::<B>(mean, var) {
        Some(fault) => Some(fault),
        None => check_width(B::dims(mean).1),
    }
}

/// The layers of `c` times `w`.
pub open spec fn right_product<M: Model>(c: Block<M::Elem>, w: Grid<M::Elem>) -> Block<M::Elem> {
    stack(c.layers, c.rows, w.cols, |n: int, i: int, j: int| M::inner3(c.layer(n).row(i), w.col(j)))
}

/// The transpose of `w` times the layers of `c`.
pub open spec fn left_product<M: Model>(w: Grid<M::Elem>, c: Block<M::Elem>) -> Block<M::Elem> {
    stack(c.layers, w.cols, c.cols, |n: int, i: int, j: int| M::inner3(w.col(i), c.layer(n).col(j)))
}

/// The layers of a cube times a matrix.
pub(crate) fn times_matrix<B: Backend>(c: &B::Cube, w: &B::Matrix) -> (r: B::Cube)
    requires
        B::size3(c).2 == B::size(w).0,
        B::format3(c) == B::format(w),
    ensures
        B::format3(&r) == B::format3(c),
        B::size3(&r) == (B::size3(c).0, B::size3(c).1, B::size(w).1),
        block::<B>(&r) == right_product::<B>(block::<B>(c), grid::<B>(w)),
{
    broadcast use group_tables;

    let (n, _, _) = B::dims3(c);
    let copies = B::repeated(w, n);
    let r = B::matmul3(c, &copies);
    proof {
        assert forall|b: int, i: int, j: int| block::<B>(&r).has(b, i, j) implies #[trigger] block::<
            B,
        >(&r).at(b, i, j) == right_product::<B>(block::<B>(c), grid::<B>(w)).at(b, i, j) by {
            assert(block::<B>(&copies).layer(b).col(j) =~= grid::<B>(w).col(j));
        }
        lemma_block_ext(block::<B>(&r), right_product::<B>(block::<B>(c), grid::<B>(w)));
    }
    r
}

/// The transpose of a matrix times the layers of a cube.
fn times_layers<B: Backend>(w: &B::Matrix, c: &B::Cube) -> (r: B::Cube)
    requires
        B::size3(c).1 == B::size(w).0,
        B::format3(c) == B::format(w),
    ensures
        B::format3(&r) == B::format3(c),
        B::size3(&r) == (B::size3(c).0, B::size(w).1, B::size3(c).2),
        block::<B>(&r) == left_product::<B>(grid::<B>(w), block::<B>(c)),
{
    broadcast use group_tables;

    let (n, _, _) = B::dims3(c);
    let turned = B::transposed(w);
    let copies = B::repeated(&turned, n);
    let r = B::matmul3(&copies, c);
    proof {
        assert forall|b: int, i: int, j: int| block::<B>(&r).has(b, i, j) implies #[trigger] block::<
            B,
        >(&r).at(b, i, j) == left_product::<B>(grid::<B>(w), block::<B>(c)).at(b, i, j) by {
            assert(block::<B>(&copies).layer(b).row(i) =~= grid::<B>(w).col(i));
        }
        lemma_block_ext(block::<B>(&r), left_product::<B>(grid::<B>(w), block::<B>(c)));
    }
    r
}

/// Full-covariance affine map `y = x W + b`: the covariance `W^T cov W` is
/// exact.
pub fn propagate_linear_full<B: Backend>(
    m: &MomentsFull<B>,
    weight: B::Matrix,
    bias: Option<B::Vector>,
) -> (r: MomentsFull<B>)
    requires
        m.wf(),
        affine_fault::<B>(&m.mean, &weight, bias) is None,
    ensures
        r.wf(),
        B::format(&r.mean) == B::format(&m.mean),
        grid::<B>(&r.mean) == affine::<B>(
            grid::<B>(&m.mean),
            grid::<B>(&weight),
            bias_of::<B>(bias),
        ),
        block::<B>(&r.cov) == left_product::<B>(
            grid::<B>(&weight),
            right_product::<B>(block::<B>(&m.cov), grid::<B>(&weight)),
        ),
{
    let mean = affine_map::<B>(&m.mean, &weight, &bias);
    let right = times_matrix::<B>(&m.cov, &weight);
    let cov = times_layers::<B>(&weight, &right);
    MomentsFull { mean, cov }
}

/// The probability that the normal is positive, at the limits of the
/// rectifier zero or one.
pub open spec fn covariance_gate<M: Model>(f: Format, mu: M::Elem, v: M::Elem) -> M::Elem {
    if is_inactive::<M>(f, mu, v) {
        constant::<M>(f, 0)
    } else if is_active::<M>(f, mu, v) {
        constant::<M>(f, 1)
    } else {
        smooth_mass::<M>(f, mu, v)
    }
}

/// The normal density at the ratio of mean to deviation, zero where the
/// rectifier is taken as linear or its input as fixed.
pub open spec fn covariance_density<M: Model>(f: Format, mu: M::Elem, v: M::Elem) -> M::Elem {
    if is_active::<M>(f, mu, v) || is_inactive::<M>(f, mu, v) || is_fixed::<M>(f, v) {
        constant::<M>(f, 0)
    } else {
        density_of::<M>(f, alpha_of::<M>(f, mu, v))
    }
}

/// The ratio of mean to deviation times [`covariance_density`].
pub open spec fn covariance_slope<M: Model>(f: Format, mu: M::Elem, v: M::Elem) -> M::Elem {
    alpha_of::<M>(f, mu, v).s_mul(covariance_density::<M>(f, mu, v))
}

/// The correlation of two features with covariance `c` and deviations `a` and
/// `b`, kept between minus one and one. The larger deviation divides first, so
/// that the quotients stay representable when the deviations differ widely.
pub open spec fn correlation<M: Model>(f: Format, c: M::Elem, a: M::Elem, b: M::Elem) -> M::Elem {
    let larger = if a.s_lt(b) {
        b
    } else {
        a
    };
    let smaller = if a.s_lt(b) {
        a
    } else {
        b
    };
    clamped(c.s_div(larger).s_div(smaller), constant::<M>(f, -1), constant::<M>(f, 1))
}

/// Zero on the diagonal and one elsewhere, as a tensor computes it.
pub open spec fn off_unit<M: Model>(f: Format, i: int, j: int) -> M::Elem {
    unit::<M>(f, i, j).s_mul(constant::<M>(f, -1)).s_add(constant::<M>(f, 1))
}

/// The third-order covariance series at correlation `rho`, in Horner form:
/// `g_i g_j + rho (phi_i phi_j / 2 + rho (s_i s_j / 6))`, for gates `g`,
/// densities `phi` and slopes `s` of the two features.
pub open spec fn covariance_series<M: Model>(
    f: Format,
    rho: M::Elem,
    gates: M::Elem,
    densities: M::Elem,
    slopes: M::Elem,
) -> M::Elem {
    gates.s_add(
        rho.s_mul(
            densities.s_mul(M::cast(f, half::<M::Elem>())).s_add(
                rho.s_mul(slopes.s_mul(M::cast(f, M::Elem::s_int(1).s_div(M::Elem::s_int(6))))),
            ),
        ),
    )
}

/// The covariance series of two features with correlation `rho`.
pub open spec fn pair_series<M: Model>(
    f: Format,
    rho: M::Elem,
    mu_i: M::Elem,
    v_i: M::Elem,
    mu_j: M::Elem,
    v_j: M::Elem,
) -> M::Elem {
    covariance_series::<M>(
        f,
        rho,
        covariance_gate::<M>(f, mu_i, v_i).s_mul(covariance_gate::<M>(f, mu_j, v_j)),
        covariance_density::<M>(f, mu_i, v_i).s_mul(covariance_density::<M>(f, mu_j, v_j)),
        covariance_slope::<M>(f, mu_i, v_i).s_mul(covariance_slope::<M>(f, mu_j, v_j)),
    )
}

/// The correlation of two features with covariance `c` and variances `v_i` and
/// `v_j`.
pub open spec fn pair_correlation<M: Model>(
    f: Format,
    c: M::Elem,
    v_i: M::Elem,
    v_j: M::Elem,
) -> M::Elem {
    correlation::<M>(f, c, safe_deviation::<M>(f, v_i), safe_deviation::<M>(f, v_j))
}

/// The covariance of two rectified features with covariance `c` off the
/// diagonal.
pub open spec fn rectified_covariance<M: Model>(
    f: Format,
    c: M::Elem,
    mu_i: M::Elem,
    v_i: M::Elem,
    mu_j: M::Elem,
    v_j: M::Elem,
) -> M::Elem {
    let rho = pair_correlation::<M>(f, c, v_i, v_j);
    safe_deviation::<M>(f, v_i).s_mul(safe_deviation::<M>(f, v_j)).s_mul(
        rho.s_mul(pair_series::<M>(f, rho, mu_i, v_i, mu_j, v_j)),
    )
}

/// The covariance matrices of the rectified features: the series off the
/// diagonal, and the rectified variance on it.
pub open spec fn relu_covariances<M: Model>(
    f: Format,
    mean: Grid<M::Elem>,
    cov: Block<M::Elem>,
) -> Block<M::Elem> {
    let var = diagonals::<M>(f, cov);
    stack(
        cov.layers,
        cov.rows,
        cov.cols,
        |b: int, i: int, j: int|
            rectified_covariance::<M>(
                f,
                cov.at(b, i, j).s_mul(off_unit::<M>(f, i, j)),
                mean.at(b, i),
                var.at(b, i),
                mean.at(b, j),
                var.at(b, j),
            ).s_add(
                relu_variance::<M>(f, mean.at(b, i), var.at(b, i)).s_mul(unit::<M>(f, i, j)),
            ),
    )
}

/// The products of all pairs of entries of a row.
pub open spec fn pairs<S: Scalar>(m: Grid<S>) -> Block<S> {
    stack(m.rows, m.cols, m.cols, |b: int, i: int, j: int| m.at(b, i).s_mul(m.at(b, j)))
}

/// The products of all pairs of entries of a row.
fn outer<B: Backend>(t: &B::Matrix) -> (r: B::Cube)
    ensures
        B::format3(&r) == B::format(t),
        B::size3(&r) == (B::size(t).0, B::size(t).1, B::size(t).1),
        block::<B>(&r) == pairs(grid::<B>(t)),
{
    broadcast use group_tables;

    let (_, d) = B::dims(t);
    let rows = B::across(t, d);
    let cols = B::down(t, d);
    let r = B::times3(&rows, &cols);
    proof {
        lemma_block_ext(block::<B>(&r), pairs(grid::<B>(t)));
    }
    r
}

/// Gates, densities and slopes of the covariance series.
fn series_terms<B: Backend>(
    terms: &GaussianReluTerms<B>,
    Ghost(f): Ghost<Format>,
    Ghost(mu): Ghost<Grid<B::Elem>>,
    Ghost(v): Ghost<Grid<B::Elem>>,
) -> (r: (B::Matrix, B::Matrix, B::Matrix))
    requires
        terms.of(f, mu, v),
        mu.dims() == v.dims(),
    ensures
        B::format(&r.0) == f,
        B::format(&r.1) == f,
        B::format(&r.2) == f,
        grid::<B>(&r.0) == both(mu, v, |m: B::Elem, v: B::Elem| covariance_gate::<B>(f, m, v)),
        grid::<B>(&r.1) == both(mu, v, |m: B::Elem, v: B::Elem| covariance_density::<B>(f, m, v)),
        grid::<B>(&r.2) == both(mu, v, |m: B::Elem, v: B::Elem| covariance_slope::<B>(f, m, v)),
{
    broadcast use group_tables;

    let opened = B::fill(&terms.p, &terms.active, B::Elem::whole(1));
    let gates = B::fill(&opened, &terms.inactive, B::Elem::whole(0));
    let linear = B::either(&terms.active, &terms.inactive);
    let dropped = B::either(&linear, &terms.deterministic);
    let densities = B::fill(&terms.phi, &dropped, B::Elem::whole(0));
    let slopes = B::times(&terms.alpha, &densities);
    proof {
        lemma_both_ext(
            grid::<B>(&gates),
            mu,
            v,
            |m: B::Elem, v: B::Elem| covariance_gate::<B>(f, m, v),
        );
        lemma_both_ext(
            grid::<B>(&densities),
            mu,
            v,
            |m: B::Elem, v: B::Elem| covariance_density::<B>(f, m, v),
        );
        lemma_both_ext(
            grid::<B>(&slopes),
            mu,
            v,
            |m: B::Elem, v: B::Elem| covariance_slope::<B>(f, m, v),
        );
    }
    (gates, densities, slopes)
}

/// The correlations of distinct features of each row.
pub open spec fn correlations<M: Model>(
    f: Format,
    cov: Block<M::Elem>,
    sigma: Grid<M::Elem>,
) -> Block<M::Elem> {
    stack(
        cov.layers,
        cov.rows,
        cov.cols,
        |b: int, i: int, j: int|
            correlation::<M>(
                f,
                cov.at(b, i, j).s_mul(off_unit::<M>(f, i, j)),
                sigma.at(b, i),
                sigma.at(b, j),
            ),
    )
}

/// The correlations of distinct features of each row, given the identity.
fn correlate<B: Backend>(cov: &B::Cube, sigma: &B::Matrix, eye_d: &B::Matrix) -> (r: B::Cube)
    requires
        B::format(eye_d) == B::format3(cov),
        B::format(sigma) == B::format3(cov),
        B::size3(cov) == (B::size(sigma).0, B::size(sigma).1, B::size(sigma).1),
        grid::<B>(eye_d) == table(
            B::size(sigma).1,
            B::size(sigma).1,
            |i: int, j: int| unit::<B>(B::format3(cov), i, j),
        ),
    ensures
        B::format3(&r) == B::format3(cov),
        B::size3(&r) == B::size3(cov),
        block::<B>(&r) == correlations::<B>(B::format3(cov), block::<B>(cov), grid::<B>(sigma)),
{
    broadcast use group_tables;

    let (n, d) = B::dims(sigma);
    let negative = B::scaled(eye_d, B::Elem::whole(-1));
    let off = B::shifted(&negative, B::Elem::whole(1));
    let off_mask = B::repeated(&off, n);
    let sigma_i = B::across(sigma, d);
    let sigma_j = B::down(sigma, d);
    let i_smaller = B::falls_below3(&sigma_i, &sigma_j);
    let larger = B::select3(&sigma_i, &i_smaller, &sigma_j);
    let smaller = B::select3(&sigma_j, &i_smaller, &sigma_i);
    let masked = B::times3(cov, &off_mask);
    let once = B::over3(&masked, &larger);
    let twice = B::over3(&once, &smaller);
    let r = B::confined3(&twice, B::Elem::whole(-1), B::Elem::whole(1));
    proof {
        lemma_block_ext(
            block::<B>(&r),
            correlations::<B>(B::format3(cov), block::<B>(cov), grid::<B>(sigma)),
        );
    }
    r
}

/// The covariance series, entrywise.
fn series<B: Backend>(
    rho: &B::Cube,
    gates: &B::Cube,
    densities: &B::Cube,
    slopes: &B::Cube,
) -> (r: B::Cube)
    requires
        B::size3(gates) == B::size3(rho),
        B::size3(densities) == B::size3(rho),
        B::size3(slopes) == B::size3(rho),
        B::format3(gates) == B::format3(rho),
        B::format3(densities) == B::format3(rho),
        B::format3(slopes) == B::format3(rho),
    ensures
        B::format3(&r) == B::format3(rho),
        B::size3(&r) == B::size3(rho),
        block::<B>(&r) == stack(
            B::size3(rho).0,
            B::size3(rho).1,
            B::size3(rho).2,
            |b: int, i: int, j: int|
                covariance_series::<B>(
                    B::format3(rho),
                    block::<B>(rho).at(b, i, j),
                    block::<B>(gates).at(b, i, j),
                    block::<B>(densities).at(b, i, j),
                    block::<B>(slopes).at(b, i, j),
                ),
        ),
{
    broadcast use group_tables;

    let sixth: B::Elem = B::Elem::whole(1).over(B::Elem::whole(6));
    let cubic = B::scaled3(slopes, sixth);
    let outer_term = B::times3(rho, &cubic);
    let quadratic = B::scaled3(densities, one_half::<B::Elem>());
    let inner_sum = B::plus3(&quadratic, &outer_term);
    let upper = B::times3(rho, &inner_sum);
    let r = B::plus3(gates, &upper);
    proof {
        lemma_block_ext(
            block::<B>(&r),
            stack(
                B::size3(rho).0,
                B::size3(rho).1,
                B::size3(rho).2,
                |b: int, i: int, j: int|
                    covariance_series::<B>(
                        B::format3(rho),
                        block::<B>(rho).at(b, i, j),
                        block::<B>(gates).at(b, i, j),
                        block::<B>(densities).at(b, i, j),
                        block::<B>(slopes).at(b, i, j),
                    ),
            ),
        );
    }
    r
}

/// Full-covariance rectifier: closed-form Gaussian marginal moments on the
/// diagonal, and a third-order covariance series off it.
///
/// The leading series term is the smooth gate `Phi(alpha_i) Phi(alpha_j)`. The
/// finite series need not preserve the exact covariance's monotonicity in the
/// input correlation.
pub fn propagate_relu_full<B: Backend>(m: &MomentsFull<B>) -> (r: MomentsFull<B>)
    requires
        m.wf(),
        width_fault(B::size(&m.mean).1) is None,
    ensures
        r.wf(),
        B::format(&r.mean) == B::format(&m.mean),
        grid::<B>(&r.mean) == relu_means::<B>(
            B::format(&m.mean),
            grid::<B>(&m.mean),
            diagonals::<B>(B::format(&m.mean), block::<B>(&m.cov)),
        ),
        block::<B>(&r.cov) == relu_covariances::<B>(
            B::format(&m.mean),
            grid::<B>(&m.mean),
            block::<B>(&m.cov),
        ),
{
    broadcast use group_tables;

    let ghost f = B::format(&m.mean);
    let ghost mu = grid::<B>(&m.mean);
    let ghost c = block::<B>(&m.cov);
    let (_, d, _) = B::dims3(&m.cov);
    let eye_d = eye::<B>(d, &m.mean);
    let input_var = read_diagonal::<B>(&m.cov, &eye_d);
    let ghost v = grid::<B>(&input_var);
    let terms = gaussian_relu_terms::<B>(&m.mean, &input_var);
    let marginals = limited_moments::<B>(&terms, &m.mean, &input_var);
    let rho = correlate::<B>(&m.cov, &terms.safe_sigma, &eye_d);
    let (gates, densities, slopes) = series_terms::<B>(&terms, Ghost(f), Ghost(mu), Ghost(v));
    let gate_pairs = outer::<B>(&gates);
    let density_pairs = outer::<B>(&densities);
    let slope_pairs = outer::<B>(&slopes);
    let sum = series::<B>(&rho, &gate_pairs, &density_pairs, &slope_pairs);
    let sigma_outer = outer::<B>(&terms.safe_sigma);
    let unscaled = B::times3(&rho, &sum);
    let off = B::times3(&sigma_outer, &unscaled);
    let diag = on_diagonal::<B>(&marginals.var, &eye_d);
    let cov = B::plus3(&off, &diag);
    proof {
        lemma_block_ext(block::<B>(&cov), relu_covariances::<B>(f, mu, c));
    }
    MomentsFull { mean: marginals.mean, cov }
}

} // verus!
