//! Rectified Gaussian moments on tensors.
use vstd::prelude::*;

use crate::backend::{Backend, Format};
use crate::burn_sdp::diagonal::Moments;
use crate::scalar::{density_at_zero, one_half, Scalar};
use crate::violation::Violation;

verus! {

use crate::backend::{constant, grid, lowered, mask, raised, Model};
use crate::scalar::{half, peak_density};
use crate::tensor::{both, each, group_tables, lemma_both_ext, lemma_grid_ext, Grid};

/// The level at which the continued fraction of the normal tail is cut off.
pub open spec fn fraction_depth(f: Format) -> int {
    if f == Format::F64 {
        96
    } else {
        32
    }
}

/// Level `n` of the Laplace continued fraction of the normal tail at `t`:
/// `n / (t + (n + 1) / (t + ...))`, ending with `depth / t`.
pub open spec fn tail_ratio<M: Model>(f: Format, t: M::Elem, n: int, depth: int) -> M::Elem
    decreases depth - n,
{
    if n >= depth {
        constant::<M>(f, 1).s_div(t).s_mul(constant::<M>(f, depth))
    } else {
        constant::<M>(f, 1).s_div(t.s_add(tail_ratio::<M>(f, t, n + 1, depth))).s_mul(
            constant::<M>(f, n),
        )
    }
}

/// The ratio `r_2` of the continued fraction at `t`.
pub open spec fn second_ratio<M: Model>(f: Format, t: M::Elem) -> M::Elem {
    tail_ratio::<M>(f, t, 2, fraction_depth(f))
}

/// The ratio `r_1 = 1 / (t + r_2)` of the continued fraction at `t`.
pub open spec fn first_ratio<M: Model>(f: Format, t: M::Elem) -> M::Elem {
    constant::<M>(f, 1).s_div(t.s_add(second_ratio::<M>(f, t)))
}

/// Ratios in the Laplace continued fraction for `Phi(-t) / phi(t)`.
///
/// `r_n = n / (t + r_(n+1))`; `r_1` and `r_2` also give the rectified moments
/// without subtracting nearly equal tail terms (DLMF 7.9 and 7.18).
pub(crate) fn normal_tail_ratios<B: Backend>(t: &B::Matrix) -> (r: (B::Matrix, B::Matrix))
    ensures
        B::format(&r.0) == B::format(t),
        B::format(&r.1) == B::format(t),
        grid::<B>(&r.0) == each(
            grid::<B>(t),
            |x: B::Elem| first_ratio::<B>(B::format(t), x),
        ),
        grid::<B>(&r.1) == each(
            grid::<B>(t),
            |x: B::Elem| second_ratio::<B>(B::format(t), x),
        ),
{
    broadcast use group_tables;

    let depth: i32 = match B::format_of(t) {
        Format::F64 => 96,
        _ => 32,
    };
    let inverse = B::reciprocal(t);
    let mut r = B::scaled(&inverse, B::Elem::whole(depth));
    let mut n: i32 = depth - 1;
    while n >= 2
        invariant
            1 <= n < depth,
            depth == fraction_depth(B::format(t)),
            B::format(&r) == B::format(t),
            grid::<B>(&r).dims() == grid::<B>(t).dims(),
            forall|i: int, j: int|
                grid::<B>(t).has(i, j) ==> #[trigger] grid::<B>(&r).at(i, j) == tail_ratio::<B>(
                    B::format(t),
                    grid::<B>(t).at(i, j),
                    n + 1,
                    depth as int,
                ),
        decreases n,
    {
        broadcast use group_tables;

        let ghost before = grid::<B>(&r);
        let sum = B::plus(t, &r);
        let inverse = B::reciprocal(&sum);
        r = B::scaled(&inverse, B::Elem::whole(n));
        assert forall|i: int, j: int| grid::<B>(t).has(i, j) implies #[trigger] grid::<B>(&r).at(
            i,
            j,
        ) == tail_ratio::<B>(B::format(t), grid::<B>(t).at(i, j), n as int, depth as int) by {
            assert(before.at(i, j) == tail_ratio::<B>(
                B::format(t),
                grid::<B>(t).at(i, j),
                n + 1,
                depth as int,
            ));
        }
        n -= 1;
    }
    let sum = B::plus(t, &r);
    let r1 = B::reciprocal(&sum);
    proof {
        lemma_grid_ext(
            grid::<B>(&r),
            each(grid::<B>(t), |x: B::Elem| second_ratio::<B>(B::format(t), x)),
        );
        lemma_grid_ext(
            grid::<B>(&r1),
            each(grid::<B>(t), |x: B::Elem| first_ratio::<B>(B::format(t), x)),
        );
    }
    (r1, r)
}

/// `mu / sigma`, with `mu` first limited to eight deviations either way.
pub open spec fn bounded_alpha<M: Model>(f: Format, mu: M::Elem, sigma: M::Elem) -> M::Elem {
    let limit = sigma.s_mul(constant::<M>(f, 8));
    let above = if limit.s_lt(mu) {
        limit
    } else {
        mu
    };
    let bounded = if mu.s_lt(limit.s_neg()) {
        limit.s_neg()
    } else {
        above
    };
    bounded.s_div(sigma)
}

/// The ratio of mean to deviation, limited to eight.
///
/// The numerator is bounded before dividing: clamping the quotient instead
/// leaves an unused tail in the backward pass of the division, where it can
/// overflow.
pub(crate) fn bounded_relu_alpha<B: Backend>(mu: &B::Matrix, sigma: &B::Matrix) -> (r: B::Matrix)
    requires
        B::size(mu) == B::size(sigma),
        B::format(mu) == B::format(sigma),
    ensures
        B::format(&r) == B::format(mu),
        grid::<B>(&r) == both(
            grid::<B>(mu),
            grid::<B>(sigma),
            |m: B::Elem, s: B::Elem| bounded_alpha::<B>(B::format(mu), m, s),
        ),
{
    broadcast use group_tables;

    let limit = B::scaled(sigma, B::Elem::whole(8));
    let over = B::exceeds(mu, &limit);
    let above = B::select(mu, &over, &limit);
    let negative = B::negated(&limit);
    let under = B::falls_below(mu, &negative);
    let bounded = B::select(&above, &under, &negative);
    let r = B::over(&bounded, sigma);
    proof {
        lemma_both_ext(
            grid::<B>(&r),
            grid::<B>(mu),
            grid::<B>(sigma),
            |m: B::Elem, s: B::Elem| bounded_alpha::<B>(B::format(mu), m, s),
        );
    }
    r
}

/// The normal distribution function at `a`, by the error function.
pub open spec fn central_mass<M: Model>(f: Format, a: M::Elem) -> M::Elem {
    a.s_mul(M::cast(f, half::<M::Elem>().s_sqrt())).s_erf().s_add(constant::<M>(f, 1)).s_mul(
        M::cast(f, half::<M::Elem>()),
    )
}

/// The normal density at `a`.
pub open spec fn density_of<M: Model>(f: Format, a: M::Elem) -> M::Elem {
    a.s_mul(a).s_mul(M::cast(f, half::<M::Elem>().s_neg())).s_exp().s_mul(
        M::cast(f, peak_density::<M::Elem>()),
    )
}

/// The argument of the continued fraction: `-a`, but at least two.
pub open spec fn tail_point<M: Model>(f: Format, a: M::Elem) -> M::Elem {
    raised(a.s_neg(), constant::<M>(f, 2))
}

/// The normal distribution function at `a`, by the continued fraction.
pub open spec fn tail_mass<M: Model>(f: Format, a: M::Elem) -> M::Elem {
    let t = tail_point::<M>(f, a);
    density_of::<M>(f, a).s_div(t.s_add(first_ratio::<M>(f, t)))
}

/// The mean of the rectified unit-variance normal at `a`, by the continued
/// fraction.
pub open spec fn tail_mean<M: Model>(f: Format, a: M::Elem) -> M::Elem {
    tail_mass::<M>(f, a).s_mul(first_ratio::<M>(f, tail_point::<M>(f, a)))
}

/// The variance of the rectified unit-variance normal at `a`, by the continued
/// fraction.
pub open spec fn tail_variance<M: Model>(f: Format, a: M::Elem) -> M::Elem {
    let m = tail_mean::<M>(f, a);
    m.s_mul(second_ratio::<M>(f, tail_point::<M>(f, a))).s_sub(m.s_mul(m))
}

/// The variance of the rectified unit-variance normal at `a`, in a form that
/// does not cancel where the rectifier is nearly linear:
/// `a^2 p (1 - p) + p + a phi (1 - 2 p) - phi^2`.
pub open spec fn central_variance<M: Model>(f: Format, a: M::Elem) -> M::Elem {
    let p = central_mass::<M>(f, a);
    let phi = density_of::<M>(f, a);
    let complement = p.s_mul(constant::<M>(f, -1)).s_add(constant::<M>(f, 1));
    let skew = p.s_mul(constant::<M>(f, -2)).s_add(constant::<M>(f, 1));
    a.s_mul(a).s_mul(p).s_mul(complement).s_add(p).s_add(a.s_mul(phi).s_mul(skew)).s_sub(
        phi.s_mul(phi),
    )
}

/// Whether `a` lies so far below zero that the continued fraction takes over.
pub open spec fn in_tail<M: Model>(f: Format, a: M::Elem) -> bool {
    a.s_lt(constant::<M>(f, -2))
}

/// The normal distribution function by the error function, entrywise.
pub(crate) fn central_masses<B: Backend>(alpha: &B::Matrix) -> (r: B::Matrix)
    ensures
        B::format(&r) == B::format(alpha),
        grid::<B>(&r) == each(
            grid::<B>(alpha),
            |a: B::Elem| central_mass::<B>(B::format(alpha), a),
        ),
{
    broadcast use group_tables;

    let c: B::Elem = one_half::<B::Elem>().root();
    let scaled = B::scaled(alpha, c);
    let erf = B::error_function(&scaled);
    let shifted = B::shifted(&erf, B::Elem::whole(1));
    let r = B::scaled(&shifted, one_half::<B::Elem>());
    proof {
        lemma_grid_ext(
            grid::<B>(&r),
            each(grid::<B>(alpha), |a: B::Elem| central_mass::<B>(B::format(alpha), a)),
        );
    }
    r
}

/// The normal density, entrywise.
pub(crate) fn densities<B: Backend>(alpha: &B::Matrix) -> (r: B::Matrix)
    ensures
        B::format(&r) == B::format(alpha),
        grid::<B>(&r) == each(
            grid::<B>(alpha),
            |a: B::Elem| density_of::<B>(B::format(alpha), a),
        ),
{
    broadcast use group_tables;

    let square = B::times(alpha, alpha);
    let c: B::Elem = one_half::<B::Elem>().negated();
    let scaled = B::scaled(&square, c);
    let exponential = B::exponential(&scaled);
    let r = B::scaled(&exponential, density_at_zero::<B::Elem>());
    proof {
        lemma_grid_ext(
            grid::<B>(&r),
            each(grid::<B>(alpha), |a: B::Elem| density_of::<B>(B::format(alpha), a)),
        );
    }
    r
}

/// The normal distribution function by the continued fraction, entrywise, with
/// the two ratios of the continued fraction.
pub(crate) fn tail_masses<B: Backend>(alpha: &B::Matrix, phi: &B::Matrix) -> (r: (
    B::Matrix,
    B::Matrix,
    B::Matrix,
))
    requires
        B::format(phi) == B::format(alpha),
        grid::<B>(phi) == each(
            grid::<B>(alpha),
            |a: B::Elem| density_of::<B>(B::format(alpha), a),
        ),
    ensures
        B::format(&r.0) == B::format(alpha),
        B::format(&r.1) == B::format(alpha),
        B::format(&r.2) == B::format(alpha),
        grid::<B>(&r.0) == each(
            grid::<B>(alpha),
            |a: B::Elem| tail_mass::<B>(B::format(alpha), a),
        ),
        grid::<B>(&r.1) == each(
            grid::<B>(alpha),
            |a: B::Elem|
                first_ratio::<B>(B::format(alpha), tail_point::<B>(B::format(alpha), a)),
        ),
        grid::<B>(&r.2) == each(
            grid::<B>(alpha),
            |a: B::Elem|
                second_ratio::<B>(B::format(alpha), tail_point::<B>(B::format(alpha), a)),
        ),
{
    broadcast use group_tables;

    let ghost f = B::format(alpha);
    let negative = B::negated(alpha);
    let t = B::raised_to(&negative, B::Elem::whole(2));
    let (r1, r2) = normal_tail_ratios::<B>(&t);
    let sum = B::plus(&t, &r1);
    let mass = B::over(phi, &sum);
    proof {
        lemma_grid_ext(
            grid::<B>(&mass),
            each(grid::<B>(alpha), |a: B::Elem| tail_mass::<B>(f, a)),
        );
        lemma_grid_ext(
            grid::<B>(&r1),
            each(grid::<B>(alpha), |a: B::Elem| first_ratio::<B>(f, tail_point::<B>(f, a))),
        );
        lemma_grid_ext(
            grid::<B>(&r2),
            each(grid::<B>(alpha), |a: B::Elem| second_ratio::<B>(f, tail_point::<B>(f, a))),
        );
    }
    (mass, r1, r2)
}

/// Mass, mean and variance of the unit-variance normal tail, entrywise.
pub(crate) fn tail_terms<B: Backend>(alpha: &B::Matrix, phi: &B::Matrix) -> (r: (
    B::Matrix,
    B::Matrix,
    B::Matrix,
))
    requires
        B::format(phi) == B::format(alpha),
        grid::<B>(phi) == each(
            grid::<B>(alpha),
            |a: B::Elem| density_of::<B>(B::format(alpha), a),
        ),
    ensures
        B::format(&r.0) == B::format(alpha),
        B::format(&r.1) == B::format(alpha),
        B::format(&r.2) == B::format(alpha),
        grid::<B>(&r.0) == each(
            grid::<B>(alpha),
            |a: B::Elem| tail_mass::<B>(B::format(alpha), a),
        ),
        grid::<B>(&r.1) == each(
            grid::<B>(alpha),
            |a: B::Elem| tail_mean::<B>(B::format(alpha), a),
        ),
        grid::<B>(&r.2) == each(
            grid::<B>(alpha),
            |a: B::Elem| tail_variance::<B>(B::format(alpha), a),
        ),
{
    broadcast use group_tables;

    let (mass, r1, r2) = tail_masses::<B>(alpha, phi);
    let mean = B::times(&mass, &r1);
    let second = B::times(&mean, &r2);
    let square = B::times(&mean, &mean);
    let variance = B::minus(&second, &square);
    proof {
        lemma_grid_ext(
            grid::<B>(&mean),
            each(grid::<B>(alpha), |a: B::Elem| tail_mean::<B>(B::format(alpha), a)),
        );
        lemma_grid_ext(
            grid::<B>(&variance),
            each(grid::<B>(alpha), |a: B::Elem| tail_variance::<B>(B::format(alpha), a)),
        );
    }
    (mass, mean, variance)
}

/// The variance of the rectified unit-variance normal, entrywise.
pub(crate) fn central_variances<B: Backend>(alpha: &B::Matrix, p: &B::Matrix, phi: &B::Matrix) -> (r:
    B::Matrix)
    requires
        B::format(p) == B::format(alpha),
        B::format(phi) == B::format(alpha),
        grid::<B>(p) == each(
            grid::<B>(alpha),
            |a: B::Elem| central_mass::<B>(B::format(alpha), a),
        ),
        grid::<B>(phi) == each(
            grid::<B>(alpha),
            |a: B::Elem| density_of::<B>(B::format(alpha), a),
        ),
    ensures
        B::format(&r) == B::format(alpha),
        grid::<B>(&r) == each(
            grid::<B>(alpha),
            |a: B::Elem| central_variance::<B>(B::format(alpha), a),
        ),
{
    broadcast use group_tables;

    let negative = B::scaled(p, B::Elem::whole(-1));
    let complement = B::shifted(&negative, B::Elem::whole(1));
    let doubled = B::scaled(p, B::Elem::whole(-2));
    let skew = B::shifted(&doubled, B::Elem::whole(1));
    let square = B::times(alpha, alpha);
    let weighted = B::times(&square, p);
    let spread = B::times(&weighted, &complement);
    let first = B::plus(&spread, p);
    let moment = B::times(alpha, phi);
    let second = B::times(&moment, &skew);
    let sum = B::plus(&first, &second);
    let peak = B::times(phi, phi);
    let r = B::minus(&sum, &peak);
    proof {
        lemma_grid_ext(
            grid::<B>(&r),
            each(grid::<B>(alpha), |a: B::Elem| central_variance::<B>(B::format(alpha), a)),
        );
    }
    r
}

/// Whether a variance stands for a fixed value.
pub open spec fn is_fixed<M: Model>(f: Format, v: M::Elem) -> bool {
    v.s_le(constant::<M>(f, 0))
}

/// The variance, but one in place of a variance that stands for a fixed value.
pub open spec fn safe_variance<M: Model>(f: Format, v: M::Elem) -> M::Elem {
    if is_fixed::<M>(f, v) {
        constant::<M>(f, 1)
    } else {
        v
    }
}

/// The deviation that ratios are formed with.
pub open spec fn safe_deviation<M: Model>(f: Format, v: M::Elem) -> M::Elem {
    safe_variance::<M>(f, v).s_sqrt()
}

/// The ratio of mean to deviation, limited to eight.
pub open spec fn alpha_of<M: Model>(f: Format, mu: M::Elem, v: M::Elem) -> M::Elem {
    bounded_alpha::<M>(f, mu, safe_deviation::<M>(f, v))
}

/// Whether the mean lies eight deviations or more above zero.
pub open spec fn is_active<M: Model>(f: Format, mu: M::Elem, v: M::Elem) -> bool {
    constant::<M>(f, 8).s_le(alpha_of::<M>(f, mu, v))
}

/// Whether the mean lies eight deviations or more below zero.
pub open spec fn is_inactive<M: Model>(f: Format, mu: M::Elem, v: M::Elem) -> bool {
    alpha_of::<M>(f, mu, v).s_le(constant::<M>(f, -8))
}

/// The mean of the rectified normal, without limits.
pub open spec fn smooth_mean<M: Model>(f: Format, mu: M::Elem, v: M::Elem) -> M::Elem {
    let a = alpha_of::<M>(f, mu, v);
    let sigma = safe_deviation::<M>(f, v);
    if in_tail::<M>(f, a) {
        sigma.s_mul(tail_mean::<M>(f, a))
    } else {
        mu.s_mul(central_mass::<M>(f, a)).s_add(sigma.s_mul(density_of::<M>(f, a)))
    }
}

/// The variance of the rectified normal, without limits.
pub open spec fn smooth_variance<M: Model>(f: Format, mu: M::Elem, v: M::Elem) -> M::Elem {
    let a = alpha_of::<M>(f, mu, v);
    let unit = if in_tail::<M>(f, a) {
        tail_variance::<M>(f, a)
    } else {
        central_variance::<M>(f, a)
    };
    raised(safe_variance::<M>(f, v).s_mul(unit), constant::<M>(f, 0))
}

/// The probability that the normal is positive, without limits.
pub open spec fn smooth_mass<M: Model>(f: Format, mu: M::Elem, v: M::Elem) -> M::Elem {
    let a = alpha_of::<M>(f, mu, v);
    if in_tail::<M>(f, a) {
        tail_mass::<M>(f, a)
    } else {
        central_mass::<M>(f, a)
    }
}

/// The terms that rectified moments are made of, with zero variance made safe
/// only for intermediate division; callers restore fixed outputs by the masks.
pub struct GaussianReluTerms<B: Backend> {
    pub mean: B::Matrix,
    pub var: B::Matrix,
    pub p: B::Matrix,
    pub phi: B::Matrix,
    pub alpha: B::Matrix,
    pub safe_sigma: B::Matrix,
    pub deterministic: B::Mask,
    pub active: B::Mask,
    pub inactive: B::Mask,
}

impl<B: Backend> GaussianReluTerms<B> {
    /// Whether the terms are those of the given means and variances.
    pub open spec fn of(&self, f: Format, mu: Grid<B::Elem>, v: Grid<B::Elem>) -> bool {
        &&& B::format(&self.mean) == f
        &&& B::format(&self.var) == f
        &&& B::format(&self.p) == f
        &&& B::format(&self.phi) == f
        &&& B::format(&self.alpha) == f
        &&& B::format(&self.safe_sigma) == f
        &&& grid::<B>(&self.mean) == both(
            mu,
            v,
            |m: B::Elem, v: B::Elem| smooth_mean::<B>(f, m, v),
        )
        &&& grid::<B>(&self.var) == both(
            mu,
            v,
            |m: B::Elem, v: B::Elem| smooth_variance::<B>(f, m, v),
        )
        &&& grid::<B>(&self.p) == both(mu, v, |m: B::Elem, v: B::Elem| smooth_mass::<B>(f, m, v))
        &&& grid::<B>(&self.phi) == both(
            mu,
            v,
            |m: B::Elem, v: B::Elem| density_of::<B>(f, alpha_of::<B>(f, m, v)),
        )
        &&& grid::<B>(&self.alpha) == both(mu, v, |m: B::Elem, v: B::Elem| alpha_of::<B>(f, m, v))
        &&& grid::<B>(&self.safe_sigma) == each(v, |v: B::Elem| safe_deviation::<B>(f, v))
        &&& mask::<B>(&self.deterministic) == each(v, |v: B::Elem| is_fixed::<B>(f, v))
        &&& mask::<B>(&self.active) == both(mu, v, |m: B::Elem, v: B::Elem| is_active::<B>(f, m, v))
        &&& mask::<B>(&self.inactive) == both(
            mu,
            v,
            |m: B::Elem, v: B::Elem| is_inactive::<B>(f, m, v),
        )
    }
}

/// The terms of the rectified moments of the given means and variances.
pub(crate) fn gaussian_relu_terms<B: Backend>(mu: &B::Matrix, input_var: &B::Matrix) -> (r:
    GaussianReluTerms<B>)
    requires
        B::size(mu) == B::size(input_var),
        B::format(mu) == B::format(input_var),
    ensures
        r.of(B::format(mu), grid::<B>(mu), grid::<B>(input_var)),
{
    broadcast use group_tables;

    let ghost f = B::format(mu);
    let ghost m = grid::<B>(mu);
    let ghost v = grid::<B>(input_var);
    let deterministic = B::is_at_most(input_var, B::Elem::whole(0));
    let var = B::fill(input_var, &deterministic, B::Elem::whole(1));
    let sigma = B::root(&var);
    let alpha = bounded_relu_alpha::<B>(mu, &sigma);
    let p = central_masses::<B>(&alpha);
    let phi = densities::<B>(&alpha);
    let weighted = B::times(mu, &p);
    let spread = B::times(&sigma, &phi);
    let mean = B::plus(&weighted, &spread);
    let normalized_var = central_variances::<B>(&alpha, &p, &phi);
    // Both tensor branches are evaluated. The unused argument of the continued
    // fraction is bounded too, so that gradients stay finite.
    let (tail_p, tail_m, tail_v) = tail_terms::<B>(&alpha, &phi);
    let tail = B::is_below(&alpha, B::Elem::whole(-2));
    let scaled_tail = B::times(&sigma, &tail_m);
    let out_mean = B::select(&mean, &tail, &scaled_tail);
    let unit = B::select(&normalized_var, &tail, &tail_v);
    let scaled_var = B::times(&var, &unit);
    let out_var = B::raised_to(&scaled_var, B::Elem::whole(0));
    let out_p = B::select(&p, &tail, &tail_p);
    let active = B::is_at_least(&alpha, B::Elem::whole(8));
    let inactive = B::is_at_most(&alpha, B::Elem::whole(-8));
    proof {
        lemma_grid_ext(
            mask::<B>(&deterministic),
            each(v, |v: B::Elem| is_fixed::<B>(f, v)),
        );
        lemma_grid_ext(grid::<B>(&sigma), each(v, |v: B::Elem| safe_deviation::<B>(f, v)));
        lemma_both_ext(
            grid::<B>(&alpha),
            m,
            v,
            |m: B::Elem, v: B::Elem| alpha_of::<B>(f, m, v),
        );
        lemma_both_ext(
            grid::<B>(&phi),
            m,
            v,
            |m: B::Elem, v: B::Elem| density_of::<B>(f, alpha_of::<B>(f, m, v)),
        );
        lemma_both_ext(
            grid::<B>(&out_mean),
            m,
            v,
            |m: B::Elem, v: B::Elem| smooth_mean::<B>(f, m, v),
        );
        lemma_both_ext(
            grid::<B>(&out_var),
            m,
            v,
            |m: B::Elem, v: B::Elem| smooth_variance::<B>(f, m, v),
        );
        lemma_both_ext(
            grid::<B>(&out_p),
            m,
            v,
            |m: B::Elem, v: B::Elem| smooth_mass::<B>(f, m, v),
        );
        lemma_both_ext(
            mask::<B>(&active),
            m,
            v,
            |m: B::Elem, v: B::Elem| is_active::<B>(f, m, v),
        );
        lemma_both_ext(
            mask::<B>(&inactive),
            m,
            v,
            |m: B::Elem, v: B::Elem| is_inactive::<B>(f, m, v),
        );
    }
    GaussianReluTerms {
        mean: out_mean,
        var: out_var,
        p: out_p,
        phi,
        alpha,
        safe_sigma: sigma,
        deterministic,
        active,
        inactive,
    }
}

/// The mean of the rectified normal: a fixed mean is rectified, and eight
/// deviations from zero the rectifier is taken as linear.
pub open spec fn relu_mean<M: Model>(f: Format, mu: M::Elem, v: M::Elem) -> M::Elem {
    if is_fixed::<M>(f, v) {
        raised(mu, constant::<M>(f, 0))
    } else if is_inactive::<M>(f, mu, v) {
        constant::<M>(f, 0)
    } else if is_active::<M>(f, mu, v) {
        mu
    } else {
        smooth_mean::<M>(f, mu, v)
    }
}

/// The variance of the rectified normal, with the limits of [`relu_mean`].
pub open spec fn relu_variance<M: Model>(f: Format, mu: M::Elem, v: M::Elem) -> M::Elem {
    if is_fixed::<M>(f, v) || is_inactive::<M>(f, mu, v) {
        constant::<M>(f, 0)
    } else if is_active::<M>(f, mu, v) {
        v
    } else {
        smooth_variance::<M>(f, mu, v)
    }
}

/// Rectified means, entrywise.
pub open spec fn relu_means<M: Model>(
    f: Format,
    mean: Grid<M::Elem>,
    var: Grid<M::Elem>,
) -> Grid<M::Elem> {
    both(mean, var, |m: M::Elem, v: M::Elem| relu_mean::<M>(f, m, v))
}

/// Rectified variances, entrywise.
pub open spec fn relu_variances<M: Model>(
    f: Format,
    mean: Grid<M::Elem>,
    var: Grid<M::Elem>,
) -> Grid<M::Elem> {
    both(mean, var, |m: M::Elem, v: M::Elem| relu_variance::<M>(f, m, v))
}

/// The rectified moments made of `terms`.
pub(crate) fn limited_moments<B: Backend>(
    terms: &GaussianReluTerms<B>,
    mu: &B::Matrix,
    var: &B::Matrix,
) -> (r: Moments<B>)
    requires
        B::size(mu) == B::size(var),
        B::format(mu) == B::format(var),
        terms.of(B::format(mu), grid::<B>(mu), grid::<B>(var)),
    ensures
        r.wf(),
        B::format(&r.mean) == B::format(mu),
        grid::<B>(&r.mean) == relu_means::<B>(B::format(mu), grid::<B>(mu), grid::<B>(var)),
        grid::<B>(&r.var) == relu_variances::<B>(B::format(mu), grid::<B>(mu), grid::<B>(var)),
{
    broadcast use group_tables;

    let ghost f = B::format(mu);
    let linear = B::select(&terms.mean, &terms.active, mu);
    let cut = B::fill(&linear, &terms.inactive, B::Elem::whole(0));
    let rectified = B::raised_to(mu, B::Elem::whole(0));
    let out_mean = B::select(&cut, &terms.deterministic, &rectified);
    let kept = B::select(&terms.var, &terms.active, var);
    let dropped = B::fill(&kept, &terms.inactive, B::Elem::whole(0));
    let out_var = B::fill(&dropped, &terms.deterministic, B::Elem::whole(0));
    proof {
        lemma_both_ext(
            grid::<B>(&out_mean),
            grid::<B>(mu),
            grid::<B>(var),
            |m: B::Elem, v: B::Elem| relu_mean::<B>(f, m, v),
        );
        lemma_both_ext(
            grid::<B>(&out_var),
            grid::<B>(mu),
            grid::<B>(var),
            |m: B::Elem, v: B::Elem| relu_variance::<B>(f, m, v),
        );
    }
    Moments { mean: out_mean, var: out_var }
}

/// Propagate through an element-wise rectifier by moment matching.
///
/// Per element with mean `mu`, deviation `sigma` and `alpha = mu / sigma`:
/// `mu' = mu * Phi(alpha) + sigma * phi(alpha)`; the variance is evaluated in
/// an algebraically equivalent form that avoids cancellation when the rectifier
/// is nearly linear. Negative-tail moments use continued fractions.
pub fn propagate_relu<B: Backend>(m: &Moments<B>) -> (r: Moments<B>)
    requires
        m.wf(),
    ensures
        r.wf(),
        B::format(&r.mean) == B::format(&m.mean),
        grid::<B>(&r.mean) == relu_means::<B>(
            B::format(&m.mean),
            grid::<B>(&m.mean),
            grid::<B>(&m.var),
        ),
        grid::<B>(&r.var) == relu_variances::<B>(
            B::format(&m.mean),
            grid::<B>(&m.mean),
            grid::<B>(&m.var),
        ),
{
    let terms = gaussian_relu_terms::<B>(&m.mean, &m.var);
    limited_moments::<B>(&terms, &m.mean, &m.var)
}

/// Whether a coefficient survives the step to a tensor entry: it is finite, in
/// the format's range and, unless it `may_vanish`, does not become zero.
pub open spec fn representable<M: Model>(f: Format, x: M::Elem, may_vanish: bool) -> bool {
    &&& x.s_finite()
    &&& x.s_abs().s_le(M::largest(f))
    &&& may_vanish || !M::cast(f, x).s_eq(M::Elem::s_int(0))
}

/// The weight of the rectified part of a leaky rectifier, `1 - alpha`.
pub open spec fn complement<S: Scalar>(alpha: S) -> S {
    S::s_int(1).s_sub(alpha)
}

/// The weight of the covariance of input and rectified input,
/// `2 alpha (1 - alpha)`.
pub open spec fn cross_weight<S: Scalar>(alpha: S) -> S {
    S::s_int(2).s_mul(alpha).s_mul(complement(alpha))
}

/// What keeps a slope from being used with tensors of format `f`, if anything.
///
/// A coefficient may be zero only where the slope makes it so: the slope and
/// its square at slope zero, their complements at slope one, and the cross
/// weight at either.
pub open spec fn slope_fault<M: Model>(f: Format, alpha: M::Elem) -> Option<Violation> {
    let none = alpha.s_eq(M::Elem::s_int(0));
    let full = alpha.s_eq(M::Elem::s_int(1));
    if !alpha.s_finite() {
        Some(Violation::Slope)
    } else if representable::<M>(f, alpha, none) && representable::<M>(
        f,
        complement(alpha),
        full,
    ) && representable::<M>(f, alpha.s_mul(alpha), none) && representable::<M>(
        f,
        complement(alpha).s_mul(complement(alpha)),
        full,
    ) && representable::<M>(f, cross_weight(alpha), none || full) {
        None
    } else {
        Some(Violation::SlopeCoefficients)
    }
}

/// Whether a coefficient survives the step to a tensor entry.
pub(crate) fn is_representable<B: Backend>(f: Format, x: B::Elem, may_vanish: bool) -> (r: bool)
    ensures
        r == representable::<B>(f, x, may_vanish),
{
    x.finite() && x.magnitude().at_most(B::largest_finite(f)) && (may_vanish || !B::narrowed(
        f,
        x,
    ).equals(B::Elem::whole(0)))
}

/// What keeps a slope from being used with tensors of format `f`, if anything.
pub fn check_slope<B: Backend>(f: Format, alpha: B::Elem) -> (r: Option<Violation>)
    ensures
        r == slope_fault::<B>(f, alpha),
{
    if !alpha.finite() {
        return Some(Violation::Slope);
    }
    let none = alpha.equals(B::Elem::whole(0));
    let full = alpha.equals(B::Elem::whole(1));
    let rest = B::Elem::whole(1).minus(alpha);
    let cross = B::Elem::whole(2).times(alpha).times(rest);
    if is_representable::<B>(f, alpha, none) && is_representable::<B>(f, rest, full)
        && is_representable::<B>(f, alpha.times(alpha), none) && is_representable::<B>(
        f,
        rest.times(rest),
        full,
    ) && is_representable::<B>(f, cross, none || full) {
        None
    } else {
        Some(Violation::SlopeCoefficients)
    }
}

/// The mean of the leaky rectified normal: the raw and the rectified mean
/// combined, with the limits of [`relu_mean`].
pub open spec fn leaky_mean<M: Model>(
    f: Format,
    alpha: M::Elem,
    mu: M::Elem,
    v: M::Elem,
) -> M::Elem {
    let slope = M::cast(f, alpha);
    if is_fixed::<M>(f, v) {
        raised(mu, constant::<M>(f, 0)).s_add(lowered(mu, constant::<M>(f, 0)).s_mul(slope))
    } else if is_inactive::<M>(f, mu, v) {
        mu.s_mul(slope)
    } else if is_active::<M>(f, mu, v) {
        mu
    } else {
        smooth_mean::<M>(f, mu, v).s_mul(M::cast(f, complement(alpha))).s_add(mu.s_mul(slope))
    }
}

/// The variance of the leaky rectified normal,
/// `alpha^2 var + (1 - alpha)^2 var' + 2 alpha (1 - alpha) var Phi`, with the
/// limits of [`relu_mean`].
pub open spec fn leaky_variance<M: Model>(
    f: Format,
    alpha: M::Elem,
    mu: M::Elem,
    v: M::Elem,
) -> M::Elem {
    let square = M::cast(f, alpha.s_mul(alpha));
    if is_fixed::<M>(f, v) {
        constant::<M>(f, 0)
    } else if is_inactive::<M>(f, mu, v) {
        v.s_mul(square)
    } else if is_active::<M>(f, mu, v) {
        v
    } else {
        v.s_mul(square).s_add(
            smooth_variance::<M>(f, mu, v).s_mul(
                M::cast(f, complement(alpha).s_mul(complement(alpha))),
            ),
        ).s_add(
            v.s_mul(smooth_mass::<M>(f, mu, v).s_mul(M::cast(f, cross_weight(alpha)))),
        )
    }
}

/// Propagate through the leaky rectifier, `x` for `x >= 0` and `alpha * x`
/// otherwise.
///
/// Uses `leaky(x) = alpha * x + (1 - alpha) * relu(x)`, so the moments combine
/// the raw and the rectified moments. Large input values can still overflow the
/// resulting moments.
pub fn propagate_leaky_relu<B: Backend>(m: &Moments<B>, alpha: B::Elem) -> (r: Moments<B>)
    requires
        m.wf(),
        slope_fault::<B>(B::format(&m.mean), alpha) is None,
    ensures
        r.wf(),
        B::format(&r.mean) == B::format(&m.mean),
        grid::<B>(&r.mean) == both(
            grid::<B>(&m.mean),
            grid::<B>(&m.var),
            |mu: B::Elem, v: B::Elem| leaky_mean::<B>(B::format(&m.mean), alpha, mu, v),
        ),
        grid::<B>(&r.var) == both(
            grid::<B>(&m.mean),
            grid::<B>(&m.var),
            |mu: B::Elem, v: B::Elem| leaky_variance::<B>(B::format(&m.mean), alpha, mu, v),
        ),
{
    broadcast use group_tables;

    let rest = B::Elem::whole(1).minus(alpha);
    let alpha_sq = alpha.times(alpha);
    let rest_sq = rest.times(rest);
    let cross = B::Elem::whole(2).times(alpha).times(rest);
    let terms = gaussian_relu_terms::<B>(&m.mean, &m.var);

    let rectified = B::scaled(&terms.mean, rest);
    let raw = B::scaled(&m.mean, alpha);
    let central = B::plus(&rectified, &raw);
    let linear = B::select(&central, &terms.active, &m.mean);
    let steep = B::select(&linear, &terms.inactive, &raw);
    let positive = B::raised_to(&m.mean, B::Elem::whole(0));
    let negative = B::lowered_to(&m.mean, B::Elem::whole(0));
    let leaked = B::scaled(&negative, alpha);
    let fixed = B::plus(&positive, &leaked);
    let mean = B::select(&steep, &terms.deterministic, &fixed);

    // The covariance of input and rectified input is var * Phi. This avoids
    // another unstable second-moment subtraction.
    let raw_var = B::scaled(&m.var, alpha_sq);
    let rectified_var = B::scaled(&terms.var, rest_sq);
    let weighted = B::scaled(&terms.p, cross);
    let shared = B::times(&m.var, &weighted);
    let own = B::plus(&raw_var, &rectified_var);
    let central_var = B::plus(&own, &shared);
    let linear_var = B::select(&central_var, &terms.active, &m.var);
    let steep_var = B::select(&linear_var, &terms.inactive, &raw_var);
    let var = B::fill(&steep_var, &terms.deterministic, B::Elem::whole(0));
    proof {
        lemma_both_ext(
            grid::<B>(&mean),
            grid::<B>(&m.mean),
            grid::<B>(&m.var),
            |mu: B::Elem, v: B::Elem| leaky_mean::<B>(B::format(&m.mean), alpha, mu, v),
        );
        lemma_both_ext(
            grid::<B>(&var),
            grid::<B>(&m.mean),
            grid::<B>(&m.var),
            |mu: B::Elem, v: B::Elem| leaky_variance::<B>(B::format(&m.mean), alpha, mu, v),
        );
    }
    Moments { mean, var }
}

} // verus!
