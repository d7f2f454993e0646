//! The moments as formulas, in whatever arithmetic.
//!
//! Nothing is asked of the numbers here: the formulas hold of numbers that round,
//! overflow or are undefined, operation by operation and in this order.
use vstd::prelude::*;

use crate::backend::Format;
use crate::scalar::Scalar;

verus! {

use crate::backend::{layer_products, lowered, product, raised, sign_of, Model};
use crate::burn_sdp::cauchy::rectified;
use crate::burn_sdp::cross::cross_gate;
use crate::burn_sdp::full::{
    correlation, covariance_density, covariance_gate, covariance_slope, diagonal_blocks, diagonals,
    left_product, rectified_covariance, relu_covariances, right_product,
};
use crate::burn_sdp::rectify;
use crate::burn_sdp::rectify::{
    alpha_of, bounded_alpha, central_mass, central_variance, density_of, first_ratio, leaky_mean,
    leaky_variance, second_ratio, tail_mass, tail_ratio,
};
use crate::gaussian;
use crate::gaussian::{clamped, density, distribution, series_from, tail_fraction};
use crate::tensor::{group_tables, Block, Grid};
use crate::vector;

/// Limits and signs: a number beyond a limit becomes the limit, and any other
/// stays, also one that compares with nothing.
pub proof fn law_limit_forms<M: Model>(f: Format, x: M::Elem, low: M::Elem, high: M::Elem)
    ensures
        ({
            let zero = M::cast(f, M::Elem::s_int(0));
            &&& x.s_lt(low) ==> raised(x, low) == low && clamped(x, low, high) == low
            &&& !x.s_lt(low) ==> raised(x, low) == x
            &&& high.s_lt(x) ==> lowered(x, high) == high
            &&& !high.s_lt(x) ==> lowered(x, high) == x
            &&& !x.s_lt(low) && high.s_lt(x) ==> clamped(x, low, high) == high
            &&& !x.s_lt(low) && !high.s_lt(x) ==> clamped(x, low, high) == x
            &&& low.s_le(x) ==> vector::at_least(x, low) == x
            &&& !low.s_le(x) ==> vector::at_least(x, low) == low
            &&& x.s_lt(zero) ==> rectified::<M>(f, x) == zero
            &&& !x.s_lt(zero) ==> rectified::<M>(f, x) == x
            &&& x.s_eq(zero) ==> sign_of::<M>(f, x) == zero
            &&& !x.s_eq(zero) && zero.s_lt(x) ==> sign_of::<M>(f, x) == M::cast(
                f,
                M::Elem::s_int(1),
            )
            &&& !x.s_eq(zero) && !zero.s_lt(x) ==> sign_of::<M>(f, x) == M::cast(
                f,
                M::Elem::s_int(-1),
            )
        }),
{
}

/// The ratio of mean to deviation: a mean of more than eight deviations counts as
/// eight of them, on either side of zero.
pub proof fn law_ratio_form<M: Model>(f: Format, mu: M::Elem, sigma: M::Elem, v: M::Elem)
    ensures
        ({
            let (zero, one) = (M::cast(f, M::Elem::s_int(0)), M::cast(f, M::Elem::s_int(1)));
            let limit = sigma.s_mul(M::cast(f, M::Elem::s_int(8)));
            let a = bounded_alpha::<M>(f, mu, sigma);
            &&& mu.s_lt(limit.s_neg()) ==> a == limit.s_neg().s_div(sigma)
            &&& !mu.s_lt(limit.s_neg()) && limit.s_lt(mu) ==> a == limit.s_div(sigma)
            &&& !mu.s_lt(limit.s_neg()) && !limit.s_lt(mu) ==> a == mu.s_div(sigma)
            &&& v.s_le(zero) ==> alpha_of::<M>(f, mu, v) == bounded_alpha::<M>(f, mu, one.s_sqrt())
            &&& !v.s_le(zero) ==> alpha_of::<M>(f, mu, v) == bounded_alpha::<M>(f, mu, v.s_sqrt())
        }),
{
}

/// Distribution function, density and variance of a unit-variance normal about
/// `a`: `(erf(a sqrt(1/2)) + 1) / 2`, `exp(-a^2 / 2) / sqrt(2 pi)` and
/// `a^2 p (1 - p) + p + a phi (1 - 2 p) - phi^2`.
pub proof fn law_central_forms<M: Model>(f: Format, a: M::Elem)
    ensures
        ({
            let one = M::cast(f, M::Elem::s_int(1));
            let half = M::Elem::s_int(1).s_div(M::Elem::s_int(2));
            let peak = M::Elem::s_int(1).s_div(
                M::Elem::s_int(2).s_mul(M::Elem::s_pi()).s_sqrt(),
            );
            let (p, phi) = (central_mass::<M>(f, a), density_of::<M>(f, a));
            let rest = p.s_mul(M::cast(f, M::Elem::s_int(-1))).s_add(one);
            let skew = p.s_mul(M::cast(f, M::Elem::s_int(-2))).s_add(one);
            &&& p == a.s_mul(M::cast(f, half.s_sqrt())).s_erf().s_add(one).s_mul(M::cast(f, half))
            &&& phi == a.s_mul(a).s_mul(M::cast(f, half.s_neg())).s_exp().s_mul(M::cast(f, peak))
            &&& central_variance::<M>(f, a) == a.s_mul(a).s_mul(p).s_mul(rest).s_add(p).s_add(
                a.s_mul(phi).s_mul(skew),
            ).s_sub(phi.s_mul(phi))
        }),
{
}

/// The continued fraction of the normal tail, `n / (t + (n + 1) / (t + ...))`,
/// with 96 levels in double precision and 32 in the other formats.
pub proof fn law_tail_levels<M: Model>(f: Format, t: M::Elem, n: int)
    ensures
        ({
            let depth = if f == Format::F64 {
                96int
            } else {
                32
            };
            let one = M::cast(f, M::Elem::s_int(1));
            let level = M::cast(f, M::Elem::s_int(n));
            &&& n == depth ==> tail_ratio::<M>(f, t, n, depth) == one.s_div(t).s_mul(level)
            &&& n < depth ==> tail_ratio::<M>(f, t, n, depth) == one.s_div(
                t.s_add(tail_ratio::<M>(f, t, n + 1, depth)),
            ).s_mul(level)
            &&& second_ratio::<M>(f, t) == tail_ratio::<M>(f, t, 2, depth)
            &&& first_ratio::<M>(f, t) == one.s_div(t.s_add(second_ratio::<M>(f, t)))
        }),
{
}

/// Mass, mean and variance of the tail of a unit-variance normal about `a`, over
/// the first two levels of the fraction at `-a`, or at two where that is less.
pub proof fn law_tail_forms<M: Model>(f: Format, a: M::Elem)
    ensures
        ({
            let two = M::cast(f, M::Elem::s_int(2));
            let t = if a.s_neg().s_lt(two) {
                two
            } else {
                a.s_neg()
            };
            let (r1, r2) = (first_ratio::<M>(f, t), second_ratio::<M>(f, t));
            let m = rectify::tail_mean::<M>(f, a);
            &&& tail_mass::<M>(f, a) == density_of::<M>(f, a).s_div(t.s_add(r1))
            &&& m == tail_mass::<M>(f, a).s_mul(r1)
            &&& rectify::tail_variance::<M>(f, a) == m.s_mul(r2).s_sub(m.s_mul(m))
        }),
{
}

/// Mean, variance and factor of the rectifier: the limits at eight deviations,
/// the tail below two deviations under zero, and the closed forms between.
pub proof fn law_rectifier_forms<M: Model>(f: Format, mu: M::Elem, v: M::Elem)
    requires
        !v.s_le(M::cast(f, M::Elem::s_int(0))),
    ensures
        ({
            let (zero, one) = (M::cast(f, M::Elem::s_int(0)), M::cast(f, M::Elem::s_int(1)));
            let sigma = v.s_sqrt();
            let a = bounded_alpha::<M>(f, mu, sigma);
            let off = a.s_le(M::cast(f, M::Elem::s_int(-8)));
            let on = M::cast(f, M::Elem::s_int(8)).s_le(a);
            let tail = a.s_lt(M::cast(f, M::Elem::s_int(-2)));
            let (p, phi) = (central_mass::<M>(f, a), density_of::<M>(f, a));
            let (m, s) = (rectify::relu_mean::<M>(f, mu, v), rectify::relu_variance::<M>(f, mu, v));
            let g = cross_gate::<M>(f, mu, v);
            let product = if tail {
                v.s_mul(rectify::tail_variance::<M>(f, a))
            } else {
                v.s_mul(central_variance::<M>(f, a))
            };
            &&& off ==> m == zero && s == zero && g == zero
            &&& !off && on ==> m == mu && s == v && g == one
            &&& !off && !on && tail ==> m == sigma.s_mul(rectify::tail_mean::<M>(f, a)) && g
                == tail_mass::<M>(f, a)
            &&& !off && !on && !tail ==> m == mu.s_mul(p).s_add(sigma.s_mul(phi)) && g == p
            &&& !off && !on && product.s_lt(zero) ==> s == zero
            &&& !off && !on && !product.s_lt(zero) ==> s == product
        }),
{
}

/// Mean and variance of the leaky rectifier of slope `l`: those of the rectifier
/// times `1 - l` and `(1 - l)^2`, the input's times `l` and `l^2`, and for the
/// variance what the two share, `2 l (1 - l)` of the input's times the factor.
pub proof fn law_leaky_forms<M: Model>(f: Format, l: M::Elem, mu: M::Elem, v: M::Elem)
    requires
        !v.s_le(M::cast(f, M::Elem::s_int(0))),
    ensures
        ({
            let a = bounded_alpha::<M>(f, mu, v.s_sqrt());
            let off = a.s_le(M::cast(f, M::Elem::s_int(-8)));
            let on = M::cast(f, M::Elem::s_int(8)).s_le(a);
            let rest = M::Elem::s_int(1).s_sub(l);
            let both = M::Elem::s_int(2).s_mul(l).s_mul(rest);
            let slope = M::cast(f, l);
            let square = M::cast(f, l.s_mul(l));
            let (m, s) = (rectify::relu_mean::<M>(f, mu, v), rectify::relu_variance::<M>(f, mu, v));
            let g = cross_gate::<M>(f, mu, v);
            let (lm, ls) = (leaky_mean::<M>(f, l, mu, v), leaky_variance::<M>(f, l, mu, v));
            &&& off ==> lm == mu.s_mul(slope) && ls == v.s_mul(square)
            &&& !off && on ==> lm == mu && ls == v
            &&& !off && !on ==> lm == m.s_mul(M::cast(f, rest)).s_add(mu.s_mul(slope))
            &&& !off && !on ==> ls == v.s_mul(square).s_add(
                s.s_mul(M::cast(f, rest.s_mul(rest))),
            ).s_add(v.s_mul(g.s_mul(M::cast(f, both))))
        }),
{
}

/// The correlation: the covariance over the larger deviation and then over the
/// smaller one, between minus one and one.
pub proof fn law_correlation_form<M: Model>(f: Format, c: M::Elem, a: M::Elem, b: M::Elem)
    ensures
        ({
            let low = M::cast(f, M::Elem::s_int(-1));
            let high = M::cast(f, M::Elem::s_int(1));
            let q = if a.s_lt(b) {
                c.s_div(b).s_div(a)
            } else {
                c.s_div(a).s_div(b)
            };
            let r = correlation::<M>(f, c, a, b);
            &&& q.s_lt(low) ==> r == low
            &&& !q.s_lt(low) && high.s_lt(q) ==> r == high
            &&& !q.s_lt(low) && !high.s_lt(q) ==> r == q
        }),
{
}

/// What a feature brings into the covariance after the rectifier: the factor,
/// the density at the ratio, and the density times the ratio, the last two zero
/// where the rectifier is at a limit.
pub proof fn law_feature_forms<M: Model>(f: Format, mu: M::Elem, v: M::Elem)
    ensures
        ({
            let (zero, one) = (M::cast(f, M::Elem::s_int(0)), M::cast(f, M::Elem::s_int(1)));
            let a = alpha_of::<M>(f, mu, v);
            let off = a.s_le(M::cast(f, M::Elem::s_int(-8)));
            let on = M::cast(f, M::Elem::s_int(8)).s_le(a);
            let tail = a.s_lt(M::cast(f, M::Elem::s_int(-2)));
            let (g, d) = (covariance_gate::<M>(f, mu, v), covariance_density::<M>(f, mu, v));
            &&& off ==> g == zero
            &&& !off && on ==> g == one
            &&& !off && !on && tail ==> g == tail_mass::<M>(f, a)
            &&& !off && !on && !tail ==> g == central_mass::<M>(f, a)
            &&& off || on || v.s_le(zero) ==> d == zero
            &&& !off && !on && !v.s_le(zero) ==> d == density_of::<M>(f, a)
            &&& covariance_slope::<M>(f, mu, v) == a.s_mul(d)
        }),
{
}

/// The covariance of two rectified features of covariance `c`:
/// `s_i s_j rho (g_i g_j + rho (d_i d_j / 2 + rho e_i e_j / 6))`, over what each
/// of them brings in.
pub proof fn law_covariance_form<M: Model>(
    f: Format,
    c: M::Elem,
    mu_i: M::Elem,
    v_i: M::Elem,
    mu_j: M::Elem,
    v_j: M::Elem,
)
    ensures
        ({
            let (zero, one) = (M::cast(f, M::Elem::s_int(0)), M::cast(f, M::Elem::s_int(1)));
            let half = M::cast(f, M::Elem::s_int(1).s_div(M::Elem::s_int(2)));
            let sixth = M::cast(f, M::Elem::s_int(1).s_div(M::Elem::s_int(6)));
            let s_i = (if v_i.s_le(zero) {
                one
            } else {
                v_i
            }).s_sqrt();
            let s_j = (if v_j.s_le(zero) {
                one
            } else {
                v_j
            }).s_sqrt();
            let rho = correlation::<M>(f, c, s_i, s_j);
            let g = covariance_gate::<M>(f, mu_i, v_i).s_mul(covariance_gate::<M>(f, mu_j, v_j));
            let d = covariance_density::<M>(f, mu_i, v_i).s_mul(
                covariance_density::<M>(f, mu_j, v_j),
            );
            let e = covariance_slope::<M>(f, mu_i, v_i).s_mul(covariance_slope::<M>(f, mu_j, v_j));
            rectified_covariance::<M>(f, c, mu_i, v_i, mu_j, v_j) == s_i.s_mul(s_j).s_mul(
                rho.s_mul(
                    g.s_add(rho.s_mul(d.s_mul(half).s_add(rho.s_mul(e.s_mul(sixth))))),
                ),
            )
        }),
{
}

/// Variances out of covariances and back, and covariances after the rectifier:
/// off the diagonal those of the rectified pair, on it the variance of the
/// rectified feature.
pub proof fn law_full_forms<M: Model>(
    f: Format,
    mean: Grid<M::Elem>,
    var: Grid<M::Elem>,
    cov: Block<M::Elem>,
    b: int,
    i: int,
    j: int,
)
    requires
        cov.has(b, i, j),
        cov.rows == cov.cols,
        var.dims() == (cov.layers, cov.rows),
    ensures
        ({
            let (zero, one) = (M::cast(f, M::Elem::s_int(0)), M::cast(f, M::Elem::s_int(1)));
            let delta = |k: int|
                if i == k {
                    one
                } else {
                    zero
                };
            let d = diagonals::<M>(f, cov);
            let apart = delta(j).s_mul(M::cast(f, M::Elem::s_int(-1))).s_add(one);
            &&& diagonal_blocks::<M>(f, var).at(b, i, j) == var.at(b, i).s_mul(delta(j))
            &&& d.at(b, i) == M::sum(
                Seq::new(cov.cols, |k: int| cov.at(b, i, k).s_mul(delta(k))),
            )
            &&& relu_covariances::<M>(f, mean, cov).at(b, i, j) == rectified_covariance::<M>(
                f,
                cov.at(b, i, j).s_mul(apart),
                mean.at(b, i),
                d.at(b, i),
                mean.at(b, j),
                d.at(b, j),
            ).s_add(rectify::relu_variance::<M>(f, mean.at(b, i), d.at(b, i)).s_mul(delta(j)))
        }),
{
    broadcast use group_tables;

    let (zero, one) = (M::cast(f, M::Elem::s_int(0)), M::cast(f, M::Elem::s_int(1)));
    let delta = |k: int|
        if i == k {
            one
        } else {
            zero
        };
    assert(crate::burn_sdp::full::masked_row::<M>(f, cov, b, i) =~= Seq::new(
        cov.cols,
        |k: int| cov.at(b, i, k).s_mul(delta(k)),
    ));
}

/// Every entry of a product is one inner product: of a row of the left factor and
/// a column of the right one, from the same place in the batch.
pub proof fn law_product_forms<M: Model>(
    x: Grid<M::Elem>,
    w: Grid<M::Elem>,
    c: Block<M::Elem>,
    d: Block<M::Elem>,
    b: int,
    i: int,
    j: int,
)
    ensures
        0 <= i < x.rows && 0 <= j < w.cols ==> product::<M>(x, w).at(i, j) == M::inner(
            Seq::new(x.cols, |k: int| x.at(i, k)),
            Seq::new(w.rows, |k: int| w.at(k, j)),
        ),
        0 <= b < c.layers && 0 <= i < c.rows && 0 <= j < w.cols ==> right_product::<M>(c, w).at(
            b,
            i,
            j,
        ) == M::inner3(
            Seq::new(c.cols, |k: int| c.at(b, i, k)),
            Seq::new(w.rows, |k: int| w.at(k, j)),
        ),
        0 <= b < c.layers && 0 <= i < w.cols && 0 <= j < c.cols ==> left_product::<M>(w, c).at(
            b,
            i,
            j,
        ) == M::inner3(
            Seq::new(w.rows, |k: int| w.at(k, i)),
            Seq::new(c.rows, |k: int| c.at(b, k, j)),
        ),
        0 <= b < c.layers && 0 <= i < c.rows && 0 <= j < d.cols ==> layer_products::<M>(c, d).at(
            b,
            i,
            j,
        ) == M::inner3(
            Seq::new(c.cols, |k: int| c.at(b, i, k)),
            Seq::new(d.rows, |k: int| d.at(b, k, j)),
        ),
{
    broadcast use group_tables;

    assert(x.row(i) =~= Seq::new(x.cols, |k: int| x.at(i, k)));
    assert(w.col(j) =~= Seq::new(w.rows, |k: int| w.at(k, j)));
    assert(w.col(i) =~= Seq::new(w.rows, |k: int| w.at(k, i)));
    assert(0 <= b < c.layers && 0 <= i < c.rows ==> c.layer(b).row(i) =~= Seq::new(
        c.cols,
        |k: int| c.at(b, i, k),
    ));
    assert(0 <= b < c.layers && 0 <= j < c.cols ==> c.layer(b).col(j) =~= Seq::new(
        c.rows,
        |k: int| c.at(b, k, j),
    ));
    assert(0 <= j < d.cols ==> d.layer(b).col(j) =~= Seq::new(d.rows, |k: int| d.at(b, k, j)));
}

/// The fraction of the normal tail on vectors, `n / (t + (n + 1) / (t + ...))` with
/// 96 levels, and the series `x + x^3 / 3 + x^5 / 15 + ...` of the distribution
/// function, which ends with its 200th term or where a term changes nothing.
pub proof fn law_vector_levels<S: Scalar>(t: S, n: int, x: S, term: S, sum: S)
    ensures
        n > 96 ==> tail_fraction(t, n) == S::s_int(0),
        n <= 96 ==> tail_fraction(t, n) == S::s_int(n).s_div(
            t.s_add(tail_fraction(t, n + 1)),
        ),
        ({
            let more = term.s_mul(x.s_mul(x).s_div(S::s_int(2 * n + 1)));
            let next = sum.s_add(more);
            &&& n >= 200 || next.s_eq(sum) ==> series_from(x, term, sum, n) == sum
            &&& n < 200 && !next.s_eq(sum) ==> series_from(x, term, sum, n) == series_from(
                x,
                more,
                next,
                n + 1,
            )
        }),
{
}

/// Density, distribution function and tail moments of the normal distribution on
/// vectors.
pub proof fn law_normal_forms<S: Scalar>(x: S, pdf: S)
    ensures
        ({
            let (zero, one, two) = (S::s_int(0), S::s_int(1), S::s_int(2));
            let half = one.s_div(two);
            let z = half.s_add(pdf.s_mul(series_from(x, x, x, 1)));
            let r2 = tail_fraction(x, 2);
            let r1 = one.s_div(x.s_add(r2));
            let mean = gaussian::tail_mean(x, pdf);
            &&& density(x) == half.s_neg().s_mul(x).s_mul(x).s_exp().s_div(
                two.s_mul(S::s_pi()).s_sqrt(),
            )
            &&& z.s_lt(zero) ==> distribution(x, pdf) == zero
            &&& !z.s_lt(zero) && one.s_lt(z) ==> distribution(x, pdf) == one
            &&& !z.s_lt(zero) && !one.s_lt(z) ==> distribution(x, pdf) == z
            &&& mean == pdf.s_mul(r1).s_div(x.s_add(r1))
            &&& gaussian::tail_variance(x, pdf) == mean.s_mul(r2).s_sub(mean.s_mul(mean))
        }),
{
}

/// Mean and variance of the rectifier on vectors.
pub proof fn law_vector_rectifier_forms<S: Scalar>(mu: S, v: S)
    ensures
        ({
            let (zero, one, two) = (S::s_int(0), S::s_int(1), S::s_int(2));
            let sigma = v.s_sqrt();
            let a = mu.s_div(sigma);
            let phi = density(a);
            let p = distribution(a, phi);
            let fixed = v.s_eq(zero);
            let on = S::s_int(8).s_le(a);
            let off = a.s_le(S::s_int(-8));
            let tail = a.s_lt(S::s_int(-2));
            let (m, s) = (vector::relu_mean(mu, v), vector::relu_variance(mu, v));
            let unit = a.s_mul(a).s_mul(p).s_mul(one.s_sub(p)).s_add(p).s_add(
                a.s_mul(phi).s_mul(one.s_sub(two.s_mul(p))),
            ).s_sub(phi.s_mul(phi));
            let product = v.s_mul(unit);
            &&& fixed && zero.s_le(mu) ==> m == mu && s == zero
            &&& fixed && !zero.s_le(mu) ==> m == zero && s == zero
            &&& !fixed && on ==> m == mu && s == v
            &&& !fixed && !on && off ==> m == zero && s == zero
            &&& !fixed && !on && !off && tail ==> m == sigma.s_mul(
                gaussian::tail_mean(a.s_neg(), phi),
            ) && s == v.s_mul(gaussian::tail_variance(a.s_neg(), phi))
            &&& !fixed && !on && !off && !tail ==> m == mu.s_mul(p).s_add(sigma.s_mul(phi))
            &&& !fixed && !on && !off && !tail && zero.s_le(product) ==> s == product
            &&& !fixed && !on && !off && !tail && !zero.s_le(product) ==> s == zero
        }),
{
}

} // verus!
