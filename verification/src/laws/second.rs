//! Reflection of second moments in double precision, up to rounding.
use vstd::prelude::*;

use crate::binary64::Binary64;
use crate::scalar::Scalar;

verus! {

use crate::binary64::arithmetic::{opposite, product, quotient, square_root, sum};
use crate::binary64::errors::{exact, least, lemma_exact_opposite, size};
use crate::gaussian::{density, distribution};
use crate::laws::accuracy::{growth, is_near, lemma_growth, lemma_near_more};
use crate::laws::reflection::is_not_cut;
use crate::laws::symmetry::{
    is_central, is_far, lemma_central_means, lemma_deviation, lemma_factors_finite, lemma_far_sides,
    lemma_finite_parts, lemma_sides,
};
use crate::laws::unit::{
    exact_unit, lemma_exact_second_moments, lemma_grown_product, lemma_grown_self, lemma_grown_sum,
    lemma_near_bound, lemma_near_probability, lemma_near_ratio, lemma_near_square, lemma_near_unit,
    lemma_near_variance, unit_mass,
};
use crate::vector::{relu_mean, relu_variance, unit_relu_variance};

/// The rectified variances of the two sides, where they are not cut off.
proof fn lemma_central_variances(mu: Binary64, v: Binary64)
    requires
        mu.is_finite(),
        v.is_finite(),
        v.code() > 0,
        !v.negative(),
        is_central(quotient(mu, square_root(v))),
        is_not_cut(mu, v),
        is_not_cut(opposite(mu), v),
    ensures
        ({
            let a = quotient(mu, square_root(v));
            let phi = density(a);
            &&& relu_variance(mu, v) == product(
                v,
                unit_relu_variance(a, distribution(a, phi), phi),
            )
            &&& relu_variance(opposite(mu), v) == product(
                v,
                unit_relu_variance(opposite(a), distribution(opposite(a), phi), phi),
            )
        }),
{
    lemma_central_means(mu, v);
    crate::laws::double::lemma_small_integers();
    crate::binary64::lemma_decoded(v);
}

/// How the errors of two second moments add up.
proof fn lemma_moment_sum(
    v1: real,
    v2: real,
    m1: real,
    m2: real,
    w: real,
    u1: real,
    u2: real,
    x1: real,
    x2: real,
    ss: real,
    mm: real,
    h: real,
    p: real,
    q: real,
)
    requires
        size(v1 - u1) <= h * p,
        size(v2 - u2) <= h * p,
        size(m1 - x1) <= h * q,
        size(m2 - x2) <= h * q,
        size(w - ss) <= h * ss,
        u1 + u2 + x1 + x2 == mm + ss,
    ensures
        size((v1 + m1) + (v2 + m2) - (mm + w)) <= h * (2 as real * p + 2 as real * q + ss),
{
    let (d1, d2, d3, d4, d5) = (v1 - u1, v2 - u2, m1 - x1, m2 - x2, w - ss);
    assert((v1 + m1) + (v2 + m2) - (mm + w) == d1 + d2 + d3 + d4 - d5);
    lemma_five_sizes(d1, d2, d3, d4, d5);
    assert(h * (2 as real * p + 2 as real * q + ss) == 2 as real * (h * p) + 2 as real * (h * q) + h
        * ss) by (nonlinear_arith);
}

/// The size of a sum of five.
proof fn lemma_five_sizes(a: real, b: real, c: real, d: real, e: real)
    ensures
        size(a + b + c + d - e) <= size(a) + size(b) + size(c) + size(d) + size(e),
{
}

/// The magnitude of a rectified mean, for a mean `m`, a deviation `s` and a
/// density `f`.
#[verifier::opaque]
pub open spec fn mean_mass(m: real, s: real, f: real) -> real {
    (size(m) + least()) + (s * size(f) + least())
}

/// The variance of one side.
proof fn lemma_side_variance(
    v: Binary64,
    alpha: Binary64,
    p: Binary64,
    phi: Binary64,
    ss: real,
    a: real,
    x: real,
    f: real,
    t: real,
    r: real,
)
    requires
        is_near(v, ss, ss, growth(2)),
        is_near(alpha, a, r, growth(1)),
        is_near(p, x, 1 as real, growth(1)),
        is_near(phi, f, t, growth(1)),
        product(v, unit_relu_variance(alpha, p, phi)).is_finite(),
    ensures
        size(
            exact(product(v, unit_relu_variance(alpha, p, phi))) - ss * exact_unit(a, x, f),
        ) <= (growth(14) - 1 as real) * (ss * unit_mass(r, t) + least()),
{
    let unit = unit_relu_variance(alpha, p, phi);
    lemma_factors_finite(v, unit);
    lemma_near_unit(alpha, p, phi, a, x, f, r, t);
    lemma_grown_product(v, unit, ss, exact_unit(a, x, f), ss, unit_mass(r, t), 2, 11);
    lemma_near_bound(
        product(v, unit),
        ss * exact_unit(a, x, f),
        ss * unit_mass(r, t) + least(),
        growth(14),
    );
}

/// The mean of one side.
pub proof fn lemma_side_mean(
    mu: Binary64,
    sigma: Binary64,
    p: Binary64,
    phi: Binary64,
    m: real,
    s: real,
    x: real,
    f: real,
)
    requires
        m == exact(mu),
        s == exact(sigma),
        f == exact(phi),
        s > 0 as real,
        is_near(p, x, 1 as real, growth(1)),
        sum(product(mu, p), product(sigma, phi)).is_finite(),
    ensures
        is_near(
            sum(product(mu, p), product(sigma, phi)),
            m * x + s * f,
            mean_mass(m, s, f),
            growth(3),
        ),
{
    reveal(mean_mass);
    let l = least();
    lemma_finite_parts(mu, p, product(sigma, phi));
    lemma_factors_finite(sigma, phi);
    lemma_grown_self(phi);
    lemma_grown_self(sigma);
    lemma_grown_self(mu);
    lemma_grown_product(mu, p, m, x, size(m), 1 as real, 0, 1);
    let n = size(m);
    assert(n * 1 as real == n) by (nonlinear_arith);
    lemma_grown_product(sigma, phi, s, f, s, size(f), 0, 0);
    lemma_grown_sum(
        product(mu, p),
        product(sigma, phi),
        m * x,
        s * f,
        n + l,
        s * size(f) + l,
        2,
        1,
        2,
    );
}

/// The square of the mean of one side.
proof fn lemma_side_square(c: Binary64, y: real, m: real)
    requires
        is_near(c, y, m, growth(3)),
    ensures
        size(exact(c) * exact(c) - y * y) <= (growth(14) - 1 as real) * (m * m),
{
    lemma_near_square(c, y, m, growth(3));
    lemma_growth(3, 3);
    lemma_growth(6, 8);
    let square = m * m;
    assert(square >= 0 as real) by (nonlinear_arith)
        requires
            square == m * m,
    ;
    let (g, h) = (growth(6) - 1 as real, growth(14) - 1 as real);
    assert(g * square <= h * square) by (nonlinear_arith)
        requires
            g <= h,
            square >= 0 as real,
    ;
}

/// The second moments of the two sides, in real numbers and by name.
proof fn lemma_named_moments(
    a: real,
    m: real,
    s: real,
    x: real,
    f: real,
    x1: real,
    x2: real,
)
    requires
        m == a * s,
        x1 == m * x + s * f,
        x2 == (-m) * (1 as real - x) + s * f,
    ensures
        (s * s) * exact_unit(a, x, f) + (s * s) * exact_unit(-a, 1 as real - x, f) + x1 * x1 + x2
            * x2 == m * m + s * s,
{
    lemma_exact_second_moments(a, x, f, s);
    assert(x1 == (a * s) * x + s * f);
    assert(x2 == (-(a * s)) * (1 as real - x) + s * f);
}

/// The magnitude of the second moments of the two sides, for a mean `m`, a
/// deviation `s`, their ratio `a` and a density `f`.
pub open spec fn second_moment_mass(a: real, m: real, s: real, f: real) -> real {
    2 as real * ((s * s) * unit_mass(size(a) + least(), size(f)) + least()) + 2 as real * (
    mean_mass(m, s, f) * mean_mass(m, s, f)) + s * s
}

/// The magnitude of a mean does not depend on its sign.
proof fn lemma_mean_mass(m: real, s: real, f: real)
    ensures
        mean_mass(-m, s, f) == mean_mass(m, s, f),
{
    reveal(mean_mass);
    assert(size(-m) == size(m));
}

/// The second moments of two sides whose probabilities make one up to rounding.
proof fn lemma_second_moments(
    mu: Binary64,
    v: Binary64,
    sigma: Binary64,
    alpha: Binary64,
    phi: Binary64,
    f: Binary64,
    g: Binary64,
    a: real,
    m: real,
    s: real,
    d: real,
    x: real,
)
    requires
        m == exact(mu),
        -m == exact(opposite(mu)),
        s == exact(sigma),
        d == exact(phi),
        s > 0 as real,
        m == a * s,
        phi.is_finite(),
        is_near(v, s * s, s * s, growth(2)),
        is_near(alpha, a, size(a) + least(), growth(1)),
        is_near(opposite(alpha), -a, size(a) + least(), growth(1)),
        is_near(f, x, 1 as real, growth(1)),
        is_near(g, 1 as real - x, 1 as real, growth(1)),
        product(v, unit_relu_variance(alpha, f, phi)).is_finite(),
        product(v, unit_relu_variance(opposite(alpha), g, phi)).is_finite(),
        sum(product(mu, f), product(sigma, phi)).is_finite(),
        sum(product(opposite(mu), g), product(sigma, phi)).is_finite(),
    ensures
        ({
            let c1 = sum(product(mu, f), product(sigma, phi));
            let c2 = sum(product(opposite(mu), g), product(sigma, phi));
            size(
                (exact(product(v, unit_relu_variance(alpha, f, phi))) + exact(c1) * exact(c1)) + (
                exact(product(v, unit_relu_variance(opposite(alpha), g, phi))) + exact(c2) * exact(
                    c2,
                )) - (m * m + exact(v)),
            ) <= (growth(14) - 1 as real) * second_moment_mass(a, m, s, d)
        }),
{
    let y = 1 as real - x;
    let r = size(a) + least();
    let ss = s * s;
    lemma_grown_self(phi);
    lemma_growth(0, 1);
    lemma_near_more(phi, d, size(d), growth(0), growth(1));
    lemma_side_variance(v, alpha, f, phi, ss, a, x, d, size(d), r);
    lemma_side_variance(v, opposite(alpha), g, phi, ss, -a, y, d, size(d), r);
    lemma_side_mean(mu, sigma, f, phi, m, s, x, d);
    lemma_side_mean(opposite(mu), sigma, g, phi, -m, s, y, d);
    lemma_mean_mass(m, s, d);
    let c1 = sum(product(mu, f), product(sigma, phi));
    let c2 = sum(product(opposite(mu), g), product(sigma, phi));
    let (x1, x2) = (m * x + s * d, (-m) * y + s * d);
    let mass = mean_mass(m, s, d);
    lemma_side_square(c1, x1, mass);
    lemma_side_square(c2, x2, mass);
    lemma_named_moments(a, m, s, x, d, x1, x2);
    lemma_growth(2, 12);
    lemma_near_bound(v, ss, ss, growth(2));
    assert(ss >= 0 as real) by (nonlinear_arith)
        requires
            ss == s * s,
    ;
    let (k, h) = (growth(2) - 1 as real, growth(14) - 1 as real);
    assert(k * ss <= h * ss) by (nonlinear_arith)
        requires
            k <= h,
            ss >= 0 as real,
    ;
    lemma_moment_sum(
        exact(product(v, unit_relu_variance(alpha, f, phi))),
        exact(product(v, unit_relu_variance(opposite(alpha), g, phi))),
        exact(c1) * exact(c1),
        exact(c2) * exact(c2),
        exact(v),
        ss * exact_unit(a, x, d),
        ss * exact_unit(-a, y, d),
        x1 * x1,
        x2 * x2,
        ss,
        m * m,
        h,
        ss * unit_mass(r, size(d)) + least(),
        mass * mass,
    );
}

/// In double precision, within two deviations of zero, the second moments of a
/// rectified number and of its rectified opposite add up to that of the number,
/// where the variances are not cut off at zero: up to `(1 + 2^-53)^14 - 1` times
/// the sum of the magnitudes of their terms.
pub proof fn law_double_relu_second_moment_reflects(mu: Binary64, v: Binary64)
    requires
        mu.is_finite(),
        v.is_finite(),
        v.code() > 0,
        !v.negative(),
        is_central(quotient(mu, square_root(v))),
        is_not_cut(mu, v),
        is_not_cut(opposite(mu), v),
        relu_mean(mu, v).is_finite(),
        relu_mean(opposite(mu), v).is_finite(),
        relu_variance(mu, v).is_finite(),
        relu_variance(opposite(mu), v).is_finite(),
    ensures
        size(
            (exact(relu_variance(mu, v)) + exact(relu_mean(mu, v)) * exact(relu_mean(mu, v))) + (
            exact(relu_variance(opposite(mu), v)) + exact(relu_mean(opposite(mu), v)) * exact(
                relu_mean(opposite(mu), v),
            )) - (exact(mu) * exact(mu) + exact(v)),
        ) <= (growth(14) - 1 as real) * second_moment_mass(
            exact(mu) / exact(square_root(v)),
            exact(mu),
            exact(square_root(v)),
            exact(density(quotient(mu, square_root(v)))),
        ),
{
    lemma_central_means(mu, v);
    lemma_central_variances(mu, v);
    lemma_deviation(v);
    let sigma = square_root(v);
    let alpha = quotient(mu, sigma);
    let phi = density(alpha);
    let (f, g) = (distribution(alpha, phi), distribution(opposite(alpha), phi));
    lemma_finite_parts(mu, f, product(sigma, phi));
    lemma_factors_finite(sigma, phi);
    lemma_sides(alpha, phi);
    lemma_near_ratio(mu, sigma);
    lemma_near_variance(v);
    lemma_near_probability(f, g);
    lemma_exact_opposite(mu);
    let a = exact(mu) / exact(sigma);
    assert(size(-a) == size(a));
    lemma_second_moments(
        mu,
        v,
        sigma,
        alpha,
        phi,
        f,
        g,
        a,
        exact(mu),
        exact(sigma),
        exact(phi),
        exact(f),
    );
}

/// In double precision, with no variance or eight deviations and more from
/// zero, the second moments of a rectified number and of its rectified opposite
/// add up to exactly that of the number.
pub proof fn law_double_relu_second_moment_reflects_far(mu: Binary64, v: Binary64)
    requires
        mu.is_finite(),
        v.is_finite(),
        !v.negative(),
        v.code() == 0 || is_far(quotient(mu, square_root(v))),
    ensures
        (exact(relu_variance(mu, v)) + exact(relu_mean(mu, v)) * exact(relu_mean(mu, v))) + (exact(
            relu_variance(opposite(mu), v),
        ) + exact(relu_mean(opposite(mu), v)) * exact(relu_mean(opposite(mu), v))) == exact(mu)
            * exact(mu) + exact(v),
{
    lemma_far_sides(mu, v);
    lemma_exact_opposite(mu);
    let m = exact(mu);
    assert((-m) * (-m) == m * m && 0 as real * 0 as real == 0 as real) by (nonlinear_arith);
}

} // verus!
