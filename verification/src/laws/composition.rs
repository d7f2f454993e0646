//! Two affine maps are one, up to rounding, in double precision.
use vstd::prelude::*;

use crate::binary64::Binary64;
use crate::dense::Dense;
use crate::scalar::Scalar;

verus! {

use crate::backend::product;
use crate::binary64::arithmetic::sum;
use crate::binary64::errors::{epsilon, exact, size};
use crate::laws::accuracy::{
    dot_mass, exact_dot, growth, is_near, lemma_dot_finite, lemma_exact_dot_assoc,
    lemma_exact_dot_eq, lemma_exact_dot_linear, lemma_finite_terms, lemma_growth, lemma_near_dot,
    lemma_near_more, lemma_near_self, lemma_near_sum, lemma_sizes, reals, sizes,
};
use crate::burn_sdp::full::right_product;
use crate::laws::arithmetic::multiplication_commutes;
use crate::laws::double::law_double_commutes;
use crate::laws::full::mapped;
use crate::laws::vector::{chained_bias, has_shape};
use crate::matrix::{column, has_width, times_matrix};
use crate::scalar::dot;
use crate::tensor::{group_tables, Block, Grid};
use crate::vector::{linear, MomentsModel};

/// The order of the factors does not matter.
pub proof fn lemma_exact_dot_commutes(
    n: nat,
    x: spec_fn(int) -> real,
    y: spec_fn(int) -> real,
)
    ensures
        exact_dot(n, x, y) == exact_dot(n, y, x),
    decreases n,
{
    if n > 0 {
        lemma_exact_dot_commutes((n - 1) as nat, x, y);
        let (a, b) = (x(n - 1), y(n - 1));
        assert(a * b == b * a) by (nonlinear_arith);
    }
}

/// Inner products of finite entries that are near numbers.
pub proof fn lemma_near_row(
    a: Seq<Binary64>,
    b: Seq<Binary64>,
    n: nat,
    x: spec_fn(int) -> real,
    y: spec_fn(int) -> real,
    s: spec_fn(int) -> real,
    t: spec_fn(int) -> real,
    e: real,
    f: real,
)
    requires
        e >= 1 as real,
        f >= 1 as real,
        forall|i: int|
            0 <= i < n && (#[trigger] a[i]).is_finite() ==> is_near(a[i], x(i), s(i), e),
        forall|i: int|
            0 <= i < n && (#[trigger] b[i]).is_finite() ==> is_near(b[i], y(i), t(i), f),
    ensures
        dot(a, b, n).is_finite() ==> is_near(
            dot(a, b, n),
            exact_dot(n, x, y),
            dot_mass(n, s, t),
            (e * f) * growth(n + 1),
        ),
{
    if dot(a, b, n).is_finite() {
        lemma_dot_finite(a, b, n);
        lemma_near_dot(a, b, n, x, y, s, t, e, f);
    }
}

/// Entries stand for themselves.
pub proof fn lemma_near_entries(a: Seq<Binary64>)
    ensures
        forall|i: int|
            (#[trigger] a[i]).is_finite() ==> is_near(
                a[i],
                reals(a)(i),
                sizes(a)(i),
                1 as real,
            ),
{
    assert forall|i: int| (#[trigger] a[i]).is_finite() implies is_near(
        a[i],
        reals(a)(i),
        sizes(a)(i),
        1 as real,
    ) by {
        lemma_near_self(a[i]);
    }
}

/// Affine maps of entries that are near numbers.
proof fn lemma_near_affine(
    a: Seq<Binary64>,
    b: Seq<Binary64>,
    n: nat,
    c: Binary64,
    x: spec_fn(int) -> real,
    y: spec_fn(int) -> real,
    s: spec_fn(int) -> real,
    t: spec_fn(int) -> real,
    e: real,
    f: real,
    z: real,
    r: real,
    g: real,
)
    requires
        e >= 1 as real,
        f >= 1 as real,
        forall|i: int|
            0 <= i < n && (#[trigger] a[i]).is_finite() ==> is_near(a[i], x(i), s(i), e),
        forall|i: int|
            0 <= i < n && (#[trigger] b[i]).is_finite() ==> is_near(b[i], y(i), t(i), f),
        c.is_finite() ==> is_near(c, z, r, g),
        g <= (e * f) * growth(n + 1),
    ensures
        sum(dot(a, b, n), c).is_finite() ==> is_near(
            sum(dot(a, b, n), c),
            exact_dot(n, x, y) + z,
            dot_mass(n, s, t) + r,
            (e * f) * growth(n + 2),
        ),
{
    if sum(dot(a, b, n), c).is_finite() {
        lemma_finite_terms(dot(a, b, n), c);
        lemma_near_row(a, b, n, x, y, s, t, e, f);
        let h = (e * f) * growth(n + 1);
        lemma_near_more(c, z, r, g, h);
        lemma_near_sum(dot(a, b, n), c, exact_dot(n, x, y), z, dot_mass(n, s, t), r, h);
        let (ef, k, q) = (e * f, growth(n + 1), 1 as real + epsilon());
        assert((ef * k) * q == ef * (k * q)) by (nonlinear_arith);
    }
}

/// The magnitudes of the means after an affine layer.
pub open spec fn mean_masses(
    mean: Seq<Binary64>,
    weight: Seq<Seq<Binary64>>,
    bias: Seq<Binary64>,
) -> spec_fn(int) -> real {
    |k: int| dot_mass(mean.len(), sizes(weight[k]), sizes(mean)) + size(exact(bias[k]))
}

/// The magnitudes of a row of `W2 W1`.
pub open spec fn row_masses(first: Seq<Seq<Binary64>>, row: Seq<Binary64>) -> spec_fn(int) -> real {
    |i: int| dot_mass(first.len(), sizes(row), sizes(column(first, i)))
}

/// The magnitude of mean `o` after two affine layers.
pub open spec fn chained_mean_mass(
    mean: Seq<Binary64>,
    first: Seq<Seq<Binary64>>,
    a: Seq<Binary64>,
    row: Seq<Binary64>,
    b: Binary64,
) -> real {
    dot_mass(first.len(), sizes(row), mean_masses(mean, first, a)) + size(exact(b))
}

/// The magnitude of mean `o` after the one layer that stands for two.
pub open spec fn collapsed_mean_mass(
    mean: Seq<Binary64>,
    first: Seq<Seq<Binary64>>,
    a: Seq<Binary64>,
    row: Seq<Binary64>,
    b: Binary64,
) -> real {
    dot_mass(mean.len(), row_masses(first, row), sizes(mean)) + (dot_mass(
        a.len(),
        sizes(row),
        sizes(a),
    ) + size(exact(b)))
}

/// In real numbers, one mean after two affine layers.
proof fn lemma_exact_means(
    mean: Seq<Binary64>,
    first: Seq<Seq<Binary64>>,
    a: Seq<Binary64>,
    row: Seq<Binary64>,
    inner: spec_fn(int) -> real,
    outer: spec_fn(int) -> real,
)
    requires
        a.len() == first.len(),
        forall|k: int|
            0 <= k < first.len() ==> #[trigger] inner(k) == exact_dot(
                mean.len(),
                reals(first[k]),
                reals(mean),
            ) + exact(a[k]),
        forall|i: int|
            0 <= i < mean.len() ==> #[trigger] outer(i) == exact_dot(
                first.len(),
                reals(row),
                reals(column(first, i)),
            ),
    ensures
        exact_dot(first.len(), reals(row), inner) == exact_dot(mean.len(), outer, reals(mean))
            + exact_dot(first.len(), reals(row), reals(a)),
{
    let n = mean.len();
    let h = first.len();
    let f = |k: int| reals(first[k]);
    let mapped = |k: int| exact_dot(n, f(k), reals(mean));
    assert forall|i: int| 0 <= i < n implies #[trigger] outer(i) == exact_dot(
        h,
        reals(row),
        |k: int| f(k)(i),
    ) by {
        lemma_exact_dot_eq(h, reals(row), |k: int| f(k)(i), reals(row), reals(column(first, i)));
    }
    lemma_exact_dot_assoc(h, n, reals(row), f, reals(mean), mapped, outer);
    assert forall|k: int| 0 <= k < h implies #[trigger] inner(k) == mapped(k) + 1 as real * reals(a)(
        k,
    ) by {
        let v = reals(a)(k);
        assert(1 as real * v == v) by (nonlinear_arith);
    }
    lemma_exact_dot_linear(h, mapped, 1 as real, reals(a), inner, reals(row));
    lemma_exact_dot_commutes(h, inner, reals(row));
    lemma_exact_dot_commutes(h, mapped, reals(row));
    lemma_exact_dot_commutes(h, reals(a), reals(row));
    let v = exact_dot(h, reals(a), reals(row));
    assert(1 as real * v == v) by (nonlinear_arith);
}

/// Numbers that are near the same number are near each other.
pub proof fn lemma_near_both(a: Binary64, b: Binary64, x: real, m: real, t: real, e: real)
    requires
        is_near(a, x, m, e),
        is_near(b, x, t, e),
    ensures
        size(exact(a) - exact(b)) <= (e - 1 as real) * (m + t),
{
    reveal(is_near);
    lemma_sizes(exact(a) - x, exact(b) - x);
    let d = e - 1 as real;
    assert(d * m + d * t == d * (m + t)) by (nonlinear_arith);
}

/// Two affine layers in a row, one mean.
proof fn lemma_chained_mean(
    mean: Seq<Binary64>,
    first: Seq<Seq<Binary64>>,
    a: Seq<Binary64>,
    row: Seq<Binary64>,
    b: Binary64,
    between: Seq<Binary64>,
    x: spec_fn(int) -> real,
)
    requires
        forall|k: int|
            0 <= k < first.len() ==> #[trigger] between[k] == sum(
                dot(first[k], mean, mean.len()),
                a[k],
            ),
        forall|k: int|
            #[trigger]
            x(k) == exact_dot(mean.len(), reals(first[k]), reals(mean)) + exact(a[k]),
        sum(dot(row, between, first.len()), b).is_finite(),
    ensures
        is_near(
            sum(dot(row, between, first.len()), b),
            exact_dot(first.len(), reals(row), x) + exact(b),
            chained_mean_mass(mean, first, a, row, b),
            growth(mean.len() + first.len() + 4),
        ),
{
    let n = mean.len();
    let h = first.len();
    let one = 1 as real;
    let s = mean_masses(mean, first, a);
    lemma_near_entries(mean);
    lemma_near_entries(row);
    lemma_growth(0, n + 1);
    assert(one * one == one) by (nonlinear_arith)
        requires
            one == 1 as real,
    ;
    let (g1, g) = (growth(n + 1), growth(n + 2));
    assert(one * g1 == g1 && one * g == g) by (nonlinear_arith)
        requires
            one == 1 as real,
    ;
    assert forall|k: int| 0 <= k < h && (#[trigger] between[k]).is_finite() implies is_near(
        between[k],
        x(k),
        s(k),
        g,
    ) by {
        lemma_near_entries(first[k]);
        if a[k].is_finite() {
            lemma_near_self(a[k]);
        }
        lemma_near_affine(
            first[k],
            mean,
            n,
            a[k],
            reals(first[k]),
            reals(mean),
            sizes(first[k]),
            sizes(mean),
            one,
            one,
            exact(a[k]),
            size(exact(a[k])),
            one,
        );
    }
    if b.is_finite() {
        lemma_near_self(b);
    }
    lemma_growth(n + 2, h + 1);
    lemma_growth(n + 2, h + 2);
    lemma_near_affine(
        row,
        between,
        h,
        b,
        reals(row),
        x,
        sizes(row),
        s,
        one,
        g,
        exact(b),
        size(exact(b)),
        one,
    );
}

/// The one layer that stands for two, one mean.
proof fn lemma_collapsed_mean(
    mean: Seq<Binary64>,
    first: Seq<Seq<Binary64>>,
    a: Seq<Binary64>,
    row: Seq<Binary64>,
    b: Binary64,
    weight: Seq<Binary64>,
    y: spec_fn(int) -> real,
)
    requires
        a.len() == first.len(),
        forall|i: int|
            0 <= i < mean.len() ==> #[trigger] weight[i] == dot(
                row,
                column(first, i),
                first.len(),
            ),
        forall|i: int|
            #[trigger]
            y(i) == exact_dot(first.len(), reals(row), reals(column(first, i))),
        sum(dot(weight, mean, mean.len()), sum(dot(row, a, a.len()), b)).is_finite(),
    ensures
        is_near(
            sum(dot(weight, mean, mean.len()), sum(dot(row, a, a.len()), b)),
            exact_dot(mean.len(), y, reals(mean)) + (exact_dot(
                first.len(),
                reals(row),
                reals(a),
            ) + exact(b)),
            collapsed_mean_mass(mean, first, a, row, b),
            growth(mean.len() + first.len() + 4),
        ),
{
    let n = mean.len();
    let h = first.len();
    let one = 1 as real;
    let shift = sum(dot(row, a, h), b);
    let t = row_masses(first, row);
    lemma_near_entries(mean);
    lemma_near_entries(row);
    lemma_near_entries(a);
    lemma_growth(0, h + 1);
    assert(one * one == one) by (nonlinear_arith)
        requires
            one == 1 as real,
    ;
    let (w, u) = (growth(h + 1), growth(h + 2));
    assert(one * w == w && one * u == u && w * one == w) by (nonlinear_arith)
        requires
            one == 1 as real,
    ;
    assert forall|i: int| 0 <= i < n && (#[trigger] weight[i]).is_finite() implies is_near(
        weight[i],
        y(i),
        t(i),
        w,
    ) by {
        lemma_near_entries(column(first, i));
        lemma_near_row(
            row,
            column(first, i),
            h,
            reals(row),
            reals(column(first, i)),
            sizes(row),
            sizes(column(first, i)),
            one,
            one,
        );
    }
    if b.is_finite() {
        lemma_near_self(b);
    }
    lemma_near_affine(
        row,
        a,
        h,
        b,
        reals(row),
        reals(a),
        sizes(row),
        sizes(a),
        one,
        one,
        exact(b),
        size(exact(b)),
        one,
    );
    lemma_growth(h + 2, n);
    lemma_growth(h + 1, n + 1);
    let v = exact_dot(h, reals(row), reals(a)) + exact(b);
    let r = dot_mass(h, sizes(row), sizes(a)) + size(exact(b));
    lemma_near_affine(
        weight,
        mean,
        n,
        shift,
        y,
        reals(mean),
        t,
        sizes(mean),
        w,
        one,
        v,
        r,
        u,
    );
    lemma_growth(h + 1, n + 2);
    lemma_growth(h + n + 3, 1);
    lemma_near_more(
        sum(dot(weight, mean, n), shift),
        exact_dot(n, y, reals(mean)) + v,
        collapsed_mean_mass(mean, first, a, row, b),
        growth(h + n + 3),
        growth(n + h + 4),
    );
}

/// In double precision the means after two affine layers are those after one,
/// with weights `W2 W1` and bias `W2 b1 + b2`, up to rounding: they differ by at
/// most `(1 + 2^-53)^k - 1` times the sums of the magnitudes of their terms,
/// where `k` counts the roundings in a row.
pub proof fn law_double_means_compose(
    m: MomentsModel<Binary64>,
    first: Seq<Seq<Binary64>>,
    a: Seq<Binary64>,
    second: Seq<Seq<Binary64>>,
    b: Seq<Binary64>,
    o: int,
)
    requires
        has_width(first, m.mean.len()),
        a.len() == first.len(),
        has_width(second, first.len()),
        b.len() == second.len(),
        0 <= o < second.len(),
        linear(linear(m, first, a), second, b).mean[o].is_finite(),
        linear(
            m,
            times_matrix(second, first, m.mean.len()),
            chained_bias(second, a, b),
        ).mean[o].is_finite(),
    ensures
        size(
            exact(linear(linear(m, first, a), second, b).mean[o]) - exact(
                linear(
                    m,
                    times_matrix(second, first, m.mean.len()),
                    chained_bias(second, a, b),
                ).mean[o],
            ),
        ) <= (growth(m.mean.len() + first.len() + 4) - 1 as real) * (chained_mean_mass(
            m.mean,
            first,
            a,
            second[o],
            b[o],
        ) + collapsed_mean_mass(m.mean, first, a, second[o], b[o])),
{
    let n = m.mean.len();
    let h = first.len();
    let row = second[o];
    let between = linear(m, first, a).mean;
    assert(between.len() == h);
    assert forall|k: int| 0 <= k < h implies #[trigger] between[k] == sum(
        dot(first[k], m.mean, n),
        a[k],
    ) by {}
    let x = |k: int| exact_dot(n, reals(first[k]), reals(m.mean)) + exact(a[k]);
    let left = linear(linear(m, first, a), second, b).mean[o];
    assert(left == sum(dot(row, between, h), b[o]));
    lemma_chained_mean(m.mean, first, a, row, b[o], between, x);
    let weight = times_matrix(second, first, n)[o];
    let y = |i: int| exact_dot(h, reals(row), reals(column(first, i)));
    let right = linear(m, times_matrix(second, first, n), chained_bias(second, a, b)).mean[o];
    assert(right == sum(dot(weight, m.mean, n), sum(dot(row, a, h), b[o])));
    lemma_collapsed_mean(m.mean, first, a, row, b[o], weight, y);
    lemma_exact_means(m.mean, first, a, row, x, y);
    let z = exact_dot(h, reals(row), x) + exact(b[o]);
    assert(z == exact_dot(n, y, reals(m.mean)) + (exact_dot(h, reals(row), reals(a)) + exact(b[o])));
    lemma_near_both(
        left,
        right,
        z,
        chained_mean_mass(m.mean, first, a, row, b[o]),
        collapsed_mean_mass(m.mean, first, a, row, b[o]),
        growth(n + h + 4),
    );
}

/// `y (x c)`: the rows `x` and `y` of a map applied to both sides of `c`.
pub open spec fn exact_form(
    n: nat,
    x: spec_fn(int) -> real,
    y: spec_fn(int) -> real,
    c: spec_fn(int) -> spec_fn(int) -> real,
) -> real {
    exact_dot(n, y, |j: int| exact_dot(n, x, |i: int| c(i)(j)))
}

/// The magnitude of [`exact_form`].
pub open spec fn form_mass(
    n: nat,
    x: spec_fn(int) -> real,
    y: spec_fn(int) -> real,
    c: spec_fn(int) -> spec_fn(int) -> real,
) -> real {
    dot_mass(n, y, |j: int| dot_mass(n, x, |i: int| c(i)(j)))
}

/// A map's rows applied to both sides, of entries that are near numbers.
proof fn lemma_near_form(
    a: Seq<Binary64>,
    b: Seq<Binary64>,
    cols: Seq<Seq<Binary64>>,
    mixed: Seq<Binary64>,
    n: nat,
    x: spec_fn(int) -> real,
    y: spec_fn(int) -> real,
    c: spec_fn(int) -> spec_fn(int) -> real,
    s: spec_fn(int) -> real,
    t: spec_fn(int) -> real,
    r: spec_fn(int) -> spec_fn(int) -> real,
    e: real,
    f: real,
)
    requires
        e >= 1 as real,
        f >= 1 as real,
        forall|j: int| 0 <= j < n ==> #[trigger] mixed[j] == dot(a, cols[j], n),
        forall|i: int|
            0 <= i < n && (#[trigger] a[i]).is_finite() ==> is_near(a[i], x(i), s(i), e),
        forall|i: int|
            0 <= i < n && (#[trigger] b[i]).is_finite() ==> is_near(b[i], y(i), t(i), e),
        forall|i: int, j: int|
            0 <= i < n && 0 <= j < n && (#[trigger] cols[j][i]).is_finite() ==> is_near(
                cols[j][i],
                c(i)(j),
                r(i)(j),
                f,
            ),
    ensures
        dot(b, mixed, n).is_finite() ==> is_near(
            dot(b, mixed, n),
            exact_form(n, x, y, c),
            form_mass(n, s, t, r),
            (e * ((e * f) * growth(n + 1))) * growth(n + 1),
        ),
{
    let inner = |j: int| exact_dot(n, x, |i: int| c(i)(j));
    let mass = |j: int| dot_mass(n, s, |i: int| r(i)(j));
    let g = (e * f) * growth(n + 1);
    lemma_growth(0, n + 1);
    crate::laws::accuracy::lemma_product_rises(1 as real, e, 1 as real, f);
    crate::laws::accuracy::lemma_product_rises(1 as real, e * f, 1 as real, growth(n + 1));
    assert forall|j: int| 0 <= j < n && (#[trigger] mixed[j]).is_finite() implies is_near(
        mixed[j],
        inner(j),
        mass(j),
        g,
    ) by {
        let z = |i: int| c(i)(j);
        let w = |i: int| r(i)(j);
        assert forall|i: int| 0 <= i < n && (#[trigger] cols[j][i]).is_finite() implies is_near(
            cols[j][i],
            z(i),
            w(i),
            f,
        ) by {}
        lemma_near_row(a, cols[j], n, x, z, s, w, e, f);
    }
    lemma_near_row(b, mixed, n, y, inner, t, mass, e, g);
}

/// In real numbers, two maps applied to both sides are their product applied to
/// both sides.
proof fn lemma_exact_forms(
    h: nat,
    n: nat,
    so: spec_fn(int) -> real,
    sp: spec_fn(int) -> real,
    f: spec_fn(int) -> spec_fn(int) -> real,
    c: spec_fn(int) -> spec_fn(int) -> real,
    inner: spec_fn(int) -> spec_fn(int) -> real,
    go: spec_fn(int) -> real,
    gp: spec_fn(int) -> real,
)
    requires
        forall|k: int, q: int| #[trigger] inner(k)(q) == exact_form(n, f(k), f(q), c),
        forall|i: int| #[trigger] go(i) == exact_dot(h, so, |k: int| f(k)(i)),
        forall|i: int| #[trigger] gp(i) == exact_dot(h, sp, |k: int| f(k)(i)),
    ensures
        exact_form(h, so, sp, inner) == exact_form(n, go, gp, c),
{
    let d = |k: int| |j: int| exact_dot(n, f(k), |i: int| c(i)(j));
    let e = |j: int| exact_dot(n, go, |i: int| c(i)(j));
    // Sum over the inner index of the first map.
    let mid = |q: int| exact_dot(h, so, |k: int| inner(k)(q));
    let want = |q: int| exact_dot(n, f(q), e);
    assert forall|q: int| 0 <= q < h implies #[trigger] mid(q) == want(q) by {
        let row = |k: int| inner(k)(q);
        assert forall|k: int| 0 <= k < h implies #[trigger] row(k) == exact_dot(n, d(k), f(q)) by {
            lemma_exact_dot_eq(
                n,
                f(q),
                |j: int| exact_dot(n, f(k), |i: int| c(i)(j)),
                f(q),
                d(k),
            );
            lemma_exact_dot_commutes(n, f(q), d(k));
        }
        assert forall|j: int| 0 <= j < n implies #[trigger] e(j) == exact_dot(
            h,
            so,
            |k: int| d(k)(j),
        ) by {
            let side = |i: int| c(i)(j);
            let part = |k: int| d(k)(j);
            assert forall|k: int| 0 <= k < h implies #[trigger] part(k) == exact_dot(
                n,
                f(k),
                side,
            ) by {
                lemma_exact_dot_eq(n, f(k), |i: int| c(i)(j), f(k), side);
            }
            lemma_exact_dot_assoc(h, n, so, f, side, part, go);
            lemma_exact_dot_eq(n, go, |i: int| c(i)(j), go, side);
            lemma_exact_dot_eq(h, so, |k: int| d(k)(j), so, part);
        }
        lemma_exact_dot_assoc(h, n, so, d, f(q), row, e);
        lemma_exact_dot_eq(h, so, |k: int| inner(k)(q), so, row);
        lemma_exact_dot_commutes(n, e, f(q));
    }
    lemma_exact_dot_eq(h, sp, mid, sp, want);
    lemma_exact_dot_eq(h, sp, |q: int| exact_dot(h, so, |k: int| inner(k)(q)), sp, mid);
    lemma_exact_dot_assoc(h, n, sp, f, e, want, gp);
    lemma_exact_dot_eq(n, gp, |j: int| exact_dot(n, go, |i: int| c(i)(j)), gp, e);
}

/// The magnitudes of the entries of a matrix.
pub open spec fn entry_sizes(c: Seq<Seq<Binary64>>) -> spec_fn(int) -> spec_fn(int) -> real {
    |i: int| |j: int| size(exact(c[i][j]))
}

/// The magnitudes of covariances after an affine layer.
pub open spec fn covariance_masses(
    n: nat,
    cov: Seq<Seq<Binary64>>,
    weight: Seq<Seq<Binary64>>,
) -> spec_fn(int) -> spec_fn(int) -> real {
    |k: int| |q: int| form_mass(n, sizes(weight[k]), sizes(weight[q]), entry_sizes(cov))
}

/// Covariances after two layers in a row.
proof fn lemma_chained_covariance(
    n: nat,
    cov: Seq<Seq<Binary64>>,
    first: Seq<Seq<Binary64>>,
    u: Seq<Binary64>,
    v: Seq<Binary64>,
    between: Seq<Seq<Binary64>>,
    mixed: Seq<Binary64>,
    c: spec_fn(int) -> spec_fn(int) -> real,
    inner: spec_fn(int) -> spec_fn(int) -> real,
)
    requires
        cov.len() == n,
        between.len() == first.len(),
        forall|i: int, j: int| #[trigger] c(i)(j) == exact(cov[i][j]),
        forall|k: int, q: int|
            #[trigger]
            inner(k)(q) == exact_form(n, reals(first[k]), reals(first[q]), c),
        forall|k: int, q: int|
            0 <= k < first.len() && 0 <= q < first.len() ==> #[trigger] between[k][q] == dot(
                first[q],
                times_matrix(first, cov, n)[k],
                n,
            ),
        forall|q: int|
            0 <= q < first.len() ==> #[trigger] mixed[q] == dot(
                u,
                column(between, q),
                first.len(),
            ),
        dot(v, mixed, first.len()).is_finite(),
    ensures
        is_near(
            dot(v, mixed, first.len()),
            exact_form(first.len(), reals(u), reals(v), inner),
            form_mass(first.len(), sizes(u), sizes(v), covariance_masses(n, cov, first)),
            growth(2 * n + 2 * first.len() + 4),
        ),
{
    let h = first.len();
    let one = 1 as real;
    let r = entry_sizes(cov);
    let masses = covariance_masses(n, cov, first);
    let g = growth(n + 1);
    lemma_growth(n + 1, n + 1);
    lemma_plain_growth(g);
    let sides = Seq::new(h, |q: int| column(between, q));
    assert forall|k: int, q: int|
        0 <= k < h && 0 <= q < h && (#[trigger] sides[q][k]).is_finite() implies is_near(
        sides[q][k],
        inner(k)(q),
        masses(k)(q),
        growth(2 * n + 2),
    ) by {
        let row = times_matrix(first, cov, n)[k];
        let cols = Seq::new(n, |j: int| column(cov, j));
        lemma_near_entries(first[k]);
        lemma_near_entries(first[q]);
        assert forall|i: int, j: int|
            0 <= i < n && 0 <= j < n && (#[trigger] cols[j][i]).is_finite() implies is_near(
            cols[j][i],
            c(i)(j),
            r(i)(j),
            one,
        ) by {
            lemma_near_self(cov[i][j]);
        }
        lemma_near_form(
            first[k],
            first[q],
            cols,
            row,
            n,
            reals(first[k]),
            reals(first[q]),
            c,
            sizes(first[k]),
            sizes(first[q]),
            r,
            one,
            one,
        );
        assert(between[k][q] == dot(first[q], row, n));
        assert(sides[q][k] == between[k][q]);
    }
    lemma_near_entries(u);
    lemma_near_entries(v);
    let f = growth(2 * n + 2);
    let w = growth(h + 1);
    lemma_near_form(
        u,
        v,
        sides,
        mixed,
        h,
        reals(u),
        reals(v),
        inner,
        sizes(u),
        sizes(v),
        masses,
        one,
        f,
    );
    lemma_growth(h + 1, h + 1);
    lemma_growth(2 * n + 2, 2 * h + 2);
    assert((one * ((one * f) * w)) * w == f * (w * w)) by (nonlinear_arith)
        requires
            one == 1 as real,
    ;
}

/// Factors of one.
proof fn lemma_plain_growth(g: real)
    ensures
        (1 as real * ((1 as real * 1 as real) * g)) * g == g * g,
        (1 as real * 1 as real) * g == g,
{
    assert((1 as real * 1 as real) * g == g) by (nonlinear_arith);
    assert((1 as real * g) * g == g * g) by (nonlinear_arith);
}

/// Covariances after the one layer that stands for two.
proof fn lemma_collapsed_covariance(
    n: nat,
    cov: Seq<Seq<Binary64>>,
    first: Seq<Seq<Binary64>>,
    u: Seq<Binary64>,
    v: Seq<Binary64>,
    gu: Seq<Binary64>,
    gv: Seq<Binary64>,
    mixed: Seq<Binary64>,
    c: spec_fn(int) -> spec_fn(int) -> real,
    xu: spec_fn(int) -> real,
    xv: spec_fn(int) -> real,
)
    requires
        cov.len() == n,
        forall|i: int, j: int| #[trigger] c(i)(j) == exact(cov[i][j]),
        forall|i: int|
            #[trigger]
            xu(i) == exact_dot(first.len(), reals(u), reals(column(first, i))),
        forall|i: int|
            #[trigger]
            xv(i) == exact_dot(first.len(), reals(v), reals(column(first, i))),
        forall|i: int|
            0 <= i < n ==> #[trigger] gu[i] == dot(u, column(first, i), first.len()),
        forall|i: int|
            0 <= i < n ==> #[trigger] gv[i] == dot(v, column(first, i), first.len()),
        forall|j: int| 0 <= j < n ==> #[trigger] mixed[j] == dot(gu, column(cov, j), n),
        dot(gv, mixed, n).is_finite(),
    ensures
        is_near(
            dot(gv, mixed, n),
            exact_form(n, xu, xv, c),
            form_mass(n, row_masses(first, u), row_masses(first, v), entry_sizes(cov)),
            growth(2 * n + 2 * first.len() + 4),
        ),
{
    let h = first.len();
    let one = 1 as real;
    let r = entry_sizes(cov);
    let su = row_masses(first, u);
    let sv = row_masses(first, v);
    let w = growth(h + 1);
    let g = growth(n + 1);
    lemma_plain_growth(w);
    lemma_near_entries(u);
    lemma_near_entries(v);
    assert forall|i: int| 0 <= i < n && (#[trigger] gu[i]).is_finite() implies is_near(
        gu[i],
        xu(i),
        su(i),
        w,
    ) by {
        let col = column(first, i);
        lemma_near_entries(col);
        lemma_near_row(u, col, h, reals(u), reals(col), sizes(u), sizes(col), one, one);
    }
    assert forall|i: int| 0 <= i < n && (#[trigger] gv[i]).is_finite() implies is_near(
        gv[i],
        xv(i),
        sv(i),
        w,
    ) by {
        let col = column(first, i);
        lemma_near_entries(col);
        lemma_near_row(v, col, h, reals(v), reals(col), sizes(v), sizes(col), one, one);
    }
    let cols = Seq::new(n, |j: int| column(cov, j));
    assert forall|i: int, j: int|
        0 <= i < n && 0 <= j < n && (#[trigger] cols[j][i]).is_finite() implies is_near(
        cols[j][i],
        c(i)(j),
        r(i)(j),
        one,
    ) by {
        lemma_near_self(cov[i][j]);
    }
    lemma_growth(h + 1, h + 1);
    lemma_near_form(gu, gv, cols, mixed, n, xu, xv, c, su, sv, r, w, one);
    lemma_growth(n + 1, n + 1);
    lemma_growth(2 * h + 2, 2 * n + 2);
    assert((w * ((w * one) * g)) * g == (w * w) * (g * g)) by (nonlinear_arith)
        requires
            one == 1 as real,
    ;
}

/// In double precision the covariances after two affine layers are those after
/// one, with weights `W2 W1`, up to rounding: they differ by at most
/// `(1 + 2^-53)^k - 1` times the sums of the magnitudes of their terms, where
/// `k` counts the roundings in a row.
pub proof fn law_double_covariances_compose(
    m: MomentsModel<Binary64>,
    first: Seq<Seq<Binary64>>,
    a: Seq<Binary64>,
    second: Seq<Seq<Binary64>>,
    b: Seq<Binary64>,
    o: int,
    p: int,
)
    requires
        has_shape(m, m.mean.len()),
        has_width(first, m.mean.len()),
        a.len() == first.len(),
        has_width(second, first.len()),
        b.len() == second.len(),
        0 <= o < second.len(),
        0 <= p < second.len(),
        linear(linear(m, first, a), second, b).cov[o][p].is_finite(),
        linear(
            m,
            times_matrix(second, first, m.mean.len()),
            chained_bias(second, a, b),
        ).cov[o][p].is_finite(),
    ensures
        size(
            exact(linear(linear(m, first, a), second, b).cov[o][p]) - exact(
                linear(
                    m,
                    times_matrix(second, first, m.mean.len()),
                    chained_bias(second, a, b),
                ).cov[o][p],
            ),
        ) <= (growth(2 * m.mean.len() + 2 * first.len() + 4) - 1 as real) * (form_mass(
            first.len(),
            sizes(second[o]),
            sizes(second[p]),
            covariance_masses(m.mean.len(), m.cov, first),
        ) + form_mass(
            m.mean.len(),
            row_masses(first, second[o]),
            row_masses(first, second[p]),
            entry_sizes(m.cov),
        )),
{
    let n = m.mean.len();
    let h = first.len();
    let (u, v) = (second[o], second[p]);
    let between = linear(m, first, a);
    let c = |i: int| |j: int| exact(m.cov[i][j]);
    let f = |k: int| reals(first[k]);
    let inner = |k: int| |q: int| exact_form(n, reals(first[k]), reals(first[q]), c);
    let mixed = times_matrix(second, between.cov, h)[o];
    let left = linear(between, second, b).cov[o][p];
    assert(between.mean.len() == h);
    assert(left == dot(v, mixed, h));
    lemma_chained_covariance(n, m.cov, first, u, v, between.cov, mixed, c, inner);
    let weight = times_matrix(second, first, n);
    let bias = chained_bias(second, a, b);
    let xu = |i: int| exact_dot(h, reals(u), reals(column(first, i)));
    let xv = |i: int| exact_dot(h, reals(v), reals(column(first, i)));
    let whole = times_matrix(weight, m.cov, n)[o];
    let right = linear(m, weight, bias).cov[o][p];
    assert(right == dot(weight[p], whole, n));
    lemma_collapsed_covariance(n, m.cov, first, u, v, weight[o], weight[p], whole, c, xu, xv);
    let gu = |i: int| exact_dot(h, reals(u), |k: int| f(k)(i));
    let gv = |i: int| exact_dot(h, reals(v), |k: int| f(k)(i));
    lemma_exact_forms(h, n, reals(u), reals(v), f, c, inner, gu, gv);
    assert forall|i: int| #[trigger] gu(i) == xu(i) by {
        lemma_exact_dot_eq(h, reals(u), |k: int| f(k)(i), reals(u), reals(column(first, i)));
    }
    assert forall|i: int| #[trigger] gv(i) == xv(i) by {
        lemma_exact_dot_eq(h, reals(v), |k: int| f(k)(i), reals(v), reals(column(first, i)));
    }
    assert(exact_form(n, gu, gv, c) == exact_form(n, xu, xv, c)) by {
        let e = |j: int| exact_dot(n, gu, |i: int| c(i)(j));
        let d = |j: int| exact_dot(n, xu, |i: int| c(i)(j));
        assert forall|j: int| 0 <= j < n implies #[trigger] e(j) == d(j) by {
            let side = |i: int| c(i)(j);
            lemma_exact_dot_eq(n, gu, side, xu, side);
        }
        lemma_exact_dot_eq(n, gv, e, xv, d);
    }
    lemma_near_both(
        left,
        right,
        exact_form(n, xu, xv, c),
        form_mass(h, sizes(u), sizes(v), covariance_masses(n, m.cov, first)),
        form_mass(n, row_masses(first, u), row_masses(first, v), entry_sizes(m.cov)),
        growth(2 * n + 2 * h + 4),
    );
}

/// The columns of a table.
pub open spec fn columns(w: Grid<Binary64>) -> Seq<Seq<Binary64>> {
    Seq::new(w.cols, |j: int| w.col(j))
}

/// A layer of a stack, rows and columns exchanged.
pub open spec fn crossed(c: Block<Binary64>, b: int) -> Seq<Seq<Binary64>> {
    Seq::new(c.cols, |i: int| Seq::new(c.rows, |j: int| c.at(b, j, i)))
}

/// Inner products do not depend on the order of the factors.
proof fn lemma_dot_commutes(a: Seq<Binary64>, b: Seq<Binary64>, n: nat)
    ensures
        dot(a, b, n) == dot(b, a, n),
    decreases n,
{
    if n > 0 {
        lemma_dot_commutes(a, b, (n - 1) as nat);
        law_double_commutes();
        reveal(multiplication_commutes);
        assert(a[n - 1].s_mul(b[n - 1]) == b[n - 1].s_mul(a[n - 1]));
    }
}

/// A covariance mapped as a tensor is mapped as a matrix of rows.
proof fn lemma_mapped_rows(
    c: Block<Binary64>,
    w: Grid<Binary64>,
    b: int,
    m: MomentsModel<Binary64>,
    bias: Seq<Binary64>,
)
    requires
        c.rows == c.cols,
        c.cols == w.rows,
        0 <= b < c.layers,
        m.mean.len() == w.rows,
        m.cov == crossed(c, b),
    ensures
        linear(m, columns(w), bias).cov == crossed(mapped::<Dense<Binary64>>(c, w), b),
{
    broadcast use group_tables;

    let n = w.rows;
    let weight = columns(w);
    let side = right_product::<Dense<Binary64>>(c, w);
    let out = mapped::<Dense<Binary64>>(c, w);
    let mixed = times_matrix(weight, m.cov, n);
    let left = linear(m, weight, bias).cov;
    let right = crossed(out, b);
    assert forall|k: int| 0 <= k < w.cols implies left[k] =~= right[k] by {
        let edge = side.layer(b).col(k);
        assert forall|j: int| 0 <= j < n implies mixed[k][j] == edge[j] by {
            assert(column(m.cov, j) =~= c.layer(b).row(j));
            lemma_dot_commutes(weight[k], c.layer(b).row(j), n);
        }
        assert(mixed[k] =~= edge);
        assert forall|q: int| 0 <= q < w.cols implies left[k][q] == right[k][q] by {
            assert(right[k][q] == out.at(b, q, k));
        }
    }
    assert(left =~= right);
}

/// The columns of a product of tables.
proof fn lemma_product_columns(first: Grid<Binary64>, second: Grid<Binary64>)
    requires
        first.cols == second.rows,
    ensures
        columns(product::<Dense<Binary64>>(first, second)) == times_matrix(
            columns(second),
            columns(first),
            first.rows,
        ),
{
    broadcast use group_tables;

    let whole = product::<Dense<Binary64>>(first, second);
    let left = columns(whole);
    let right = times_matrix(columns(second), columns(first), first.rows);
    assert forall|j: int| 0 <= j < second.cols implies left[j] =~= right[j] by {
        assert forall|k: int| 0 <= k < first.rows implies left[j][k] == right[j][k] by {
            assert(column(columns(first), k) =~= first.row(k));
            lemma_dot_commutes(first.row(k), second.col(j), second.rows);
        }
    }
    assert(left =~= right);
}

/// In double precision the covariance of a tensor after two affine maps is that
/// after their product, up to rounding: entries differ by at most
/// `(1 + 2^-53)^k - 1` times the sums of the magnitudes of their terms, where
/// `k` counts the roundings in a row.
pub proof fn law_double_full_linear_composes(
    c: Block<Binary64>,
    first: Grid<Binary64>,
    second: Grid<Binary64>,
    b: int,
    i: int,
    j: int,
)
    requires
        c.rows == c.cols,
        c.cols == first.rows,
        first.cols == second.rows,
        0 <= b < c.layers,
        0 <= i < second.cols,
        0 <= j < second.cols,
        mapped::<Dense<Binary64>>(mapped::<Dense<Binary64>>(c, first), second).at(
            b,
            i,
            j,
        ).is_finite(),
        mapped::<Dense<Binary64>>(c, product::<Dense<Binary64>>(first, second)).at(
            b,
            i,
            j,
        ).is_finite(),
    ensures
        size(
            exact(
                mapped::<Dense<Binary64>>(mapped::<Dense<Binary64>>(c, first), second).at(b, i, j),
            ) - exact(
                mapped::<Dense<Binary64>>(c, product::<Dense<Binary64>>(first, second)).at(
                    b,
                    i,
                    j,
                ),
            ),
        ) <= (growth(2 * first.rows + 2 * first.cols + 4) - 1 as real) * (form_mass(
            first.cols,
            sizes(second.col(j)),
            sizes(second.col(i)),
            covariance_masses(first.rows, crossed(c, b), columns(first)),
        ) + form_mass(
            first.rows,
            row_masses(columns(first), second.col(j)),
            row_masses(columns(first), second.col(i)),
            entry_sizes(crossed(c, b)),
        )),
{
    broadcast use group_tables;

    let n = first.rows;
    let h = first.cols;
    let zero = crate::binary64::arithmetic::integer(0);
    let m = MomentsModel { mean: Seq::new(n, |k: int| zero), cov: crossed(c, b) };
    let a = Seq::new(h, |k: int| zero);
    let z = Seq::new(second.cols, |k: int| zero);
    let (w1, w2) = (columns(first), columns(second));
    let between = mapped::<Dense<Binary64>>(c, first);
    let whole = product::<Dense<Binary64>>(first, second);
    lemma_mapped_rows(c, first, b, m, a);
    lemma_mapped_rows(between, second, b, linear(m, w1, a), z);
    lemma_product_columns(first, second);
    lemma_mapped_rows(c, whole, b, m, chained_bias(w2, a, z));
    law_double_covariances_compose(m, w1, a, w2, z, j, i);
}

/// In double precision a covariance carried through two affine maps of the
/// right variable is that carried through their product, up to rounding.
pub proof fn law_double_right_products_compose(
    c: Block<Binary64>,
    first: Grid<Binary64>,
    second: Grid<Binary64>,
    b: int,
    i: int,
    j: int,
)
    requires
        c.cols == first.rows,
        first.cols == second.rows,
        0 <= b < c.layers,
        0 <= i < c.rows,
        0 <= j < second.cols,
        right_product::<Dense<Binary64>>(
            right_product::<Dense<Binary64>>(c, first),
            second,
        ).at(b, i, j).is_finite(),
        right_product::<Dense<Binary64>>(
            c,
            product::<Dense<Binary64>>(first, second),
        ).at(b, i, j).is_finite(),
    ensures
        size(
            exact(
                right_product::<Dense<Binary64>>(
                    right_product::<Dense<Binary64>>(c, first),
                    second,
                ).at(b, i, j),
            ) - exact(
                right_product::<Dense<Binary64>>(
                    c,
                    product::<Dense<Binary64>>(first, second),
                ).at(b, i, j),
            ),
        ) <= (growth(first.rows + first.cols + 2) - 1 as real) * (dot_mass(
            first.cols,
            |l: int| dot_mass(first.rows, sizes(c.layer(b).row(i)), sizes(first.col(l))),
            sizes(second.col(j)),
        ) + dot_mass(
            first.rows,
            sizes(c.layer(b).row(i)),
            |k: int| dot_mass(first.cols, sizes(first.row(k)), sizes(second.col(j))),
        )),
{
    broadcast use group_tables;

    let n = first.rows;
    let h = first.cols;
    let one = 1 as real;
    let u = c.layer(b).row(i);
    let v = second.col(j);
    let between = right_product::<Dense<Binary64>>(c, first);
    let whole = product::<Dense<Binary64>>(first, second);
    let x = |l: int| exact_dot(n, reals(u), reals(first.col(l)));
    let s = |l: int| dot_mass(n, sizes(u), sizes(first.col(l)));
    let y = |k: int| exact_dot(h, reals(first.row(k)), reals(v));
    let t = |k: int| dot_mass(h, sizes(first.row(k)), sizes(v));
    let (g, w) = (growth(n + 1), growth(h + 1));
    lemma_plain_growth(g);
    lemma_plain_growth(w);
    lemma_growth(n + 1, h + 1);
    assert((g * one) * w == g * w && (one * w) * g == g * w) by (nonlinear_arith)
        requires
            one == 1 as real,
    ;
    lemma_near_entries(u);
    lemma_near_entries(v);
    let mid = between.layer(b).row(i);
    assert forall|l: int| 0 <= l < h && (#[trigger] mid[l]).is_finite() implies is_near(
        mid[l],
        x(l),
        s(l),
        g,
    ) by {
        let col = first.col(l);
        lemma_near_entries(col);
        lemma_near_row(u, col, n, reals(u), reals(col), sizes(u), sizes(col), one, one);
    }
    lemma_near_row(mid, v, h, x, reals(v), s, sizes(v), g, one);
    let edge = whole.col(j);
    assert forall|k: int| 0 <= k < n && (#[trigger] edge[k]).is_finite() implies is_near(
        edge[k],
        y(k),
        t(k),
        w,
    ) by {
        let row = first.row(k);
        lemma_near_entries(row);
        lemma_near_row(row, v, h, reals(row), reals(v), sizes(row), sizes(v), one, one);
    }
    lemma_near_row(u, edge, n, reals(u), y, sizes(u), t, one, w);
    let f = |k: int| reals(first.row(k));
    assert forall|l: int| 0 <= l < h implies #[trigger] x(l) == exact_dot(
        n,
        reals(u),
        |k: int| f(k)(l),
    ) by {
        lemma_exact_dot_eq(n, reals(u), |k: int| f(k)(l), reals(u), reals(first.col(l)));
    }
    lemma_exact_dot_assoc(n, h, reals(u), f, reals(v), y, x);
    lemma_near_both(
        dot(mid, v, h),
        dot(u, edge, n),
        exact_dot(h, x, reals(v)),
        dot_mass(h, s, sizes(v)),
        dot_mass(n, sizes(u), t),
        growth(n + h + 2),
    );
}

} // verus!
