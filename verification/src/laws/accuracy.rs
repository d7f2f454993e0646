//! How far rounded sums of products are from exact ones.
use vstd::prelude::*;

use crate::binary64::Binary64;
use crate::scalar::Scalar;

verus! {

use crate::binary64::arithmetic::{product, sum};
use crate::binary64::errors::{
    epsilon, exact, least, lemma_epsilon, lemma_exact_zero, lemma_product_error, lemma_sum_error,
    size,
};
use crate::laws::double::lemma_small_integers;
use crate::scalar::dot;

/// By how much `k` roundings can magnify a number: `(1 + 2^-53)^k`.
pub open spec fn growth(k: nat) -> real
    decreases k,
{
    if k == 0 {
        1 as real
    } else {
        growth((k - 1) as nat) * (1 as real + epsilon())
    }
}

/// The sum of `x(i) y(i)` over the first `n` indices.
pub open spec fn exact_dot(n: nat, x: spec_fn(int) -> real, y: spec_fn(int) -> real) -> real
    decreases n,
{
    if n == 0 {
        0 as real
    } else {
        exact_dot((n - 1) as nat, x, y) + x(n - 1) * y(n - 1)
    }
}

/// The magnitude of an inner product: the sum of the magnitudes of its terms,
/// each with the smallest number that has all its digits.
pub open spec fn dot_mass(n: nat, x: spec_fn(int) -> real, y: spec_fn(int) -> real) -> real
    decreases n,
{
    if n == 0 {
        0 as real
    } else {
        dot_mass((n - 1) as nat, x, y) + (x(n - 1) * y(n - 1) + least())
    }
}

/// The numbers that the entries stand for.
pub open spec fn reals(a: Seq<Binary64>) -> spec_fn(int) -> real {
    |i: int| exact(a[i])
}

/// The magnitudes of the entries.
pub open spec fn sizes(a: Seq<Binary64>) -> spec_fn(int) -> real {
    |i: int| size(exact(a[i]))
}

/// Whether `c` stands for `x`, a number of magnitude at most `m`, up to an error
/// of `e - 1` times that magnitude.
#[verifier::opaque]
pub open spec fn is_near(c: Binary64, x: real, m: real, e: real) -> bool {
    &&& c.is_finite()
    &&& size(x) <= m
    &&& e >= 1 as real
    &&& size(exact(c) - x) <= (e - 1 as real) * m
}

/// Growth is at least one, and roundings in a row multiply.
pub proof fn lemma_growth(j: nat, k: nat)
    ensures
        growth(j) >= 1 as real,
        growth(k) >= 1 as real,
        growth(j) * growth(k) == growth(j + k),
        growth(j) <= growth(j + k),
    decreases j + k,
{
    lemma_epsilon();
    let q = 1 as real + epsilon();
    if k > 0 {
        lemma_growth(j, (k - 1) as nat);
        let a = growth(j);
        let b = growth((k - 1) as nat);
        assert(a * (b * q) == (a * b) * q) by (nonlinear_arith);
        assert(b * q >= 1 as real) by (nonlinear_arith)
            requires
                b >= 1 as real,
                q >= 1 as real,
        ;
        assert(a <= a * (b * q)) by (nonlinear_arith)
            requires
                b * q >= 1 as real,
                a >= 1 as real,
        ;
    } else if j > 0 {
        lemma_growth((j - 1) as nat, 0);
        let a = growth((j - 1) as nat);
        assert(a * q >= 1 as real) by (nonlinear_arith)
            requires
                a >= 1 as real,
                q >= 1 as real,
        ;
        assert((a * q) * 1 as real == a * q) by (nonlinear_arith);
    }
}

/// A number stands for itself.
pub proof fn lemma_near_self(c: Binary64)
    requires
        c.is_finite(),
    ensures
        is_near(c, exact(c), size(exact(c)), 1 as real),
{
    reveal(is_near);
    let m = size(exact(c));
    assert((1 as real - 1 as real) * m == 0 as real) by (nonlinear_arith);
}

/// A larger error bound.
pub proof fn lemma_near_more(c: Binary64, x: real, m: real, e: real, f: real)
    requires
        is_near(c, x, m, e),
        e <= f,
    ensures
        is_near(c, x, m, f),
{
    reveal(is_near);
    assert((e - 1 as real) * m <= (f - 1 as real) * m) by (nonlinear_arith)
        requires
            e <= f,
            m >= 0 as real,
    ;
}

/// The size of sums and products.
pub proof fn lemma_sizes(x: real, y: real)
    ensures
        size(x * y) == size(x) * size(y),
        size(x + y) <= size(x) + size(y),
        size(x - y) <= size(x) + size(y),
        size(x) >= 0 as real,
{
    assert((-x) * y == -(x * y) && x * (-y) == -(x * y) && (-x) * (-y) == x * y)
        by (nonlinear_arith);
    assert(x >= 0 as real && y >= 0 as real ==> x * y >= 0 as real) by (nonlinear_arith);
    assert(x >= 0 as real && y <= 0 as real ==> x * y <= 0 as real) by (nonlinear_arith);
    assert(x <= 0 as real && y >= 0 as real ==> x * y <= 0 as real) by (nonlinear_arith);
    assert(x <= 0 as real && y <= 0 as real ==> x * y >= 0 as real) by (nonlinear_arith);
}

/// Products of near numbers.
pub proof fn lemma_near_product(
    a: Binary64,
    b: Binary64,
    x: real,
    y: real,
    s: real,
    t: real,
    e: real,
    f: real,
)
    requires
        is_near(a, x, s, e),
        is_near(b, y, t, f),
        product(a, b).is_finite(),
    ensures
        is_near(
            product(a, b),
            x * y,
            s * t + least(),
            (e * f) * (1 as real + epsilon()),
        ),
{
    reveal(is_near);
    lemma_product_error(a, b);
    lemma_epsilon();
    let u = exact(a);
    let v = exact(b);
    let w = exact(product(a, b));
    let q = epsilon();
    let l = least();
    let one = 1 as real;
    lemma_sizes(u - x, x);
    lemma_sizes(v - y, y);
    assert((e - one) * s + s == e * s) by (nonlinear_arith)
        requires
            one == 1 as real,
    ;
    assert((f - one) * t + t == f * t) by (nonlinear_arith)
        requires
            one == 1 as real,
    ;
    assert(size(u) <= e * s);
    assert(size(v) <= f * t);
    let du = u - x;
    let dv = v - y;
    assert(u * v - x * y == u * dv + du * y) by (nonlinear_arith)
        requires
            du == u - x,
            dv == v - y,
    ;
    lemma_sizes(u, dv);
    lemma_sizes(du, y);
    lemma_sizes(u * dv, du * y);
    lemma_sizes(u, v);
    lemma_sizes(x, y);
    lemma_product_rises(size(u), e * s, size(dv), (f - one) * t);
    lemma_product_rises(size(du), (e - one) * s, size(y), t);
    lemma_product_rises(size(u), e * s, size(v), f * t);
    lemma_product_rises(size(x), s, size(y), t);
    lemma_product_rises(one, e, one, f);
    let ef = e * f;
    let st = s * t;
    lemma_error_terms(e, f, s, t);
    lemma_sizes(w - u * v, u * v - x * y);
    let d = size(w - x * y);
    let n = size(u * v);
    assert(n <= ef * st);
    assert(d <= q * (n + l) + (ef - one) * st);
    lemma_product_rises(q, q, n + l, ef * st + l);
    lemma_product_rises(one, ef, one + q, one + q);
    lemma_error_total(ef, st, q, l);
    let g = ef * (one + q);
    lemma_product_rises(q, g - one, l, l);
}

/// Products rise with their factors.
pub proof fn lemma_product_rises(a: real, b: real, c: real, d: real)
    requires
        0 as real <= a <= b,
        0 as real <= c <= d,
    ensures
        0 as real <= a * c <= b * d,
{
    assert(0 as real <= a * c) by (nonlinear_arith)
        requires
            0 as real <= a,
            0 as real <= c,
    ;
    assert(a * c <= b * c) by (nonlinear_arith)
        requires
            a <= b,
            0 as real <= c,
    ;
    assert(b * c <= b * d) by (nonlinear_arith)
        requires
            c <= d,
            0 as real <= b,
    ;
}

/// How errors of factors add up.
proof fn lemma_error_terms(e: real, f: real, s: real, t: real)
    ensures
        (e * s) * ((f - 1 as real) * t) + ((e - 1 as real) * s) * t == (e * f - 1 as real) * (s
            * t),
        (e * s) * (f * t) == (e * f) * (s * t),
{
    assert((e * s) * ((f - 1 as real) * t) == (e * f) * (s * t) - e * (s * t)) by (nonlinear_arith);
    assert(((e - 1 as real) * s) * t == e * (s * t) - s * t) by (nonlinear_arith);
    assert((e * f - 1 as real) * (s * t) == (e * f) * (s * t) - s * t) by (nonlinear_arith);
    assert((e * s) * (f * t) == (e * f) * (s * t)) by (nonlinear_arith);
}

/// How the error of a rounding adds to them.
proof fn lemma_error_total(g: real, m: real, q: real, l: real)
    ensures
        q * (g * m + l) + (g - 1 as real) * m == (g * (1 as real + q) - 1 as real) * m + q * l,
        (g * (1 as real + q) - 1 as real) * (m + l) == (g * (1 as real + q) - 1 as real) * m + (g
            * (1 as real + q) - 1 as real) * l,
{
    assert(q * (g * m + l) == q * (g * m) + q * l) by (nonlinear_arith);
    assert((g - 1 as real) * m == g * m - m) by (nonlinear_arith);
    assert((g * (1 as real + q) - 1 as real) * m == g * m + q * (g * m) - m) by (nonlinear_arith);
    let k = g * (1 as real + q) - 1 as real;
    assert(k * (m + l) == k * m + k * l) by (nonlinear_arith);
}

/// Sums of near numbers.
pub proof fn lemma_near_sum(
    a: Binary64,
    b: Binary64,
    x: real,
    y: real,
    s: real,
    t: real,
    e: real,
)
    requires
        is_near(a, x, s, e),
        is_near(b, y, t, e),
        sum(a, b).is_finite(),
    ensures
        is_near(sum(a, b), x + y, s + t, e * (1 as real + epsilon())),
{
    reveal(is_near);
    lemma_sum_error(a, b);
    lemma_epsilon();
    let u = exact(a);
    let v = exact(b);
    let w = exact(sum(a, b));
    let q = epsilon();
    let one = 1 as real;
    lemma_sizes(u - x, v - y);
    lemma_sizes(x, y);
    lemma_sizes((u + v) - (x + y), x + y);
    lemma_sizes(w - (u + v), (u + v) - (x + y));
    assert((u + v) - (x + y) == (u - x) + (v - y));
    let m = s + t;
    assert((e - one) * s + (e - one) * t == (e - one) * m) by (nonlinear_arith)
        requires
            m == s + t,
    ;
    assert((e - one) * m + m == e * m) by (nonlinear_arith)
        requires
            one == 1 as real,
    ;
    assert(size(u + v) <= e * m);
    lemma_product_rises(q, q, size(u + v), e * m);
    lemma_error_total(e, m, q, 0 as real);
    assert(q * (e * m + 0 as real) == q * (e * m));
    assert(q * 0 as real == 0 as real);
    lemma_product_rises(one, e, one, one + q);
}

/// A sum is finite only where its terms are.
pub proof fn lemma_finite_terms(a: Binary64, b: Binary64)
    requires
        sum(a, b).is_finite(),
    ensures
        a.is_finite(),
        b.is_finite(),
{
}

/// An inner product is finite only where its factors are.
pub proof fn lemma_dot_finite(a: Seq<Binary64>, b: Seq<Binary64>, n: nat)
    requires
        dot(a, b, n).is_finite(),
    ensures
        forall|i: int| 0 <= i < n ==> (#[trigger] a[i]).is_finite(),
        forall|i: int| 0 <= i < n ==> (#[trigger] b[i]).is_finite(),
    decreases n,
{
    if n > 0 {
        lemma_product_factors(a[n - 1], b[n - 1], dot(a, b, (n - 1) as nat));
        lemma_dot_finite(a, b, (n - 1) as nat);
    }
}

/// A term and its factors are finite where the sum is.
proof fn lemma_product_factors(x: Binary64, y: Binary64, rest: Binary64)
    requires
        sum(rest, product(x, y)).is_finite(),
    ensures
        rest.is_finite(),
        x.is_finite(),
        y.is_finite(),
        product(x, y).is_finite(),
{
    crate::binary64::lemma_encoded(
        x.negative() != y.negative(),
        crate::binary64::rounding::INFINITE_CODE as nat,
    );
}

/// Inner products of near numbers.
pub proof fn lemma_near_dot(
    a: Seq<Binary64>,
    b: Seq<Binary64>,
    n: nat,
    x: spec_fn(int) -> real,
    y: spec_fn(int) -> real,
    s: spec_fn(int) -> real,
    t: spec_fn(int) -> real,
    e: real,
    f: real,
)
    requires
        e >= 1 as real,
        f >= 1 as real,
        forall|i: int| 0 <= i < n ==> is_near(#[trigger] a[i], x(i), s(i), e),
        forall|i: int| 0 <= i < n ==> is_near(#[trigger] b[i], y(i), t(i), f),
        dot(a, b, n).is_finite(),
    ensures
        is_near(dot(a, b, n), exact_dot(n, x, y), dot_mass(n, s, t), (e * f) * growth(n + 1)),
    decreases n,
{
    lemma_growth(n, 1);
    lemma_growth(1, 0);
    assert(growth(1) == 1 as real + epsilon()) by {
        assert(growth(0) == 1 as real);
        assert(growth(0) * (1 as real + epsilon()) == 1 as real + epsilon()) by (nonlinear_arith)
            requires
                growth(0) == 1 as real,
        ;
    }
    let ef = e * f;
    assert(ef >= 1 as real) by (nonlinear_arith)
        requires
            ef == e * f,
            e >= 1 as real,
            f >= 1 as real,
    ;
    if n == 0 {
        reveal(is_near);
        lemma_small_integers();
        lemma_exact_zero(crate::binary64::arithmetic::integer(0));
        let g = ef * growth(1);
        assert(g >= 1 as real) by (nonlinear_arith)
            requires
                g == ef * growth(1),
                ef >= 1 as real,
                growth(1) >= 1 as real,
        ;
        assert((g - 1 as real) * 0 as real == 0 as real) by (nonlinear_arith);
    } else {
        let k = (n - 1) as nat;
        let (u, v) = (a[n - 1], b[n - 1]);
        lemma_product_factors(u, v, dot(a, b, k));
        lemma_near_dot(a, b, k, x, y, s, t, e, f);
        lemma_near_product(u, v, x(n - 1), y(n - 1), s(n - 1), t(n - 1), e, f);
        lemma_growth(1, k);
        let g = ef * growth(n);
        assert(ef * growth(1) <= g) by (nonlinear_arith)
            requires
                g == ef * growth(n),
                growth(1) <= growth(n),
                ef >= 1 as real,
        ;
        let (m, z) = (s(n - 1) * t(n - 1) + least(), x(n - 1) * y(n - 1));
        lemma_near_more(product(u, v), z, m, ef * growth(1), g);
        lemma_near_sum(dot(a, b, k), product(u, v), exact_dot(k, x, y), z, dot_mass(k, s, t), m, g);
        let h = growth(n);
        let q = 1 as real + epsilon();
        assert((ef * h) * q == ef * (h * q)) by (nonlinear_arith);
    }
}

/// Inner products of functions that agree.
pub proof fn lemma_exact_dot_eq(
    n: nat,
    x: spec_fn(int) -> real,
    y: spec_fn(int) -> real,
    v: spec_fn(int) -> real,
    w: spec_fn(int) -> real,
)
    requires
        forall|i: int| 0 <= i < n ==> #[trigger] x(i) == v(i),
        forall|i: int| 0 <= i < n ==> #[trigger] y(i) == w(i),
    ensures
        exact_dot(n, x, y) == exact_dot(n, v, w),
    decreases n,
{
    if n > 0 {
        lemma_exact_dot_eq((n - 1) as nat, x, y, v, w);
        assert(x(n - 1) == v(n - 1));
        assert(y(n - 1) == w(n - 1));
    }
}

/// Inner products are linear: `(x + c u) y = x y + c (u y)`.
pub proof fn lemma_exact_dot_linear(
    n: nat,
    x: spec_fn(int) -> real,
    c: real,
    u: spec_fn(int) -> real,
    z: spec_fn(int) -> real,
    y: spec_fn(int) -> real,
)
    requires
        forall|i: int| 0 <= i < n ==> #[trigger] z(i) == x(i) + c * u(i),
    ensures
        exact_dot(n, z, y) == exact_dot(n, x, y) + c * exact_dot(n, u, y),
    decreases n,
{
    if n > 0 {
        let k = (n - 1) as nat;
        lemma_exact_dot_linear(k, x, c, u, z, y);
        let (a, b, d) = (x(n - 1), u(n - 1), y(n - 1));
        let m = exact_dot(k, u, y);
        assert(z(n - 1) == a + c * b);
        assert((a + c * b) * d == a * d + c * (b * d)) by (nonlinear_arith);
        assert(c * (m + b * d) == c * m + c * (b * d)) by (nonlinear_arith);
    } else {
        assert(c * 0 as real == 0 as real) by (nonlinear_arith);
    }
}

/// Sums over a matrix may be taken in either order:
/// `a (f y) = (a f) y`.
pub proof fn lemma_exact_dot_assoc(
    h: nat,
    n: nat,
    a: spec_fn(int) -> real,
    f: spec_fn(int) -> spec_fn(int) -> real,
    y: spec_fn(int) -> real,
    p: spec_fn(int) -> real,
    q: spec_fn(int) -> real,
)
    requires
        forall|k: int| 0 <= k < h ==> #[trigger] p(k) == exact_dot(n, f(k), y),
        forall|i: int|
            0 <= i < n ==> #[trigger] q(i) == exact_dot(h, a, |k: int| f(k)(i)),
    ensures
        exact_dot(h, a, p) == exact_dot(n, q, y),
    decreases h,
{
    if h == 0 {
        lemma_exact_dot_zero(n, q, y);
    } else {
        let g = (h - 1) as nat;
        let r = |i: int| exact_dot(g, a, |k: int| f(k)(i));
        lemma_exact_dot_assoc(g, n, a, f, y, p, r);
        let last = f(h - 1);
        assert forall|i: int| 0 <= i < n implies #[trigger] q(i) == r(i) + a(h - 1) * last(i) by {
            let inner = |k: int| f(k)(i);
            assert(exact_dot(h, a, inner) == exact_dot(g, a, inner) + a(h - 1) * inner(h - 1));
        }
        lemma_exact_dot_linear(n, r, a(h - 1), last, q, y);
        assert(p(h - 1) == exact_dot(n, last, y));
    }
}

/// A sum of zeros.
proof fn lemma_exact_dot_zero(n: nat, q: spec_fn(int) -> real, y: spec_fn(int) -> real)
    requires
        forall|i: int| 0 <= i < n ==> #[trigger] q(i) == 0 as real,
    ensures
        exact_dot(n, q, y) == 0 as real,
    decreases n,
{
    if n > 0 {
        lemma_exact_dot_zero((n - 1) as nat, q, y);
        let (a, b) = (q(n - 1), y(n - 1));
        assert(a * b == 0 as real) by (nonlinear_arith)
            requires
                a == 0 as real,
        ;
    }
}

} // verus!
