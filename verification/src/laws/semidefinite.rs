//! Rectified covariance matrices have no direction of negative variance.
use vstd::prelude::*;

use crate::backend::Format;
use crate::scalar::Scalar;

verus! {

use crate::backend::Model;
use crate::burn_sdp::full::{
    correlation, covariance_density, covariance_gate, covariance_slope, off_unit, pair_correlation,
    pair_series, rectified_covariance, relu_covariances,
};
use crate::burn_sdp::rectify::{is_fixed, relu_variance, safe_deviation};
use crate::laws::arithmetic::{
    field_cancel, field_div, ring_add_assoc, ring_add_comm, ring_dist, ring_ints, ring_mul_assoc,
    ring_mul_comm, ring_sub, ring_units, ring_zero,
};
use crate::laws::full::lemma_diagonal_entry;
use crate::laws::ordered::{
    is_ordered_field, lemma_square_grows, lemma_square_of_product, multiplication_ordered,
    ord_cases, ord_diff, ord_ints, ord_neg, ord_root, ord_scale, ring_mul_neg, ring_neg_twice,
};
use crate::laws::positive::{
    div_positive, le_scale, le_trans, lemma_square_not_negative, product_not_negative,
    sum_not_negative,
};
use crate::laws::rectified::lemma_divided_twice;
use crate::laws::sums::{
    lemma_sum_add, lemma_sum_eq, lemma_sum_scale, lemma_sum_scale_right, lemma_sum_single,
    lemma_sum_swap, sum_to,
};
use crate::laws::tensors::{casts_nothing, folds, lemma_cast};
use crate::scalar::half;
use crate::tensor::{group_tables, Block, Grid};

/// `y^T K y` for an `n x n` table `K`.
pub open spec fn form<S: Scalar>(
    n: nat,
    k: spec_fn(int, int) -> S,
    y: spec_fn(int) -> S,
) -> S {
    sum_to(n, |i: int| sum_to(n, |j: int| y(i).s_mul(k(i, j).s_mul(y(j)))))
}

/// Whether no direction makes the form negative.
pub open spec fn is_not_negative<S: Scalar>(n: nat, k: spec_fn(int, int) -> S) -> bool {
    forall|y: spec_fn(int) -> S| S::s_int(0).s_le(#[trigger] form(n, k, y))
}

/// The inner products of the rows of `l`, which have `m` entries.
pub open spec fn gram<S: Scalar>(m: nat, l: spec_fn(int, int) -> S, i: int, j: int) -> S {
    sum_to(m, |a: int| l(i, a).s_mul(l(j, a)))
}

/// A sum of numbers that are not negative is not negative.
proof fn lemma_sum_not_negative<S: Scalar>(n: nat, f: spec_fn(int) -> S)
    requires
        is_ordered_field::<S>(),
        forall|i: int| 0 <= i < n ==> S::s_int(0).s_le(#[trigger] f(i)),
    ensures
        S::s_int(0).s_le(sum_to(n, f)),
    decreases n,
{
    if n == 0 {
        ord_cases(S::s_int(0), S::s_int(0));
    } else {
        lemma_sum_not_negative((n - 1) as nat, f);
        assert(S::s_int(0).s_le(f(n - 1)));
        sum_not_negative(sum_to((n - 1) as nat, f), f(n - 1));
    }
}

/// Forms of equal tables are equal.
proof fn lemma_form_eq<S: Scalar>(
    n: nat,
    k: spec_fn(int, int) -> S,
    h: spec_fn(int, int) -> S,
    y: spec_fn(int) -> S,
)
    requires
        forall|i: int, j: int| 0 <= i < n && 0 <= j < n ==> #[trigger] k(i, j) == h(i, j),
    ensures
        form(n, k, y) == form(n, h, y),
{
    let p = |i: int| sum_to(n, |j: int| y(i).s_mul(k(i, j).s_mul(y(j))));
    let q = |i: int| sum_to(n, |j: int| y(i).s_mul(h(i, j).s_mul(y(j))));
    assert forall|i: int| 0 <= i < n implies #[trigger] p(i) == q(i) by {
        lemma_sum_eq(
            n,
            |j: int| y(i).s_mul(k(i, j).s_mul(y(j))),
            |j: int| y(i).s_mul(h(i, j).s_mul(y(j))),
        );
    }
    lemma_sum_eq(n, p, q);
}

/// Forms add up.
proof fn lemma_form_add<S: Scalar>(
    n: nat,
    k: spec_fn(int, int) -> S,
    h: spec_fn(int, int) -> S,
    y: spec_fn(int) -> S,
)
    requires
        is_ordered_field::<S>(),
    ensures
        form(n, |i: int, j: int| k(i, j).s_add(h(i, j)), y) == form(n, k, y).s_add(form(n, h, y)),
{
    let both = |i: int, j: int| k(i, j).s_add(h(i, j));
    let p = |i: int| sum_to(n, |j: int| y(i).s_mul(k(i, j).s_mul(y(j))));
    let q = |i: int| sum_to(n, |j: int| y(i).s_mul(h(i, j).s_mul(y(j))));
    let r = |i: int| sum_to(n, |j: int| y(i).s_mul(both(i, j).s_mul(y(j))));
    assert forall|i: int| 0 <= i < n implies #[trigger] r(i) == p(i).s_add(q(i)) by {
        let a = |j: int| y(i).s_mul(k(i, j).s_mul(y(j)));
        let b = |j: int| y(i).s_mul(h(i, j).s_mul(y(j)));
        let c = |j: int| y(i).s_mul(both(i, j).s_mul(y(j)));
        assert forall|j: int| 0 <= j < n implies #[trigger] c(j) == a(j).s_add(b(j)) by {
            ring_dist(y(j), k(i, j), h(i, j));
            ring_dist(y(i), k(i, j).s_mul(y(j)), h(i, j).s_mul(y(j)));
        }
        lemma_sum_eq(n, c, |j: int| a(j).s_add(b(j)));
        lemma_sum_add(n, a, b);
    }
    lemma_sum_eq(n, r, |i: int| p(i).s_add(q(i)));
    lemma_sum_add(n, p, q);
}

/// Tables whose forms are not negative add up to such a table.
proof fn lemma_not_negative_add<S: Scalar>(
    n: nat,
    k: spec_fn(int, int) -> S,
    h: spec_fn(int, int) -> S,
)
    requires
        is_ordered_field::<S>(),
        is_not_negative(n, k),
        is_not_negative(n, h),
    ensures
        is_not_negative(n, |i: int, j: int| k(i, j).s_add(h(i, j))),
{
    let both = |i: int, j: int| k(i, j).s_add(h(i, j));
    assert forall|y: spec_fn(int) -> S| S::s_int(0).s_le(#[trigger] form(n, both, y)) by {
        lemma_form_add(n, k, h, y);
        sum_not_negative(form(n, k, y), form(n, h, y));
    }
}

/// Weighting rows and columns alike keeps forms from being negative.
proof fn lemma_weighted<S: Scalar>(
    n: nat,
    k: spec_fn(int, int) -> S,
    d: spec_fn(int) -> S,
)
    requires
        is_ordered_field::<S>(),
        is_not_negative(n, k),
    ensures
        is_not_negative(n, |i: int, j: int| d(i).s_mul(k(i, j).s_mul(d(j)))),
{
    let w = |i: int, j: int| d(i).s_mul(k(i, j).s_mul(d(j)));
    assert forall|y: spec_fn(int) -> S| S::s_int(0).s_le(#[trigger] form(n, w, y)) by {
        let z = |i: int| y(i).s_mul(d(i));
        let p = |i: int| sum_to(n, |j: int| y(i).s_mul(w(i, j).s_mul(y(j))));
        let q = |i: int| sum_to(n, |j: int| z(i).s_mul(k(i, j).s_mul(z(j))));
        assert forall|i: int| 0 <= i < n implies #[trigger] p(i) == q(i) by {
            let a = |j: int| y(i).s_mul(w(i, j).s_mul(y(j)));
            let b = |j: int| z(i).s_mul(k(i, j).s_mul(z(j)));
            assert forall|j: int| 0 <= j < n implies #[trigger] a(j) == b(j) by {
                // y ((d (k e)) x) = (y d) (k (x e))
                ring_mul_assoc(d(i), k(i, j).s_mul(d(j)), y(j));
                ring_mul_assoc(y(i), d(i), k(i, j).s_mul(d(j)).s_mul(y(j)));
                ring_mul_assoc(k(i, j), d(j), y(j));
                ring_mul_comm(d(j), y(j));
            }
            lemma_sum_eq(n, a, b);
        }
        lemma_sum_eq(n, p, q);
        assert(form(n, w, y) == form(n, k, z));
    }
}

/// A factor that is not negative keeps forms from being negative.
proof fn lemma_scaled<S: Scalar>(n: nat, k: spec_fn(int, int) -> S, c: S)
    requires
        is_ordered_field::<S>(),
        S::s_int(0).s_le(c),
        is_not_negative(n, k),
    ensures
        is_not_negative(n, |i: int, j: int| c.s_mul(k(i, j))),
{
    let w = |i: int, j: int| c.s_mul(k(i, j));
    assert forall|y: spec_fn(int) -> S| S::s_int(0).s_le(#[trigger] form(n, w, y)) by {
        let p = |i: int| sum_to(n, |j: int| y(i).s_mul(w(i, j).s_mul(y(j))));
        let q = |i: int| sum_to(n, |j: int| y(i).s_mul(k(i, j).s_mul(y(j))));
        assert forall|i: int| 0 <= i < n implies #[trigger] p(i) == c.s_mul(q(i)) by {
            let a = |j: int| y(i).s_mul(w(i, j).s_mul(y(j)));
            let b = |j: int| y(i).s_mul(k(i, j).s_mul(y(j)));
            assert forall|j: int| 0 <= j < n implies #[trigger] a(j) == c.s_mul(b(j)) by {
                let ky = k(i, j).s_mul(y(j));
                ring_mul_assoc(c, k(i, j), y(j));
                ring_mul_assoc(y(i), c, ky);
                ring_mul_comm(y(i), c);
                ring_mul_assoc(c, y(i), ky);
            }
            lemma_sum_eq(n, a, |j: int| c.s_mul(b(j)));
            lemma_sum_scale(n, c, b);
        }
        lemma_sum_eq(n, p, |i: int| c.s_mul(q(i)));
        lemma_sum_scale(n, c, q);
        product_not_negative(c, form(n, k, y));
    }
}

/// The table of ones: its form is the square of the sum.
proof fn lemma_ones<S: Scalar>(n: nat)
    requires
        is_ordered_field::<S>(),
    ensures
        is_not_negative(n, |i: int, j: int| S::s_int(1)),
{
    let ones = |i: int, j: int| S::s_int(1);
    assert forall|y: spec_fn(int) -> S| S::s_int(0).s_le(#[trigger] form(n, ones, y)) by {
        let whole = sum_to(n, y);
        let p = |i: int| sum_to(n, |j: int| y(i).s_mul(ones(i, j).s_mul(y(j))));
        let q = |i: int| y(i).s_mul(whole);
        assert forall|i: int| 0 <= i < n implies #[trigger] p(i) == q(i) by {
            let a = |j: int| y(i).s_mul(ones(i, j).s_mul(y(j)));
            let b = |j: int| y(i).s_mul(y(j));
            assert forall|j: int| 0 <= j < n implies #[trigger] a(j) == b(j) by {
                ring_units(y(j));
            }
            lemma_sum_eq(n, a, b);
            lemma_sum_scale(n, y(i), y);
        }
        lemma_sum_eq(n, p, q);
        lemma_sum_scale_right(n, y, whole);
        lemma_square_not_negative(whole);
    }
}

/// Multiplying entry by entry with the inner products of rows keeps forms from
/// being negative.
proof fn lemma_schur<S: Scalar>(
    n: nat,
    m: nat,
    l: spec_fn(int, int) -> S,
    k: spec_fn(int, int) -> S,
)
    requires
        is_ordered_field::<S>(),
        is_not_negative(n, k),
    ensures
        is_not_negative(n, |i: int, j: int| gram(m, l, i, j).s_mul(k(i, j))),
{
    let w = |i: int, j: int| gram(m, l, i, j).s_mul(k(i, j));
    assert forall|y: spec_fn(int) -> S| S::s_int(0).s_le(#[trigger] form(n, w, y)) by {
        let z = |a: int| |i: int| y(i).s_mul(l(i, a));
        let term = |a: int, i: int, j: int| z(a)(i).s_mul(k(i, j).s_mul(z(a)(j)));
        let p = |i: int| sum_to(n, |j: int| y(i).s_mul(w(i, j).s_mul(y(j))));
        let rows = |i: int, a: int| sum_to(n, |j: int| term(a, i, j));
        let q = |i: int| sum_to(m, |a: int| rows(i, a));
        assert forall|i: int| 0 <= i < n implies #[trigger] p(i) == q(i) by {
            let e = |j: int| y(i).s_mul(w(i, j).s_mul(y(j)));
            let inner = |j: int, a: int| term(a, i, j);
            let g = |j: int| sum_to(m, |a: int| inner(j, a));
            assert forall|j: int| 0 <= j < n implies #[trigger] e(j) == g(j) by {
                lemma_schur_entry(m, l, i, j, k(i, j), y(i), y(j));
                lemma_sum_eq(
                    m,
                    |a: int| y(i).s_mul(l(i, a)).s_mul(k(i, j).s_mul(y(j).s_mul(l(j, a)))),
                    |a: int| inner(j, a),
                );
            }
            lemma_sum_eq(n, e, g);
            lemma_sum_swap(n, m, inner);
            let u = |a: int| sum_to(n, |j: int| inner(j, a));
            let v = |a: int| rows(i, a);
            assert forall|a: int| 0 <= a < m implies #[trigger] u(a) == v(a) by {
                lemma_sum_eq(n, |j: int| inner(j, a), |j: int| term(a, i, j));
            }
            lemma_sum_eq(m, u, v);
        }
        lemma_sum_eq(n, p, q);
        lemma_sum_swap(n, m, rows);
        let f = |a: int| sum_to(n, |i: int| rows(i, a));
        assert forall|a: int| 0 <= a < m implies S::s_int(0).s_le(#[trigger] f(a)) by {
            let c = |i: int| sum_to(n, |j: int| z(a)(i).s_mul(k(i, j).s_mul(z(a)(j))));
            let d = |i: int| rows(i, a);
            assert forall|i: int| 0 <= i < n implies #[trigger] c(i) == d(i) by {
                lemma_sum_eq(
                    n,
                    |j: int| z(a)(i).s_mul(k(i, j).s_mul(z(a)(j))),
                    |j: int| term(a, i, j),
                );
            }
            lemma_sum_eq(n, c, d);
            assert(f(a) == form(n, k, z(a)));
        }
        lemma_sum_not_negative(m, f);
    }
}

/// One entry of the form of a product with inner products.
proof fn lemma_schur_entry<S: Scalar>(
    m: nat,
    l: spec_fn(int, int) -> S,
    i: int,
    j: int,
    k: S,
    y: S,
    x: S,
)
    requires
        is_ordered_field::<S>(),
    ensures
        y.s_mul(gram(m, l, i, j).s_mul(k).s_mul(x)) == sum_to(
            m,
            |a: int| y.s_mul(l(i, a)).s_mul(k.s_mul(x.s_mul(l(j, a)))),
        ),
{
    let g = |a: int| l(i, a).s_mul(l(j, a));
    let kx = k.s_mul(x);
    ring_mul_assoc(sum_to(m, g), k, x);
    lemma_sum_scale_right(m, g, kx);
    let h = |a: int| g(a).s_mul(kx);
    lemma_sum_scale(m, y, h);
    let p = |a: int| y.s_mul(h(a));
    let q = |a: int| y.s_mul(l(i, a)).s_mul(k.s_mul(x.s_mul(l(j, a))));
    assert forall|a: int| 0 <= a < m implies #[trigger] p(a) == q(a) by {
        let s = l(i, a);
        let t = l(j, a);
        // y ((s t) (k x)) = (y s) (k (x t))
        ring_mul_assoc(s, t, kx);
        ring_mul_assoc(y, s, t.s_mul(kx));
        ring_mul_comm(t, kx);
        ring_mul_assoc(k, x, t);
    }
    lemma_sum_eq(m, p, q);
}

/// `u^2 P + u w (R + R) + w^2 Q` is not negative for the inner products `P`, `R`
/// and `Q` of two rows.
proof fn lemma_two_rows<S: Scalar>(
    m: nat,
    l: spec_fn(int, int) -> S,
    i: int,
    j: int,
    u: S,
    w: S,
)
    requires
        is_ordered_field::<S>(),
    ensures
        S::s_int(0).s_le(
            u.s_mul(u).s_mul(gram(m, l, i, i)).s_add(
                u.s_mul(w).s_mul(gram(m, l, i, j).s_add(gram(m, l, i, j))),
            ).s_add(w.s_mul(w).s_mul(gram(m, l, j, j))),
        ),
{
    let a = |k: int| u.s_mul(u).s_mul(l(i, k).s_mul(l(i, k)));
    let b = |k: int| u.s_mul(w).s_mul(l(i, k).s_mul(l(j, k)));
    let c = |k: int| w.s_mul(w).s_mul(l(j, k).s_mul(l(j, k)));
    let square = |k: int|
        u.s_mul(l(i, k)).s_add(w.s_mul(l(j, k))).s_mul(u.s_mul(l(i, k)).s_add(w.s_mul(l(j, k))));
    let ab = |k: int| a(k).s_add(b(k).s_add(b(k)));
    let abc = |k: int| ab(k).s_add(c(k));
    let bb = |k: int| b(k).s_add(b(k));
    assert forall|k: int| 0 <= k < m implies #[trigger] square(k) == abc(k) by {
        let s = u.s_mul(l(i, k));
        let t = w.s_mul(l(j, k));
        let st = s.s_add(t);
        ring_dist(st, s, t);
        ring_dist(s, s, t);
        ring_dist(t, s, t);
        lemma_square_of_product(u, l(i, k));
        lemma_square_of_product(w, l(j, k));
        // s t = (u w) (l l')
        ring_mul_assoc(u, l(i, k), t);
        ring_mul_assoc(l(i, k), w, l(j, k));
        ring_mul_comm(l(i, k), w);
        ring_mul_assoc(w, l(i, k), l(j, k));
        ring_mul_assoc(u, w, l(i, k).s_mul(l(j, k)));
        ring_mul_comm(t, s);
        // (ss + st) + (st + tt) = (ss + (st + st)) + tt
        let x = s.s_mul(t);
        ring_add_assoc(s.s_mul(s), x, x.s_add(t.s_mul(t)));
        ring_add_assoc(x, x, t.s_mul(t));
        ring_add_assoc(s.s_mul(s), x.s_add(x), t.s_mul(t));
    }
    lemma_sum_eq(m, square, abc);
    assert forall|k: int| 0 <= k < m implies S::s_int(0).s_le(#[trigger] square(k)) by {
        lemma_square_not_negative(u.s_mul(l(i, k)).s_add(w.s_mul(l(j, k))));
    }
    lemma_sum_not_negative(m, square);
    lemma_sum_add(m, ab, c);
    lemma_sum_add(m, a, bb);
    lemma_sum_add(m, b, b);
    let ll = |k: int| l(i, k).s_mul(l(i, k));
    let lk = |k: int| l(i, k).s_mul(l(j, k));
    let kk = |k: int| l(j, k).s_mul(l(j, k));
    lemma_sum_scale(m, u.s_mul(u), ll);
    lemma_sum_scale(m, u.s_mul(w), lk);
    lemma_sum_scale(m, w.s_mul(w), kk);
    lemma_sum_eq(m, ab, |k: int| a(k).s_add(bb(k)));
    lemma_sum_eq(m, a, |k: int| u.s_mul(u).s_mul(ll(k)));
    lemma_sum_eq(m, b, |k: int| u.s_mul(w).s_mul(lk(k)));
    lemma_sum_eq(m, c, |k: int| w.s_mul(w).s_mul(kk(k)));
    let r = gram(m, l, i, j);
    assert(sum_to(m, a) == u.s_mul(u).s_mul(gram(m, l, i, i)));
    assert(sum_to(m, b) == u.s_mul(w).s_mul(r));
    assert(sum_to(m, c) == w.s_mul(w).s_mul(gram(m, l, j, j)));
    assert(sum_to(m, bb) == sum_to(m, b).s_add(sum_to(m, b)));
    assert(sum_to(m, ab) == sum_to(m, a).s_add(sum_to(m, bb)));
    assert(sum_to(m, abc) == sum_to(m, ab).s_add(sum_to(m, c)));
    ring_dist(u.s_mul(w), r, r);
}

/// `q (q p - r r)` from `q^2 p - q r (r + r) + r^2 q`.
proof fn lemma_completed<S: Scalar>(p: S, q: S, r: S)
    requires
        is_ordered_field::<S>(),
    ensures
        q.s_mul(q).s_mul(p).s_add(q.s_mul(r.s_neg()).s_mul(r.s_add(r))).s_add(
            r.s_neg().s_mul(r.s_neg()).s_mul(q),
        ) == q.s_mul(q.s_mul(p).s_sub(r.s_mul(r))),
{
    let rr = r.s_mul(r);
    let x = q.s_mul(q).s_mul(p);
    let z = q.s_mul(rr);
    ring_mul_neg(q, r);
    ring_mul_neg(q.s_mul(r), r.s_add(r));
    ring_dist(q.s_mul(r), r, r);
    ring_mul_assoc(q, r, r);
    ring_neg_twice(z, z);
    // x + (-z + -z) + z = x + -z
    ring_mul_neg(r.s_neg(), r);
    ring_mul_neg(r, r);
    ring_neg_twice(rr, rr);
    ring_mul_comm(rr, q);
    let n = z.s_neg();
    ring_add_assoc(x, n.s_add(n), z);
    ring_add_assoc(n, n, z);
    ring_add_comm(n, z);
    ring_sub(z, z);
    ring_units(n);
    ring_mul_assoc(q, q, p);
    ring_sub(q.s_mul(p), rr);
    ring_dist(q, q.s_mul(p), rr.s_neg());
    ring_mul_neg(q, rr);
}

/// The squared inner product of two rows is at most the product of their squared
/// lengths.
proof fn lemma_cauchy_schwarz<S: Scalar>(m: nat, l: spec_fn(int, int) -> S, i: int, j: int)
    requires
        is_ordered_field::<S>(),
    ensures
        gram(m, l, i, j).s_mul(gram(m, l, i, j)).s_le(
            gram(m, l, i, i).s_mul(gram(m, l, j, j)),
        ),
        S::s_int(0).s_le(gram(m, l, i, i)),
        S::s_int(0).s_le(gram(m, l, j, j)),
{
    let zero = S::s_int(0);
    let p = gram(m, l, i, i);
    let q = gram(m, l, j, j);
    let r = gram(m, l, i, j);
    lemma_length_not_negative(m, l, i);
    lemma_length_not_negative(m, l, j);
    ord_cases(zero, p);
    ord_cases(zero, q);
    let rr = r.s_mul(r);
    if zero.s_lt(q) {
        lemma_two_rows(m, l, i, j, q, r.s_neg());
        lemma_completed(p, q, r);
        lemma_at_most(q, rr, q.s_mul(p));
        ring_mul_comm(p, q);
    } else if zero.s_lt(p) {
        lemma_two_rows(m, l, i, j, r.s_neg(), p);
        lemma_completed(q, p, r);
        // The same three terms in the other order.
        let a = p.s_mul(p).s_mul(q);
        let b = p.s_mul(r.s_neg()).s_mul(r.s_add(r));
        let c = r.s_neg().s_mul(r.s_neg()).s_mul(p);
        ring_mul_comm(r.s_neg(), p);
        ring_add_comm(a.s_add(b), c);
        ring_add_comm(a, b);
        ring_add_assoc(c, b, a);
        lemma_at_most(p, rr, p.s_mul(q));
    } else {
        // Both lengths are zero, so 2 r and -2 r are not negative.
        let one = S::s_int(1);
        lemma_two_rows(m, l, i, j, one, one);
        lemma_two_rows(m, l, i, j, one, one.s_neg());
        let two_r = r.s_add(r);
        ring_mul_neg(one, one);
        ring_mul_neg(one, two_r);
        ring_mul_neg(one.s_neg(), one);
        ring_neg_twice(one, one);
        ring_units(one);
        ring_units(two_r);
        ring_zero(one);
        ring_units(zero);
        ring_units(two_r.s_neg());
        assert(zero.s_le(two_r));
        assert(zero.s_le(two_r.s_neg()));
        ord_cases(zero, two_r);
        ord_cases(zero, two_r.s_neg());
        ord_neg(zero, two_r);
        crate::laws::ordered::lemma_neg_unique(zero, zero);
        ord_cases(two_r.s_neg(), zero);
        assert(two_r == zero);
        // r + r = 0 gives r = 0
        ring_dist(r, one, one);
        ring_units(r);
        ring_ints::<S>(1, 1);
        ord_ints::<S>(0, 2);
        ord_cases(zero, S::s_int(2));
        ring_zero(S::s_int(2));
        field_cancel(r, zero, S::s_int(2));
        ring_zero(zero);
        ord_cases(zero, zero);
    }
}

/// A row's squared length is not negative.
proof fn lemma_length_not_negative<S: Scalar>(m: nat, l: spec_fn(int, int) -> S, i: int)
    requires
        is_ordered_field::<S>(),
    ensures
        S::s_int(0).s_le(gram(m, l, i, i)),
{
    let f = |a: int| l(i, a).s_mul(l(i, a));
    assert forall|a: int| 0 <= a < m implies S::s_int(0).s_le(#[trigger] f(a)) by {
        lemma_square_not_negative(l(i, a));
    }
    lemma_sum_not_negative(m, f);
}

/// `0 <= q (y - x)` and `0 < q` give `x <= y`.
proof fn lemma_at_most<S: Scalar>(q: S, x: S, y: S)
    requires
        is_ordered_field::<S>(),
        S::s_int(0).s_lt(q),
        S::s_int(0).s_le(q.s_mul(y.s_sub(x))),
    ensures
        x.s_le(y),
{
    let zero = S::s_int(0);
    ord_scale(q, zero, y.s_sub(x));
    ring_zero(q);
    ord_diff(x, y);
    ord_cases(x, y);
    ord_cases(zero, y.s_sub(x));
    if zero == y.s_sub(x) {
        ring_sub(y, x);
        crate::laws::ordered::lemma_neg_unique(y, x.s_neg());
        ring_neg_twice(x, x);
        ring_neg_twice(y, y);
    }
}

/// What a feature contributes to the three terms of the covariance series: the
/// derivatives of the rectified mean in the mean, by order.
pub open spec fn slope_of_mean<M: Model>(f: Format, mu: M::Elem, v: M::Elem, order: int) -> M::Elem {
    let sigma = safe_deviation::<M>(f, v);
    if order == 1 {
        covariance_gate::<M>(f, mu, v)
    } else if order == 2 {
        covariance_density::<M>(f, mu, v).s_div(sigma)
    } else {
        covariance_slope::<M>(f, mu, v).s_div(sigma).s_div(sigma)
    }
}

/// The three terms of the covariance series for two features of covariance `c`:
/// `c d1 d1' + c^2 d2 d2' / 2 + c^3 d3 d3' / 6`.
pub open spec fn three_terms<M: Model>(
    f: Format,
    c: M::Elem,
    mu_i: M::Elem,
    v_i: M::Elem,
    mu_j: M::Elem,
    v_j: M::Elem,
) -> M::Elem {
    let sixth = M::Elem::s_int(1).s_div(M::Elem::s_int(6));
    let first = slope_of_mean::<M>(f, mu_i, v_i, 1).s_mul(
        c.s_mul(slope_of_mean::<M>(f, mu_j, v_j, 1)),
    );
    let second = slope_of_mean::<M>(f, mu_i, v_i, 2).s_mul(
        c.s_mul(c).s_mul(slope_of_mean::<M>(f, mu_j, v_j, 2)),
    );
    let third = slope_of_mean::<M>(f, mu_i, v_i, 3).s_mul(
        c.s_mul(c.s_mul(c)).s_mul(slope_of_mean::<M>(f, mu_j, v_j, 3)),
    );
    first.s_add(half::<M::Elem>().s_mul(second)).s_add(sixth.s_mul(third))
}

/// `(x / a) (c (y / b)) = (c / (a b)) (x y)`, where `rho (a b) = c`.
proof fn lemma_share<S: Scalar>(c: S, a: S, b: S, rho: S, x: S, y: S)
    requires
        is_ordered_field::<S>(),
        a != S::s_int(0),
        b != S::s_int(0),
        rho.s_mul(a.s_mul(b)) == c,
    ensures
        x.s_div(a).s_mul(c.s_mul(y.s_div(b))) == rho.s_mul(x.s_mul(y)),
{
    let u = x.s_div(a);
    let w = y.s_div(b);
    field_div(x, a);
    field_div(y, b);
    // u (c w) = rho ((u a) (w b))
    ring_mul_assoc(rho, a.s_mul(b), w);
    ring_mul_assoc(u, rho, a.s_mul(b).s_mul(w));
    ring_mul_comm(u, rho);
    ring_mul_assoc(rho, u, a.s_mul(b).s_mul(w));
    ring_mul_assoc(a, b, w);
    ring_mul_assoc(u, a, b.s_mul(w));
    ring_mul_comm(b, w);
}

/// `s (rho (G + rho (P h + rho (Q k)))) = c G + h (c (rho P)) + k ((c rho) (rho Q))`
/// for `c = rho s`.
proof fn lemma_horner<S: Scalar>(s: S, rho: S, g: S, p: S, h: S, q: S, k: S)
    requires
        is_ordered_field::<S>(),
    ensures
        ({
            let c = rho.s_mul(s);
            s.s_mul(
                rho.s_mul(
                    g.s_add(rho.s_mul(p.s_mul(h).s_add(rho.s_mul(q.s_mul(k))))),
                ),
            ) == c.s_mul(g).s_add(h.s_mul(c.s_mul(rho.s_mul(p)))).s_add(
                k.s_mul(c.s_mul(rho.s_mul(rho.s_mul(q)))),
            )
        }),
{
    let c = rho.s_mul(s);
    let a = p.s_mul(h);
    let b = rho.s_mul(q.s_mul(k));
    let inner = rho.s_mul(a.s_add(b));
    ring_mul_assoc(s, rho, g.s_add(inner));
    ring_mul_comm(s, rho);
    ring_dist(c, g, inner);
    ring_dist(rho, a, b);
    ring_dist(c, rho.s_mul(a), rho.s_mul(b));
    ring_add_assoc(c.s_mul(g), c.s_mul(rho.s_mul(a)), c.s_mul(rho.s_mul(b)));
    // c (rho (p h)) = h (c (rho p))
    ring_mul_assoc(rho, p, h);
    ring_mul_assoc(c, rho.s_mul(p), h);
    ring_mul_comm(c.s_mul(rho.s_mul(p)), h);
    // c (rho (rho (q k))) = k (c (rho (rho q)))
    ring_mul_assoc(rho, q, k);
    ring_mul_assoc(rho, rho.s_mul(q), k);
    ring_mul_assoc(c, rho.s_mul(rho.s_mul(q)), k);
    ring_mul_comm(c.s_mul(rho.s_mul(rho.s_mul(q))), k);
}

/// Deviations are positive, and their squares at least the variances.
proof fn lemma_deviation<M: Model>(f: Format, v: M::Elem)
    requires
        is_ordered_field::<M::Elem>(),
        casts_nothing::<M>(f),
        M::Elem::s_int(0).s_le(v),
    ensures
        M::Elem::s_int(0).s_lt(safe_deviation::<M>(f, v)),
        safe_deviation::<M>(f, v) != M::Elem::s_int(0),
        v.s_le(safe_deviation::<M>(f, v).s_mul(safe_deviation::<M>(f, v))),
{
    let zero = M::Elem::s_int(0);
    let one = M::Elem::s_int(1);
    lemma_cast::<M>(f, zero);
    lemma_cast::<M>(f, one);
    ord_cases(v, zero);
    ord_cases(zero, v);
    ord_cases(v, v);
    ord_ints::<M::Elem>(0, 1);
    ord_cases(zero, one);
    if is_fixed::<M>(f, v) {
        ord_root(one);
        ord_cases(v, one);
    } else {
        ord_root(v);
    }
    ord_cases(zero, safe_deviation::<M>(f, v));
}

/// Between minus `s` and `s` lies what has a square of at most that of `s`.
proof fn lemma_within<S: Scalar>(x: S, s: S)
    requires
        is_ordered_field::<S>(),
        S::s_int(0).s_lt(s),
        x.s_mul(x).s_le(s.s_mul(s)),
    ensures
        !s.s_lt(x),
        !x.s_lt(s.s_neg()),
{
    let zero = S::s_int(0);
    let xx = x.s_mul(x);
    let ss = s.s_mul(s);
    ord_cases(zero, s);
    ord_cases(xx, ss);
    if s.s_lt(x) {
        lemma_square_grows(s, x);
        ord_cases(ss, xx);
    }
    if x.s_lt(s.s_neg()) {
        ord_neg(x, s.s_neg());
        ring_neg_twice(s, s);
        lemma_square_grows(s, x.s_neg());
        ring_mul_neg(x.s_neg(), x);
        ring_mul_neg(x, x);
        ring_neg_twice(xx, xx);
        ord_cases(ss, xx);
    }
}

/// The covariance that the rectifier gives two distinct features is the sum of
/// the three terms, where the correlation needs no bounds.
proof fn lemma_pair_terms<M: Model>(
    f: Format,
    c: M::Elem,
    mu_i: M::Elem,
    v_i: M::Elem,
    mu_j: M::Elem,
    v_j: M::Elem,
)
    requires
        is_ordered_field::<M::Elem>(),
        casts_nothing::<M>(f),
        M::Elem::s_int(0).s_le(v_i),
        M::Elem::s_int(0).s_le(v_j),
        c.s_mul(c).s_le(v_i.s_mul(v_j)),
    ensures
        rectified_covariance::<M>(f, c, mu_i, v_i, mu_j, v_j) == three_terms::<M>(
            f,
            c,
            mu_i,
            v_i,
            mu_j,
            v_j,
        ),
{
    let zero = M::Elem::s_int(0);
    let one = M::Elem::s_int(1);
    let a = safe_deviation::<M>(f, v_i);
    let b = safe_deviation::<M>(f, v_j);
    let s = a.s_mul(b);
    lemma_deviation::<M>(f, v_i);
    lemma_deviation::<M>(f, v_j);
    lemma_cast::<M>(f, one);
    lemma_cast::<M>(f, M::Elem::s_int(-1));
    assert(zero.s_lt(s)) by {
        reveal(multiplication_ordered);
    }
    // c^2 <= v v' <= (a b)^2
    ord_cases(zero, a.s_mul(a));
    le_scale(v_i, v_j, b.s_mul(b));
    lemma_square_not_negative(b);
    le_scale(b.s_mul(b), v_i, a.s_mul(a));
    ring_mul_comm(b.s_mul(b), v_i);
    ring_mul_comm(b.s_mul(b), a.s_mul(a));
    lemma_square_of_product(a, b);
    le_trans(c.s_mul(c), v_i.s_mul(v_j), v_i.s_mul(b.s_mul(b)));
    le_trans(c.s_mul(c), v_i.s_mul(b.s_mul(b)), s.s_mul(s));
    lemma_within(c, s);
    // rho = c / (a b) lies between minus one and one.
    let (larger, smaller) = if a.s_lt(b) {
        (b, a)
    } else {
        (a, b)
    };
    let rho = c.s_div(larger).s_div(smaller);
    lemma_divided_twice(c, a, b);
    lemma_divided_twice(c, b, a);
    ring_mul_comm(a, b);
    assert(rho.s_mul(s) == c);
    ring_mul_comm(rho, s);
    ord_scale(s, one, rho);
    ring_units(s);
    ord_scale(s, rho, M::Elem::s_int(-1));
    ring_ints::<M::Elem>(1, -1);
    crate::laws::ordered::lemma_neg_unique(one, M::Elem::s_int(-1));
    ring_mul_neg(s, one);
    assert(pair_correlation::<M>(f, c, v_i, v_j) == rho);
    // Each term of the series is one of the three.
    let h = half::<M::Elem>();
    let k = one.s_div(M::Elem::s_int(6));
    lemma_cast::<M>(f, h);
    lemma_cast::<M>(f, k);
    let gi = covariance_gate::<M>(f, mu_i, v_i);
    let gj = covariance_gate::<M>(f, mu_j, v_j);
    let pi = covariance_density::<M>(f, mu_i, v_i);
    let pj = covariance_density::<M>(f, mu_j, v_j);
    let qi = covariance_slope::<M>(f, mu_i, v_i);
    let qj = covariance_slope::<M>(f, mu_j, v_j);
    let g = gi.s_mul(gj);
    let p = pi.s_mul(pj);
    let q = qi.s_mul(qj);
    lemma_horner(s, rho, g, p, h, q, k);
    // c (gi gj) = gi (c gj)
    ring_mul_assoc(gi, c, gj);
    ring_mul_comm(gi, c);
    ring_mul_assoc(c, gi, gj);
    // c (rho (pi pj)) = (pi / a) ((c c) (pj / b))
    let w = pj.s_div(b);
    lemma_share(c, a, b, rho, pi, pj);
    lemma_lift(c, pi.s_div(a), w);
    // c (rho (rho (qi qj))) = (qi / a / a) ((c (c c)) (qj / b / b))
    lemma_share(c, a, b, rho, qi, qj);
    let ui = qi.s_div(a);
    let uj = qj.s_div(b);
    lemma_share(c, a, b, rho, ui, uj);
    let x = ui.s_div(a);
    let y = uj.s_div(b);
    // rho (rho (qi qj)) = rho (ui (c uj)) = c (rho (ui uj)) = c (x (c y))
    lemma_lift(c, ui, uj);
    ring_mul_assoc(ui, c, uj);
    ring_mul_comm(ui, c);
    ring_mul_assoc(c, ui, uj);
    ring_mul_assoc(rho, c, ui.s_mul(uj));
    ring_mul_comm(rho, c);
    ring_mul_assoc(c, rho, ui.s_mul(uj));
    lemma_lift(c, x, y);
    assert(rho.s_mul(rho.s_mul(q)) == x.s_mul(c.s_mul(c).s_mul(y)));
    ring_mul_assoc(c, c.s_mul(c), y);
    ring_mul_assoc(c, x, c.s_mul(c).s_mul(y));
    ring_mul_comm(c, x);
    ring_mul_assoc(x, c, c.s_mul(c).s_mul(y));
}

/// `c (x (c y)) = x ((c c) y)`.
proof fn lemma_lift<S: Scalar>(c: S, x: S, y: S)
    requires
        is_ordered_field::<S>(),
    ensures
        c.s_mul(x.s_mul(c.s_mul(y))) == x.s_mul(c.s_mul(c).s_mul(y)),
{
    ring_mul_assoc(c, x, c.s_mul(y));
    ring_mul_comm(c, x);
    ring_mul_assoc(x, c, c.s_mul(y));
    ring_mul_assoc(c, c, y);
}

/// The covariance of feature `i` and `j` of row `b` before the rectifier, as the
/// inner product of rows of `l`.
pub open spec fn is_gram<S: Scalar>(
    cov: Block<S>,
    b: int,
    m: nat,
    l: spec_fn(int, int) -> S,
) -> bool {
    forall|i: int, j: int| cov.has(b, i, j) ==> #[trigger] cov.at(b, i, j) == gram(m, l, i, j)
}

/// By how much the rectified variance of feature `i` of row `b` exceeds the
/// three terms of the series.
pub open spec fn remainder<M: Model>(
    f: Format,
    mean: Grid<M::Elem>,
    cov: Block<M::Elem>,
    b: int,
    i: int,
) -> M::Elem {
    let mu = mean.at(b, i);
    let v = cov.at(b, i, i);
    relu_variance::<M>(f, mu, v).s_sub(three_terms::<M>(f, v, mu, v, mu, v))
}

/// A rectified entry is the sum of the three terms, and of the remainder on the
/// diagonal.
proof fn lemma_rectified_entry<M: Model>(
    f: Format,
    mean: Grid<M::Elem>,
    cov: Block<M::Elem>,
    b: int,
    m: nat,
    l: spec_fn(int, int) -> M::Elem,
    i: int,
    j: int,
)
    requires
        is_ordered_field::<M::Elem>(),
        casts_nothing::<M>(f),
        folds::<M>(),
        mean.dims() == (cov.layers, cov.rows),
        cov.rows == cov.cols,
        cov.has(b, i, j),
        is_gram(cov, b, m, l),
    ensures
        relu_covariances::<M>(f, mean, cov).at(b, i, j) == three_terms::<M>(
            f,
            gram(m, l, i, j),
            mean.at(b, i),
            gram(m, l, i, i),
            mean.at(b, j),
            gram(m, l, j, j),
        ).s_add(
            if i == j {
                remainder::<M>(f, mean, cov, b, i)
            } else {
                M::Elem::s_int(0)
            },
        ),
{
    broadcast use group_tables;

    let zero = M::Elem::s_int(0);
    let one = M::Elem::s_int(1);
    lemma_diagonal_entry::<M>(f, cov, b, i);
    lemma_diagonal_entry::<M>(f, cov, b, j);
    assert(cov.at(b, i, j) == gram(m, l, i, j));
    assert(cov.at(b, i, i) == gram(m, l, i, i));
    assert(cov.at(b, j, j) == gram(m, l, j, j));
    let v_i = gram(m, l, i, i);
    let v_j = gram(m, l, j, j);
    let mu_i = mean.at(b, i);
    let mu_j = mean.at(b, j);
    let c = gram(m, l, i, j);
    lemma_cast::<M>(f, zero);
    lemma_cast::<M>(f, one);
    lemma_cast::<M>(f, M::Elem::s_int(-1));
    let off = off_unit::<M>(f, i, j);
    let own = relu_variance::<M>(f, mu_i, v_i);
    lemma_cauchy_schwarz(m, l, i, j);
    if i != j {
        ring_zero(M::Elem::s_int(-1));
        ring_units(one);
        assert(off == one);
        ring_units(c);
        lemma_pair_terms::<M>(f, c, mu_i, v_i, mu_j, v_j);
        ring_zero(own);
    } else {
        ring_units(M::Elem::s_int(-1));
        ring_ints::<M::Elem>(-1, 1);
        assert(off == zero);
        ring_zero(c);
        // Without covariance nothing is left of the series.
        let a = safe_deviation::<M>(f, v_i);
        lemma_deviation::<M>(f, v_i);
        lemma_zero_over(a);
        ord_ints::<M::Elem>(-1, 0);
        ord_ints::<M::Elem>(0, 1);
        ord_cases(zero, M::Elem::s_int(-1));
        ord_cases(M::Elem::s_int(-1), zero);
        ord_cases(one, zero);
        ord_cases(zero, one);
        assert(correlation::<M>(f, zero, a, a) == zero);
        let series = pair_series::<M>(f, zero, mu_i, v_i, mu_i, v_i);
        ring_zero(series);
        ring_zero(a.s_mul(a));
        assert(rectified_covariance::<M>(f, zero, mu_i, v_i, mu_i, v_i) == zero);
        ring_units(own);
        // own = T + (own - T)
        let t = three_terms::<M>(f, v_i, mu_i, v_i, mu_i, v_i);
        ring_sub(own, t);
        ring_add_comm(own, t.s_neg());
        ring_add_assoc(t, t.s_neg(), own);
        ring_sub(t, t);
    }
    ring_units(three_terms::<M>(f, c, mu_i, v_i, mu_j, v_j));
    ring_units(rectified_covariance::<M>(f, c, mu_i, v_i, mu_j, v_j));
}

/// Zero over a number other than zero is zero.
proof fn lemma_zero_over<S: Scalar>(a: S)
    requires
        is_ordered_field::<S>(),
        a != S::s_int(0),
    ensures
        S::s_int(0).s_div(a) == S::s_int(0),
{
    field_div(S::s_int(0), a);
    ring_zero(a);
    field_cancel(S::s_int(0).s_div(a), S::s_int(0), a);
}

/// The three terms of all pairs make no direction negative.
proof fn lemma_terms_not_negative<M: Model>(
    f: Format,
    n: nat,
    m: nat,
    l: spec_fn(int, int) -> M::Elem,
    mu: spec_fn(int) -> M::Elem,
)
    requires
        is_ordered_field::<M::Elem>(),
    ensures
        is_not_negative(
            n,
            |i: int, j: int|
                three_terms::<M>(
                    f,
                    gram(m, l, i, j),
                    mu(i),
                    gram(m, l, i, i),
                    mu(j),
                    gram(m, l, j, j),
                ),
        ),
{
    let zero = M::Elem::s_int(0);
    let one = M::Elem::s_int(1);
    let ones = |i: int, j: int| one;
    let g1 = |i: int, j: int| gram(m, l, i, j).s_mul(ones(i, j));
    let c1 = |i: int, j: int| gram(m, l, i, j);
    let c2 = |i: int, j: int| gram(m, l, i, j).s_mul(c1(i, j));
    let c3 = |i: int, j: int| gram(m, l, i, j).s_mul(c2(i, j));
    lemma_ones::<M::Elem>(n);
    lemma_schur(n, m, l, ones);
    assert(is_not_negative(n, c1)) by {
        assert forall|y: spec_fn(int) -> M::Elem| zero.s_le(#[trigger] form(n, c1, y)) by {
            assert forall|i: int, j: int| 0 <= i < n && 0 <= j < n implies #[trigger] g1(i, j)
                == c1(i, j) by {
                ring_units(gram(m, l, i, j));
            }
            lemma_form_eq(n, g1, c1, y);
            assert(zero.s_le(form(n, g1, y)));
        }
    }
    lemma_schur(n, m, l, c1);
    lemma_schur(n, m, l, c2);
    let d1 = |i: int| slope_of_mean::<M>(f, mu(i), gram(m, l, i, i), 1);
    let d2 = |i: int| slope_of_mean::<M>(f, mu(i), gram(m, l, i, i), 2);
    let d3 = |i: int| slope_of_mean::<M>(f, mu(i), gram(m, l, i, i), 3);
    let t1 = |i: int, j: int| d1(i).s_mul(c1(i, j).s_mul(d1(j)));
    let t2 = |i: int, j: int| d2(i).s_mul(c2(i, j).s_mul(d2(j)));
    let t3 = |i: int, j: int| d3(i).s_mul(c3(i, j).s_mul(d3(j)));
    lemma_weighted(n, c1, d1);
    lemma_weighted(n, c2, d2);
    lemma_weighted(n, c3, d3);
    let h = half::<M::Elem>();
    let k = one.s_div(M::Elem::s_int(6));
    ord_ints::<M::Elem>(0, 1);
    ord_ints::<M::Elem>(0, 2);
    ord_ints::<M::Elem>(0, 6);
    div_positive(one, M::Elem::s_int(2));
    div_positive(one, M::Elem::s_int(6));
    ord_cases(zero, h);
    ord_cases(zero, k);
    lemma_scaled(n, t2, h);
    lemma_scaled(n, t3, k);
    let s2 = |i: int, j: int| h.s_mul(t2(i, j));
    let s3 = |i: int, j: int| k.s_mul(t3(i, j));
    lemma_not_negative_add(n, t1, s2);
    let s12 = |i: int, j: int| t1(i, j).s_add(s2(i, j));
    lemma_not_negative_add(n, s12, s3);
    let all = |i: int, j: int| s12(i, j).s_add(s3(i, j));
    let want = |i: int, j: int|
        three_terms::<M>(f, gram(m, l, i, j), mu(i), gram(m, l, i, i), mu(j), gram(m, l, j, j));
    assert forall|y: spec_fn(int) -> M::Elem| zero.s_le(#[trigger] form(n, want, y)) by {
        lemma_form_eq(n, all, want, y);
        assert(zero.s_le(form(n, all, y)));
    }
}

/// A diagonal of numbers that are not negative makes no direction negative.
proof fn lemma_diagonal_not_negative<S: Scalar>(n: nat, d: spec_fn(int) -> S)
    requires
        is_ordered_field::<S>(),
        forall|i: int| 0 <= i < n ==> S::s_int(0).s_le(#[trigger] d(i)),
    ensures
        is_not_negative(
            n,
            |i: int, j: int|
                if i == j {
                    d(i)
                } else {
                    S::s_int(0)
                },
        ),
{
    let zero = S::s_int(0);
    let k = |i: int, j: int|
        if i == j {
            d(i)
        } else {
            zero
        };
    assert forall|y: spec_fn(int) -> S| zero.s_le(#[trigger] form(n, k, y)) by {
        let p = |i: int| sum_to(n, |j: int| y(i).s_mul(k(i, j).s_mul(y(j))));
        assert forall|i: int| 0 <= i < n implies zero.s_le(#[trigger] p(i)) by {
            let e = |j: int| y(i).s_mul(k(i, j).s_mul(y(j)));
            assert forall|j: int| 0 <= j < n && j != i implies #[trigger] e(j) == zero by {
                ring_zero(y(j));
                ring_zero(y(i));
            }
            lemma_sum_single(n, e, i);
            assert(zero.s_le(d(i)));
            // y (d y) = d (y y)
            ring_mul_assoc(y(i), d(i), y(i));
            ring_mul_comm(y(i), d(i));
            ring_mul_assoc(d(i), y(i), y(i));
            lemma_square_not_negative(y(i));
            product_not_negative(d(i), y(i).s_mul(y(i)));
        }
        lemma_sum_not_negative(n, p);
    }
}

/// The rectifier keeps covariance matrices positive semidefinite: if a
/// covariance matrix holds the inner products of some rows, and no rectified
/// variance falls short of the three terms of its own series, the rectified
/// covariance matrix makes no direction negative.
pub proof fn law_full_relu_keeps_semidefinite<M: Model>(
    f: Format,
    mean: Grid<M::Elem>,
    cov: Block<M::Elem>,
    b: int,
    m: nat,
    l: spec_fn(int, int) -> M::Elem,
)
    requires
        is_ordered_field::<M::Elem>(),
        casts_nothing::<M>(f),
        folds::<M>(),
        mean.dims() == (cov.layers, cov.rows),
        cov.rows == cov.cols,
        0 <= b < cov.layers,
        is_gram(cov, b, m, l),
        forall|i: int|
            0 <= i < cov.rows ==> M::Elem::s_int(0).s_le(
                #[trigger] remainder::<M>(f, mean, cov, b, i),
            ),
    ensures
        is_not_negative(
            cov.rows,
            |i: int, j: int| relu_covariances::<M>(f, mean, cov).at(b, i, j),
        ),
{
    broadcast use group_tables;

    let n = cov.rows;
    let zero = M::Elem::s_int(0);
    let mu = |i: int| mean.at(b, i);
    let terms = |i: int, j: int|
        three_terms::<M>(f, gram(m, l, i, j), mu(i), gram(m, l, i, i), mu(j), gram(m, l, j, j));
    let d = |i: int| remainder::<M>(f, mean, cov, b, i);
    let rest = |i: int, j: int|
        if i == j {
            d(i)
        } else {
            zero
        };
    lemma_terms_not_negative::<M>(f, n, m, l, mu);
    lemma_diagonal_not_negative(n, d);
    lemma_not_negative_add(n, terms, rest);
    let both = |i: int, j: int| terms(i, j).s_add(rest(i, j));
    let out = |i: int, j: int| relu_covariances::<M>(f, mean, cov).at(b, i, j);
    assert forall|y: spec_fn(int) -> M::Elem| zero.s_le(#[trigger] form(n, out, y)) by {
        assert forall|i: int, j: int| 0 <= i < n && 0 <= j < n implies #[trigger] both(i, j)
            == out(i, j) by {
            lemma_rectified_entry::<M>(f, mean, cov, b, m, l, i, j);
        }
        lemma_form_eq(n, both, out, y);
        assert(zero.s_le(form(n, both, y)));
    }
}

} // verus!
