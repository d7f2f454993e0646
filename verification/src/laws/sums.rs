//! Finite sums in exact arithmetic.
use vstd::prelude::*;

use crate::scalar::Scalar;

verus! {

use crate::laws::arithmetic::{
    is_ring, ring_dist, ring_mul_assoc, ring_shuffle, ring_units, ring_zero,
};
use crate::scalar::{dot, total};

/// `f(0) + ... + f(n - 1)`.
pub open spec fn sum_to<S: Scalar>(n: nat, f: spec_fn(int) -> S) -> S
    decreases n,
{
    if n == 0 {
        S::s_int(0)
    } else {
        sum_to((n - 1) as nat, f).s_add(f(n - 1))
    }
}

/// An inner product is a sum of products.
pub proof fn lemma_dot_sum<S: Scalar>(a: Seq<S>, b: Seq<S>, n: nat)
    ensures
        dot(a, b, n) == sum_to(n, |i: int| a[i].s_mul(b[i])),
    decreases n,
{
    if n > 0 {
        lemma_dot_sum(a, b, (n - 1) as nat);
    }
}

/// The total of a sequence is the sum of its entries.
pub proof fn lemma_total_sum<S: Scalar>(a: Seq<S>, n: nat)
    ensures
        total(a, n) == sum_to(n, |i: int| a[i]),
    decreases n,
{
    if n > 0 {
        lemma_total_sum(a, (n - 1) as nat);
    }
}

/// Sums of equal terms are equal.
pub proof fn lemma_sum_eq<S: Scalar>(n: nat, f: spec_fn(int) -> S, g: spec_fn(int) -> S)
    requires
        forall|i: int| 0 <= i < n ==> #[trigger] f(i) == g(i),
    ensures
        sum_to(n, f) == sum_to(n, g),
    decreases n,
{
    if n > 0 {
        lemma_sum_eq((n - 1) as nat, f, g);
    }
}

/// A sum of zeros is zero.
pub proof fn lemma_sum_zero<S: Scalar>(n: nat, f: spec_fn(int) -> S)
    requires
        is_ring::<S>(),
        forall|i: int| 0 <= i < n ==> #[trigger] f(i) == S::s_int(0),
    ensures
        sum_to(n, f) == S::s_int(0),
    decreases n,
{
    if n > 0 {
        lemma_sum_zero((n - 1) as nat, f);
        ring_units(S::s_int(0));
    }
}

/// A sum with one term that is not zero.
pub proof fn lemma_sum_single<S: Scalar>(n: nat, f: spec_fn(int) -> S, k: int)
    requires
        is_ring::<S>(),
        0 <= k < n,
        forall|i: int| 0 <= i < n && i != k ==> #[trigger] f(i) == S::s_int(0),
    ensures
        sum_to(n, f) == f(k),
    decreases n,
{
    if k == n - 1 {
        lemma_sum_zero((n - 1) as nat, f);
        ring_units(f(k));
    } else {
        lemma_sum_single((n - 1) as nat, f, k);
        assert(f(n - 1) == S::s_int(0));
        ring_units(f(k));
    }
}

/// Sums add up term by term.
pub proof fn lemma_sum_add<S: Scalar>(n: nat, f: spec_fn(int) -> S, g: spec_fn(int) -> S)
    requires
        is_ring::<S>(),
    ensures
        sum_to(n, |i: int| f(i).s_add(g(i))) == sum_to(n, f).s_add(sum_to(n, g)),
    decreases n,
{
    if n == 0 {
        ring_units(S::s_int(0));
    } else {
        lemma_sum_add((n - 1) as nat, f, g);
        ring_shuffle(sum_to((n - 1) as nat, f), sum_to((n - 1) as nat, g), f(n - 1), g(n - 1));
    }
}

/// A factor on the left moves into a sum.
pub proof fn lemma_sum_scale<S: Scalar>(n: nat, c: S, f: spec_fn(int) -> S)
    requires
        is_ring::<S>(),
    ensures
        c.s_mul(sum_to(n, f)) == sum_to(n, |i: int| c.s_mul(f(i))),
    decreases n,
{
    if n == 0 {
        ring_zero(c);
    } else {
        lemma_sum_scale((n - 1) as nat, c, f);
        ring_dist(c, sum_to((n - 1) as nat, f), f(n - 1));
    }
}

/// A factor on the right moves into a sum.
pub proof fn lemma_sum_scale_right<S: Scalar>(n: nat, f: spec_fn(int) -> S, c: S)
    requires
        is_ring::<S>(),
    ensures
        sum_to(n, f).s_mul(c) == sum_to(n, |i: int| f(i).s_mul(c)),
    decreases n,
{
    if n == 0 {
        ring_zero(c);
    } else {
        lemma_sum_scale_right((n - 1) as nat, f, c);
        ring_dist(c, sum_to((n - 1) as nat, f), f(n - 1));
    }
}

/// Double sums may be taken in either order.
pub proof fn lemma_sum_swap<S: Scalar>(m: nat, n: nat, f: spec_fn(int, int) -> S)
    requires
        is_ring::<S>(),
    ensures
        sum_to(m, |i: int| sum_to(n, |j: int| f(i, j))) == sum_to(
            n,
            |j: int| sum_to(m, |i: int| f(i, j)),
        ),
    decreases m,
{
    if m == 0 {
        lemma_sum_zero(n, |j: int| sum_to(m, |i: int| f(i, j)));
    } else {
        let k = (m - 1) as nat;
        lemma_sum_swap(k, n, f);
        let inner = |j: int| sum_to(k, |i: int| f(i, j));
        let last = |j: int| f(k as int, j);
        lemma_sum_add(n, inner, last);
        lemma_sum_eq(
            n,
            |j: int| sum_to(m, |i: int| f(i, j)),
            |j: int| inner(j).s_add(last(j)),
        );
        lemma_sum_eq(n, last, |j: int| f(m - 1, j));
        lemma_sum_eq(
            k,
            |i: int| sum_to(n, |j: int| f(i, j)),
            |i: int| sum_to(n, |j: int| f(i, j)),
        );
    }
}

/// Matrix products associate, for one entry:
/// `sum_k (sum_j a_j b_jk) c_k = sum_j a_j (sum_k b_jk c_k)`.
pub proof fn lemma_sum_assoc<S: Scalar>(
    m: nat,
    n: nat,
    a: spec_fn(int) -> S,
    b: spec_fn(int, int) -> S,
    c: spec_fn(int) -> S,
)
    requires
        is_ring::<S>(),
    ensures
        sum_to(n, |k: int| sum_to(m, |j: int| a(j).s_mul(b(j, k))).s_mul(c(k))) == sum_to(
            m,
            |j: int| a(j).s_mul(sum_to(n, |k: int| b(j, k).s_mul(c(k)))),
        ),
{
    let term = |j: int, k: int| a(j).s_mul(b(j, k)).s_mul(c(k));
    let left = |k: int| sum_to(m, |j: int| a(j).s_mul(b(j, k))).s_mul(c(k));
    let columns = |k: int| sum_to(m, |j: int| term(j, k));
    let rows = |j: int| sum_to(n, |k: int| term(j, k));
    let right = |j: int| a(j).s_mul(sum_to(n, |k: int| b(j, k).s_mul(c(k))));
    assert forall|k: int| 0 <= k < n implies #[trigger] left(k) == columns(k) by {
        let inner = |j: int| a(j).s_mul(b(j, k));
        lemma_sum_scale_right(m, inner, c(k));
        lemma_sum_eq(m, |j: int| inner(j).s_mul(c(k)), |j: int| term(j, k));
    }
    lemma_sum_eq(n, left, columns);
    lemma_sum_swap(m, n, term);
    assert forall|j: int| 0 <= j < m implies #[trigger] rows(j) == right(j) by {
        let inner = |k: int| b(j, k).s_mul(c(k));
        lemma_sum_scale(n, a(j), inner);
        let one = |k: int| term(j, k);
        let two = |k: int| a(j).s_mul(inner(k));
        assert forall|k: int| 0 <= k < n implies #[trigger] one(k) == two(k) by {
            ring_mul_assoc(a(j), b(j, k), c(k));
        }
        lemma_sum_eq(n, one, two);
    }
    lemma_sum_eq(m, rows, right);
}

} // verus!
