//! Ordered exact arithmetic.
use vstd::prelude::*;

use crate::scalar::Scalar;

verus! {

use crate::laws::arithmetic::{
    field_cancel, field_div, is_field, ring_add_assoc, ring_add_comm, ring_dist, ring_mul_assoc,
    ring_mul_comm, ring_sub, ring_units, ring_zero,
};
use crate::scalar::half;

/// Whether the comparisons are a total order that addition and multiplication
/// by positive numbers keep.
#[verifier::opaque]
pub open spec fn order_fits<S: Scalar>() -> bool {
    &&& forall|a: S, b: S| #[trigger] a.s_le(b) <==> a.s_lt(b) || a == b
    &&& forall|a: S, b: S| #[trigger] a.s_eq(b) <==> a == b
    &&& forall|a: S| !#[trigger] a.s_lt(a)
    &&& forall|a: S, b: S, c: S| #[trigger] a.s_lt(b) && #[trigger] b.s_lt(c) ==> a.s_lt(c)
    &&& forall|a: S, b: S| #[trigger] a.s_lt(b) || a == b || b.s_lt(a)
    &&& forall|m: int, n: int| m < n ==> #[trigger] S::s_int(m).s_lt(S::s_int(n))
}

/// Whether addition keeps the order.
#[verifier::opaque]
pub open spec fn addition_ordered<S: Scalar>() -> bool {
    forall|a: S, b: S, c: S| a.s_lt(b) ==> #[trigger] a.s_add(c).s_lt(b.s_add(c))
}

/// Whether positive numbers have positive products.
#[verifier::opaque]
pub open spec fn multiplication_ordered<S: Scalar>() -> bool {
    forall|a: S, b: S|
        S::s_int(0).s_lt(a) && S::s_int(0).s_lt(b) ==> S::s_int(0).s_lt(#[trigger] a.s_mul(b))
}

/// Whether numbers that are not negative have roots.
#[verifier::opaque]
pub open spec fn roots_fit<S: Scalar>() -> bool {
    forall|v: S|
        S::s_int(0).s_le(v) ==> S::s_int(0).s_le(#[trigger] v.s_sqrt()) && v.s_sqrt().s_mul(
            v.s_sqrt(),
        ) == v
}

/// Whether arithmetic is exact and ordered, with exact quotients and roots.
pub open spec fn is_ordered_field<S: Scalar>() -> bool {
    &&& is_field::<S>()
    &&& order_fits::<S>()
    &&& addition_ordered::<S>()
    &&& multiplication_ordered::<S>()
    &&& roots_fit::<S>()
}

/// How two numbers compare.
pub proof fn ord_cases<S: Scalar>(a: S, b: S)
    requires
        is_ordered_field::<S>(),
    ensures
        a.s_le(b) <==> a.s_lt(b) || a == b,
        a.s_eq(b) <==> a == b,
        !a.s_lt(a),
        a.s_lt(b) ==> !b.s_lt(a) && a != b,
        a.s_lt(b) || a == b || b.s_lt(a),
{
    reveal(order_fits);
    if a.s_lt(b) && b.s_lt(a) {
        assert(a.s_lt(a));
    }
}

/// Being less is transitive.
pub proof fn ord_trans<S: Scalar>(a: S, b: S, c: S)
    requires
        is_ordered_field::<S>(),
        a.s_lt(b),
        b.s_lt(c),
    ensures
        a.s_lt(c),
{
    reveal(order_fits);
}

/// Integers are ordered as integers are.
pub proof fn ord_ints<S: Scalar>(m: int, n: int)
    requires
        is_ordered_field::<S>(),
        m < n,
    ensures
        S::s_int(m).s_lt(S::s_int(n)),
{
    reveal(order_fits);
}

/// Adding a number keeps the order, either way.
pub proof fn ord_add<S: Scalar>(a: S, b: S, c: S)
    requires
        is_ordered_field::<S>(),
    ensures
        a.s_lt(b) <==> a.s_add(c).s_lt(b.s_add(c)),
{
    reveal(addition_ordered);
    if a.s_add(c).s_lt(b.s_add(c)) {
        let n = c.s_neg();
        ring_add_assoc(a, c, n);
        ring_add_assoc(b, c, n);
        ring_sub(c, c);
        ring_units(a);
        ring_units(b);
        assert(a.s_add(c).s_add(n).s_lt(b.s_add(c).s_add(n)));
    }
}

/// The difference of a greater and a smaller number is positive, either way.
pub proof fn ord_diff<S: Scalar>(a: S, b: S)
    requires
        is_ordered_field::<S>(),
    ensures
        a.s_lt(b) <==> S::s_int(0).s_lt(b.s_sub(a)),
{
    ord_add(a, b, a.s_neg());
    ring_sub(b, a);
    ring_sub(a, a);
}

/// `a (-b) = -(a b)` and `(-a) b = -(a b)`.
pub proof fn ring_mul_neg<S: Scalar>(a: S, b: S)
    requires
        is_field::<S>(),
    ensures
        a.s_mul(b.s_neg()) == a.s_mul(b).s_neg(),
        a.s_neg().s_mul(b) == a.s_mul(b).s_neg(),
{
    let n = a.s_mul(b);
    ring_sub(b, b);
    ring_dist(a, b, b.s_neg());
    ring_zero(a);
    lemma_neg_unique(n, a.s_mul(b.s_neg()));
    ring_sub(a, a);
    ring_dist(b, a, a.s_neg());
    ring_zero(b);
    lemma_neg_unique(n, a.s_neg().s_mul(b));
}

/// What adds up with `a` to zero is `-a`.
pub proof fn lemma_neg_unique<S: Scalar>(a: S, b: S)
    requires
        is_field::<S>(),
        a.s_add(b) == S::s_int(0),
    ensures
        b == a.s_neg(),
{
    let n = a.s_neg();
    ring_sub(a, a);
    ring_add_comm(a, n);
    ring_add_assoc(n, a, b);
    ring_units(b);
    ring_units(n);
}

/// `-(-a) = a` and `-(a + b) = -a + -b`.
pub proof fn ring_neg_twice<S: Scalar>(a: S, b: S)
    requires
        is_field::<S>(),
    ensures
        a.s_neg().s_neg() == a,
        a.s_add(b).s_neg() == a.s_neg().s_add(b.s_neg()),
{
    ring_sub(a, a);
    ring_add_comm(a, a.s_neg());
    lemma_neg_unique(a.s_neg(), a);
    ring_sub(b, b);
    crate::laws::arithmetic::ring_shuffle(a, b, a.s_neg(), b.s_neg());
    ring_units(S::s_int(0));
    lemma_neg_unique(a.s_add(b), a.s_neg().s_add(b.s_neg()));
}

/// Multiplying by a positive number keeps the order, either way.
pub proof fn ord_scale<S: Scalar>(s: S, a: S, b: S)
    requires
        is_ordered_field::<S>(),
        S::s_int(0).s_lt(s),
    ensures
        a.s_lt(b) <==> s.s_mul(a).s_lt(s.s_mul(b)),
        a.s_le(b) <==> s.s_mul(a).s_le(s.s_mul(b)),
        s.s_mul(a) == s.s_mul(b) ==> a == b,
{
    if a.s_lt(b) {
        lemma_scale_up(s, a, b);
    }
    if b.s_lt(a) {
        lemma_scale_up(s, b, a);
    }
    ord_cases(a, b);
    ord_cases(b, a);
    ord_cases(s.s_mul(a), s.s_mul(b));
    ord_cases(s.s_mul(b), s.s_mul(a));
}

/// Multiplying by a positive number keeps the order.
proof fn lemma_scale_up<S: Scalar>(s: S, a: S, b: S)
    requires
        is_ordered_field::<S>(),
        S::s_int(0).s_lt(s),
        a.s_lt(b),
    ensures
        s.s_mul(a).s_lt(s.s_mul(b)),
{
    ord_diff(a, b);
    assert(S::s_int(0).s_lt(s.s_mul(b.s_sub(a)))) by {
        reveal(multiplication_ordered);
    }
    ring_sub(b, a);
    ring_dist(s, b, a.s_neg());
    ring_mul_neg(s, a);
    ring_sub(s.s_mul(b), s.s_mul(a));
    ord_diff(s.s_mul(a), s.s_mul(b));
}

/// A positive number has positive square, and is not zero.
pub proof fn ord_square<S: Scalar>(s: S)
    requires
        is_ordered_field::<S>(),
        S::s_int(0).s_lt(s),
    ensures
        S::s_int(0).s_lt(s.s_mul(s)),
        s != S::s_int(0),
{
    reveal(multiplication_ordered);
    ord_cases(S::s_int(0), s);
}

/// Numbers that are not negative and have the same square are the same.
pub proof fn ord_root_unique<S: Scalar>(x: S, y: S)
    requires
        is_ordered_field::<S>(),
        S::s_int(0).s_le(x),
        S::s_int(0).s_le(y),
        x.s_mul(x) == y.s_mul(y),
    ensures
        x == y,
{
    ord_cases(x, y);
    if x.s_lt(y) {
        lemma_square_grows(x, y);
        ord_cases(x.s_mul(x), y.s_mul(y));
    } else if y.s_lt(x) {
        lemma_square_grows(y, x);
        ord_cases(y.s_mul(y), x.s_mul(x));
    }
}

/// Of numbers that are not negative, the greater has the greater square.
pub proof fn lemma_square_grows<S: Scalar>(x: S, y: S)
    requires
        is_ordered_field::<S>(),
        S::s_int(0).s_le(x),
        x.s_lt(y),
    ensures
        x.s_mul(x).s_lt(y.s_mul(y)),
{
    let zero = S::s_int(0);
    ord_cases(zero, x);
    assert(zero.s_lt(y)) by {
        if x != zero {
            ord_trans(zero, x, y);
        }
    }
    ord_scale(y, x, y);
    if x == zero {
        ring_zero(zero);
        ring_zero(y);
    } else {
        ord_scale(x, x, y);
        ring_mul_comm(x, y);
        ord_trans(x.s_mul(x), x.s_mul(y), y.s_mul(y));
    }
}

/// The root of a number that is not negative.
pub proof fn ord_root<S: Scalar>(v: S)
    requires
        is_ordered_field::<S>(),
        S::s_int(0).s_le(v),
    ensures
        S::s_int(0).s_le(v.s_sqrt()),
        v.s_sqrt().s_mul(v.s_sqrt()) == v,
        S::s_int(0).s_lt(v) ==> S::s_int(0).s_lt(v.s_sqrt()) && v.s_sqrt() != S::s_int(0),
{
    reveal(roots_fit);
    ord_cases(S::s_int(0), v.s_sqrt());
    ord_cases(S::s_int(0), v);
    ring_zero(S::s_int(0));
}

/// `sqrt(s^2 v) = s sqrt(v)`.
pub proof fn ord_root_scale<S: Scalar>(s: S, v: S)
    requires
        is_ordered_field::<S>(),
        S::s_int(0).s_lt(s),
        S::s_int(0).s_le(v),
    ensures
        s.s_mul(s).s_mul(v).s_sqrt() == s.s_mul(v.s_sqrt()),
        S::s_int(0).s_le(s.s_mul(s).s_mul(v)),
{
    let zero = S::s_int(0);
    let r = v.s_sqrt();
    let w = s.s_mul(s).s_mul(v);
    ord_square(s);
    ord_scale(s.s_mul(s), zero, v);
    ring_zero(s.s_mul(s));
    ord_root(v);
    ord_root(w);
    ord_scale(s, zero, r);
    ring_zero(s);
    // (s r)(s r) = (s s)(r r)
    lemma_square_of_product(s, r);
    ord_root_unique(w.s_sqrt(), s.s_mul(r));
}

/// `(a b)(a b) = (a a)(b b)`.
pub proof fn lemma_square_of_product<S: Scalar>(a: S, b: S)
    requires
        is_field::<S>(),
    ensures
        a.s_mul(b).s_mul(a.s_mul(b)) == a.s_mul(a).s_mul(b.s_mul(b)),
{
    ring_mul_assoc(a, b, a.s_mul(b));
    ring_mul_assoc(b, a, b);
    ring_mul_comm(b, a);
    ring_mul_assoc(a, b, b);
    ring_mul_assoc(a, a, b.s_mul(b));
}

/// `(s a) / (s b) = a / b`.
pub proof fn field_div_scale<S: Scalar>(s: S, a: S, b: S)
    requires
        is_field::<S>(),
        s != S::s_int(0),
        b != S::s_int(0),
    ensures
        s.s_mul(a).s_div(s.s_mul(b)) == a.s_div(b),
{
    let sb = s.s_mul(b);
    if sb == S::s_int(0) {
        ring_zero(b);
        field_cancel(s, S::s_int(0), b);
    }
    field_div(s.s_mul(a), sb);
    field_div(a, b);
    // (a / b)(s b) = s ((a / b) b) = s a
    let q = a.s_div(b);
    ring_mul_comm(s, b);
    ring_mul_assoc(q, b, s);
    ring_mul_comm(a, s);
    field_cancel(s.s_mul(a).s_div(sb), q, sb);
}

/// `(-a) / b = -(a / b)`.
pub proof fn field_div_neg<S: Scalar>(a: S, b: S)
    requires
        is_field::<S>(),
        b != S::s_int(0),
    ensures
        a.s_neg().s_div(b) == a.s_div(b).s_neg(),
{
    field_div(a, b);
    field_div(a.s_neg(), b);
    ring_mul_neg(a.s_div(b), b);
    field_cancel(a.s_neg().s_div(b), a.s_div(b).s_neg(), b);
}

/// Two halves are one.
pub proof fn field_halves<S: Scalar>()
    requires
        is_ordered_field::<S>(),
    ensures
        half::<S>().s_add(half::<S>()) == S::s_int(1),
{
    let h = half::<S>();
    ord_ints::<S>(0, 2);
    ord_cases(S::s_int(0), S::s_int(2));
    field_div(S::s_int(1), S::s_int(2));
    ring_units(h);
    ring_dist(h, S::s_int(1), S::s_int(1));
    crate::laws::arithmetic::ring_ints::<S>(1, 1);
}

/// Negation turns the order around.
pub proof fn ord_neg<S: Scalar>(a: S, b: S)
    requires
        is_ordered_field::<S>(),
    ensures
        a.s_lt(b) <==> b.s_neg().s_lt(a.s_neg()),
{
    ord_diff(a, b);
    ord_diff(b.s_neg(), a.s_neg());
    ring_sub(b, a);
    ring_sub(a.s_neg(), b.s_neg());
    ring_neg_twice(b, b);
    ring_add_comm(a.s_neg(), b);
}

} // verus!
