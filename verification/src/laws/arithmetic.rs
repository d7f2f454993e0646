//! Properties of number types that laws rest on.
use vstd::prelude::*;

use crate::scalar::Scalar;

verus! {

/// Whether addition commutes.
#[verifier::opaque]
pub open spec fn addition_commutes<S: Scalar>() -> bool {
    forall|a: S, b: S| #[trigger] a.s_add(b) == b.s_add(a)
}

/// Whether multiplication commutes.
#[verifier::opaque]
pub open spec fn multiplication_commutes<S: Scalar>() -> bool {
    forall|a: S, b: S| #[trigger] a.s_mul(b) == b.s_mul(a)
}

/// Whether addition associates.
#[verifier::opaque]
pub open spec fn addition_associates<S: Scalar>() -> bool {
    forall|a: S, b: S, c: S| #[trigger] a.s_add(b).s_add(c) == a.s_add(b.s_add(c))
}

/// Whether multiplication associates.
#[verifier::opaque]
pub open spec fn multiplication_associates<S: Scalar>() -> bool {
    forall|a: S, b: S, c: S| #[trigger] a.s_mul(b).s_mul(c) == a.s_mul(b.s_mul(c))
}

/// Whether multiplication distributes over addition.
#[verifier::opaque]
pub open spec fn multiplication_distributes<S: Scalar>() -> bool {
    forall|a: S, b: S, c: S|
        #[trigger] a.s_mul(b.s_add(c)) == a.s_mul(b).s_add(a.s_mul(c))
}

/// Whether zero and one are neutral, and integers add up.
#[verifier::opaque]
pub open spec fn integers_fit<S: Scalar>() -> bool {
    &&& forall|a: S| #[trigger] a.s_add(S::s_int(0)) == a
    &&& forall|a: S| #[trigger] a.s_mul(S::s_int(1)) == a
    &&& forall|m: int, n: int| #[trigger] S::s_int(m).s_add(S::s_int(n)) == S::s_int(m + n)
}

/// Whether subtraction undoes addition.
#[verifier::opaque]
pub open spec fn subtraction_fits<S: Scalar>() -> bool {
    &&& forall|a: S| #[trigger] a.s_add(a.s_neg()) == S::s_int(0)
    &&& forall|a: S, b: S| #[trigger] a.s_sub(b) == a.s_add(b.s_neg())
}

/// Whether arithmetic is exact: the numbers are a commutative ring in which
/// integers stand for themselves.
pub open spec fn is_ring<S: Scalar>() -> bool {
    &&& addition_commutes::<S>()
    &&& multiplication_commutes::<S>()
    &&& addition_associates::<S>()
    &&& multiplication_associates::<S>()
    &&& multiplication_distributes::<S>()
    &&& integers_fit::<S>()
    &&& subtraction_fits::<S>()
}

/// `a + b = b + a`.
pub proof fn ring_add_comm<S: Scalar>(a: S, b: S)
    requires
        is_ring::<S>(),
    ensures
        a.s_add(b) == b.s_add(a),
{
    reveal(addition_commutes);
}

/// `(a + b) + c = a + (b + c)`.
pub proof fn ring_add_assoc<S: Scalar>(a: S, b: S, c: S)
    requires
        is_ring::<S>(),
    ensures
        a.s_add(b).s_add(c) == a.s_add(b.s_add(c)),
{
    reveal(addition_associates);
}

/// `a b = b a`.
pub proof fn ring_mul_comm<S: Scalar>(a: S, b: S)
    requires
        is_ring::<S>(),
    ensures
        a.s_mul(b) == b.s_mul(a),
{
    reveal(multiplication_commutes);
}

/// `(a b) c = a (b c)`.
pub proof fn ring_mul_assoc<S: Scalar>(a: S, b: S, c: S)
    requires
        is_ring::<S>(),
    ensures
        a.s_mul(b).s_mul(c) == a.s_mul(b.s_mul(c)),
{
    reveal(multiplication_associates);
}

/// `a (b + c) = a b + a c` and `(b + c) a = b a + c a`.
pub proof fn ring_dist<S: Scalar>(a: S, b: S, c: S)
    requires
        is_ring::<S>(),
    ensures
        a.s_mul(b.s_add(c)) == a.s_mul(b).s_add(a.s_mul(c)),
        b.s_add(c).s_mul(a) == b.s_mul(a).s_add(c.s_mul(a)),
{
    reveal(multiplication_distributes);
    ring_mul_comm(a, b.s_add(c));
    ring_mul_comm(a, b);
    ring_mul_comm(a, c);
}

/// Zero and one are neutral.
pub proof fn ring_units<S: Scalar>(a: S)
    requires
        is_ring::<S>(),
    ensures
        a.s_add(S::s_int(0)) == a,
        S::s_int(0).s_add(a) == a,
        a.s_mul(S::s_int(1)) == a,
        S::s_int(1).s_mul(a) == a,
{
    reveal(integers_fit);
    ring_add_comm(a, S::s_int(0));
    ring_mul_comm(a, S::s_int(1));
}

/// Where `a + b = a`, `b` is zero.
pub proof fn ring_cancel<S: Scalar>(a: S, b: S)
    requires
        is_ring::<S>(),
        a.s_add(b) == a,
    ensures
        b == S::s_int(0),
{
    ring_sub(a, a);
    let n = a.s_neg();
    assert(n.s_add(a.s_add(b)) == n.s_add(a).s_add(b)) by {
        ring_add_assoc(n, a, b);
    }
    assert(n.s_add(a) == S::s_int(0)) by {
        ring_add_comm(n, a);
    }
    ring_units(b);
}

/// Zero annihilates.
pub proof fn ring_zero<S: Scalar>(a: S)
    requires
        is_ring::<S>(),
    ensures
        a.s_mul(S::s_int(0)) == S::s_int(0),
        S::s_int(0).s_mul(a) == S::s_int(0),
{
    let z = S::s_int(0);
    ring_units(z);
    ring_dist(a, z, z);
    ring_cancel(a.s_mul(z), a.s_mul(z));
    ring_mul_comm(a, z);
}

/// `a - b` and negation in terms of addition.
pub proof fn ring_sub<S: Scalar>(a: S, b: S)
    requires
        is_ring::<S>(),
    ensures
        a.s_sub(b) == a.s_add(b.s_neg()),
        a.s_add(a.s_neg()) == S::s_int(0),
{
    reveal(subtraction_fits);
}

/// Sums of integers.
pub proof fn ring_ints<S: Scalar>(m: int, n: int)
    requires
        is_ring::<S>(),
    ensures
        S::s_int(m).s_add(S::s_int(n)) == S::s_int(m + n),
{
    reveal(integers_fit);
}

/// `(a + b) + (c + d) = (a + c) + (b + d)`.
pub proof fn ring_shuffle<S: Scalar>(a: S, b: S, c: S, d: S)
    requires
        is_ring::<S>(),
    ensures
        a.s_add(b).s_add(c.s_add(d)) == a.s_add(c).s_add(b.s_add(d)),
{
    ring_add_assoc(a, b, c.s_add(d));
    ring_add_assoc(b, c, d);
    ring_add_comm(b, c);
    ring_add_assoc(c, b, d);
    ring_add_assoc(a, c, b.s_add(d));
}

/// Whether two numbers are the same, compare equal, as zeros of either sign do,
/// or are both the result of an undefined operation, which does not even compare
/// equal to itself.
pub open spec fn same<S: Scalar>(a: S, b: S) -> bool {
    a == b || a.s_eq(b) || (!a.s_eq(a) && !b.s_eq(b))
}

/// Whether a number compares equal to zero.
pub open spec fn is_zero<S: Scalar>(z: S) -> bool {
    z.s_eq(S::s_int(0))
}

/// Whether a number compares equal to one.
pub open spec fn is_one<S: Scalar>(o: S) -> bool {
    o.s_eq(S::s_int(1))
}

/// Whether comparing equal is symmetric and transitive, and zero and one are
/// what they should be.
#[verifier::opaque]
pub open spec fn equality_fits<S: Scalar>() -> bool {
    &&& forall|a: S, b: S| #[trigger] a.s_eq(b) ==> b.s_eq(a)
    &&& forall|a: S, b: S, c: S|
        #[trigger] a.s_eq(b) && #[trigger] b.s_eq(c) ==> a.s_eq(c)
    &&& is_zero(S::s_int(0))
    &&& is_one(S::s_int(1))
    &&& forall|z: S| #[trigger] is_zero(z) ==> z.s_finite()
}

/// Whether adding zero changes nothing, and a finite number times zero is zero.
#[verifier::opaque]
pub open spec fn zero_fits<S: Scalar>() -> bool {
    &&& forall|x: S, z: S| is_zero(z) ==> same(#[trigger] x.s_add(z), x)
    &&& forall|x: S, z: S| is_zero(z) ==> same(#[trigger] z.s_add(x), x)
    &&& forall|x: S, z: S| is_zero(z) && x.s_finite() ==> is_zero(#[trigger] x.s_mul(z))
    &&& forall|x: S, z: S| is_zero(z) && x.s_finite() ==> is_zero(#[trigger] z.s_mul(x))
    &&& forall|x: S, z: S|
        is_zero(z) && S::s_int(0).s_lt(x) ==> is_zero(#[trigger] z.s_div(x))
}

/// Whether multiplying by one changes nothing, and one less zero is one.
#[verifier::opaque]
pub open spec fn one_fits<S: Scalar>() -> bool {
    &&& forall|x: S, o: S| is_one(o) ==> same(#[trigger] x.s_mul(o), x)
    &&& forall|z: S| is_zero(z) ==> is_one(#[trigger] S::s_int(1).s_sub(z))
    &&& S::s_int(2).s_finite()
    &&& forall|o: S| #[trigger] is_one(o) ==> o.s_finite()
}

/// Whether zero and one are neutral, up to the sign of a zero. Rounding
/// arithmetic has this property too.
pub open spec fn is_neutral<S: Scalar>() -> bool {
    &&& equality_fits::<S>()
    &&& zero_fits::<S>()
    &&& one_fits::<S>()
}

/// Being the same is transitive and symmetric.
pub proof fn same_trans<S: Scalar>(a: S, b: S, c: S)
    requires
        is_neutral::<S>(),
        same(a, b),
        same(b, c),
    ensures
        same(a, c),
        same(c, a),
{
    reveal(equality_fits);
}

/// What is the same as a zero is zero; zeros are the same and finite.
pub proof fn zeros_same<S: Scalar>(a: S, b: S)
    requires
        is_neutral::<S>(),
        is_zero(a),
    ensures
        a.s_finite(),
        same(a, b) ==> is_zero(b),
        same(b, a) ==> is_zero(b),
        is_zero(b) ==> same(a, b),
{
    reveal(equality_fits);
}

/// A zero added on either side changes nothing.
pub proof fn add_zero<S: Scalar>(x: S, z: S)
    requires
        is_neutral::<S>(),
        is_zero(z),
    ensures
        same(x.s_add(z), x),
        same(z.s_add(x), x),
{
    reveal(zero_fits);
}

/// A finite number times a zero is a zero.
pub proof fn mul_zero<S: Scalar>(x: S, z: S)
    requires
        is_neutral::<S>(),
        is_zero(z),
        x.s_finite(),
    ensures
        is_zero(x.s_mul(z)),
        is_zero(z.s_mul(x)),
{
    reveal(zero_fits);
}

/// A zero over a positive number is a zero.
pub proof fn div_zero<S: Scalar>(z: S, x: S)
    requires
        is_neutral::<S>(),
        is_zero(z),
        S::s_int(0).s_lt(x),
    ensures
        is_zero(z.s_div(x)),
{
    reveal(zero_fits);
}

/// A number times a one is that number.
pub proof fn mul_one<S: Scalar>(x: S, o: S)
    requires
        is_neutral::<S>(),
        is_one(o),
    ensures
        same(x.s_mul(o), x),
        o.s_finite(),
{
    reveal(one_fits);
}

/// One less a zero is one, and two is finite.
pub proof fn one_less_zero<S: Scalar>(z: S)
    requires
        is_neutral::<S>(),
        is_zero(z),
    ensures
        is_one(S::s_int(1).s_sub(z)),
        S::s_int(2).s_finite(),
        is_zero(S::s_int(0)),
{
    reveal(one_fits);
    reveal(equality_fits);
}

/// Whether nothing is less than itself, and what is less is at most.
#[verifier::opaque]
pub open spec fn is_strict<S: Scalar>() -> bool {
    &&& forall|a: S| !#[trigger] a.s_lt(a)
    &&& forall|a: S, b: S| #[trigger] a.s_lt(b) ==> a.s_le(b)
}

/// Whether of two numbers at most one is less and what is less does not compare
/// equal; and whether finite numbers of which neither is less are the same
/// number or both zeros.
#[verifier::opaque]
pub open spec fn is_total<S: Scalar>() -> bool {
    &&& forall|a: S, b: S| #[trigger] a.s_lt(b) ==> !b.s_lt(a)
    &&& forall|a: S, b: S| #[trigger] a.s_lt(b) ==> !a.s_eq(b) && !b.s_eq(a)
    &&& forall|a: S, b: S|
        a.s_finite() && b.s_finite() && !#[trigger] a.s_lt(b) && !b.s_lt(a) ==> a == b || (is_zero(
            a,
        ) && is_zero(b))
}

/// Whether division undoes multiplication, and zero is not one.
#[verifier::opaque]
pub open spec fn division_fits<S: Scalar>() -> bool {
    &&& forall|a: S, b: S| b != S::s_int(0) ==> #[trigger] a.s_div(b).s_mul(b) == a
    &&& S::s_int(0) != S::s_int(1)
}

/// Whether arithmetic is exact and has exact quotients.
pub open spec fn is_field<S: Scalar>() -> bool {
    &&& is_ring::<S>()
    &&& division_fits::<S>()
}

/// A quotient times its denominator is the numerator.
pub proof fn field_div<S: Scalar>(a: S, b: S)
    requires
        is_field::<S>(),
        b != S::s_int(0),
    ensures
        a.s_div(b).s_mul(b) == a,
        b.s_mul(a.s_div(b)) == a,
{
    reveal(division_fits);
    ring_mul_comm(a.s_div(b), b);
}

/// Factors other than zero cancel.
pub proof fn field_cancel<S: Scalar>(x: S, y: S, b: S)
    requires
        is_field::<S>(),
        b != S::s_int(0),
        x.s_mul(b) == y.s_mul(b),
    ensures
        x == y,
{
    let i = S::s_int(1).s_div(b);
    field_div(S::s_int(1), b);
    ring_mul_assoc(x, b, i);
    ring_mul_assoc(y, b, i);
    ring_units(x);
    ring_units(y);
}

} // verus!
