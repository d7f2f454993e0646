//! Number types that distributions are propagated in.
//!
//! Everything in this crate is written over [`Scalar`]: a number type with
//! total arithmetic and IEEE-style comparisons. Each executable operation
//! returns exactly what its specification twin says, so contracts stated over
//! the twins fix a result down to the last rounding of the number type in use.
use vstd::prelude::*;

use crate::backend::Format;

verus! {

/// A number type with total arithmetic.
///
/// The operations never fail; as in IEEE arithmetic, overflow and undefined
/// results are values of the type that are not [`finite`](Scalar::finite), and
/// nothing is assumed of `less`, `at_most` and `equals` beyond being functions
/// of their arguments, so incomparable values are allowed.
///
/// The specification functions describe the implementation's own arithmetic. A
/// verified implementation must give a body to each of them: the bodies that
/// stand here say nothing that any arithmetic could meet, and only let number
/// types of unverified crates do without.
pub trait Scalar: Copy {
    /// The sum of two numbers.
    open spec fn s_add(self, other: Self) -> Self {
        arbitrary()
    }

    /// The difference of two numbers.
    open spec fn s_sub(self, other: Self) -> Self {
        arbitrary()
    }

    /// The product of two numbers.
    open spec fn s_mul(self, other: Self) -> Self {
        arbitrary()
    }

    /// The quotient of two numbers.
    open spec fn s_div(self, other: Self) -> Self {
        arbitrary()
    }

    /// The number with its sign reversed.
    open spec fn s_neg(self) -> Self {
        arbitrary()
    }

    /// The number without its sign.
    open spec fn s_abs(self) -> Self {
        arbitrary()
    }

    /// The square root.
    open spec fn s_sqrt(self) -> Self {
        arbitrary()
    }

    /// The natural exponential.
    open spec fn s_exp(self) -> Self {
        arbitrary()
    }

    /// The error function.
    open spec fn s_erf(self) -> Self {
        arbitrary()
    }

    /// The tangent.
    open spec fn s_tan(self) -> Self {
        arbitrary()
    }

    /// Whether `self` is less than `other`.
    open spec fn s_lt(self, other: Self) -> bool {
        arbitrary()
    }

    /// Whether `self` is less than or equal to `other`.
    open spec fn s_le(self, other: Self) -> bool {
        arbitrary()
    }

    /// Whether the two numbers compare equal.
    open spec fn s_eq(self, other: Self) -> bool {
        arbitrary()
    }

    /// Whether the number is neither infinite nor undefined.
    open spec fn s_finite(self) -> bool {
        arbitrary()
    }

    /// The number that stands for an integer.
    open spec fn s_int(value: int) -> Self {
        arbitrary()
    }

    /// The number that stands for the circle constant.
    open spec fn s_pi() -> Self {
        arbitrary()
    }

    /// The number as an entry of a tensor of format `f`.
    open spec fn s_cast(self, f: Format) -> Self {
        arbitrary()
    }

    /// The largest finite number of format `f`.
    open spec fn s_largest(f: Format) -> Self {
        arbitrary()
    }

    fn plus(self, other: Self) -> (r: Self)
        ensures
            r == self.s_add(other),
    ;

    fn minus(self, other: Self) -> (r: Self)
        ensures
            r == self.s_sub(other),
    ;

    fn times(self, other: Self) -> (r: Self)
        ensures
            r == self.s_mul(other),
    ;

    fn over(self, other: Self) -> (r: Self)
        ensures
            r == self.s_div(other),
    ;

    fn negated(self) -> (r: Self)
        ensures
            r == self.s_neg(),
    ;

    fn magnitude(self) -> (r: Self)
        ensures
            r == self.s_abs(),
    ;

    fn root(self) -> (r: Self)
        ensures
            r == self.s_sqrt(),
    ;

    fn exponential(self) -> (r: Self)
        ensures
            r == self.s_exp(),
    ;

    fn error_function(self) -> (r: Self)
        ensures
            r == self.s_erf(),
    ;

    fn tangent(self) -> (r: Self)
        ensures
            r == self.s_tan(),
    ;

    fn less(self, other: Self) -> (r: bool)
        ensures
            r == self.s_lt(other),
    ;

    fn at_most(self, other: Self) -> (r: bool)
        ensures
            r == self.s_le(other),
    ;

    fn equals(self, other: Self) -> (r: bool)
        ensures
            r == self.s_eq(other),
    ;

    fn finite(self) -> (r: bool)
        ensures
            r == self.s_finite(),
    ;

    fn whole(value: i32) -> (r: Self)
        ensures
            r == Self::s_int(value as int),
    ;

    fn pi() -> (r: Self)
        ensures
            r == Self::s_pi(),
    ;

    fn narrowed(self, f: Format) -> (r: Self)
        ensures
            r == self.s_cast(f),
    ;

    fn largest(f: Format) -> (r: Self)
        ensures
            r == Self::s_largest(f),
    ;
}

/// The inner product of the first `n` entries of `a` and `b`, summed from the
/// first entry on.
pub open spec fn dot<S: Scalar>(a: Seq<S>, b: Seq<S>, n: nat) -> S
    decreases n,
{
    if n == 0 {
        S::s_int(0)
    } else {
        dot(a, b, (n - 1) as nat).s_add(a[n - 1].s_mul(b[n - 1]))
    }
}

/// The sum of the first `n` entries of `a`, from the first entry on.
pub open spec fn total<S: Scalar>(a: Seq<S>, n: nat) -> S
    decreases n,
{
    if n == 0 {
        S::s_int(0)
    } else {
        total(a, (n - 1) as nat).s_add(a[n - 1])
    }
}

/// One half.
pub open spec fn half<S: Scalar>() -> S {
    S::s_int(1).s_div(S::s_int(2))
}

/// The standard normal density at zero, `1 / sqrt(2 pi)`.
pub open spec fn peak_density<S: Scalar>() -> S {
    S::s_int(1).s_div(S::s_int(2).s_mul(S::s_pi()).s_sqrt())
}

/// Whether every entry is finite.
pub open spec fn all_finite<S: Scalar>(a: Seq<S>) -> bool {
    forall|i: int| 0 <= i < a.len() ==> (#[trigger] a[i]).s_finite()
}

/// One half.
pub fn one_half<S: Scalar>() -> (r: S)
    ensures
        r == half::<S>(),
{
    S::whole(1).over(S::whole(2))
}

/// The standard normal density at zero.
pub fn density_at_zero<S: Scalar>() -> (r: S)
    ensures
        r == peak_density::<S>(),
{
    S::whole(1).over(S::whole(2).times(S::pi()).root())
}

/// The inner product of two slices of equal length.
pub fn inner_product<S: Scalar>(a: &[S], b: &[S]) -> (r: S)
    requires
        a@.len() == b@.len(),
    ensures
        r == dot(a@, b@, a@.len()),
{
    let mut sum = S::whole(0);
    let mut i: usize = 0;
    while i < a.len()
        invariant
            i <= a@.len(),
            a@.len() == b@.len(),
            sum == dot(a@, b@, i as nat),
        decreases a@.len() - i,
    {
        sum = sum.plus(a[i].times(b[i]));
        i += 1;
    }
    sum
}

/// Whether every entry of a slice is finite.
pub fn every_finite<S: Scalar>(a: &[S]) -> (r: bool)
    ensures
        r == all_finite(a@),
{
    let mut i: usize = 0;
    while i < a.len()
        invariant
            i <= a@.len(),
            forall|k: int| 0 <= k < i ==> (#[trigger] a@[k]).s_finite(),
        decreases a@.len() - i,
    {
        if !a[i].finite() {
            assert(!a@[i as int].s_finite());
            return false;
        }
        i += 1;
    }
    true
}

} // verus!
