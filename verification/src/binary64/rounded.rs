//! Numbers that carry the format they are computed in.
use vstd::prelude::*;

use crate::backend::Format;
use crate::binary64::narrow::narrow_number;
use crate::binary64::Binary64;
use crate::scalar::Scalar;

verus! {

use crate::binary64::narrow::narrowing;

/// A number of the given format, held in double precision.
///
/// Sums, products, quotients and roots are rounded to the format after they have
/// been rounded to double precision, which has more than twice the digits of the
/// others. Where two formats meet, double precision gives way: numbers of the
/// host have it.
#[derive(Clone, Copy, Debug)]
pub struct Rounded {
    pub format: Format,
    pub number: Binary64,
}

/// The format that two numbers are combined in.
pub open spec fn joint(a: Format, b: Format) -> Format {
    if a == Format::F64 {
        b
    } else {
        a
    }
}

/// `x` in format `f`.
pub open spec fn in_format(x: Binary64, f: Format) -> Rounded {
    Rounded { format: f, number: narrowing(x, f) }
}

/// The format that two numbers are combined in.
fn join(a: Format, b: Format) -> (r: Format)
    ensures
        r == joint(a, b),
{
    match a {
        Format::F64 => b,
        _ => a,
    }
}

/// `x` in format `f`.
fn put(x: Binary64, f: Format) -> (r: Rounded)
    ensures
        r == in_format(x, f),
{
    Rounded { format: f, number: narrow_number(x, f) }
}

impl Scalar for Rounded {
    open spec fn s_add(self, other: Self) -> Self {
        in_format(self.number.s_add(other.number), joint(self.format, other.format))
    }

    open spec fn s_sub(self, other: Self) -> Self {
        in_format(self.number.s_sub(other.number), joint(self.format, other.format))
    }

    open spec fn s_mul(self, other: Self) -> Self {
        in_format(self.number.s_mul(other.number), joint(self.format, other.format))
    }

    open spec fn s_div(self, other: Self) -> Self {
        in_format(self.number.s_div(other.number), joint(self.format, other.format))
    }

    open spec fn s_neg(self) -> Self {
        in_format(self.number.s_neg(), self.format)
    }

    open spec fn s_abs(self) -> Self {
        in_format(self.number.s_abs(), self.format)
    }

    open spec fn s_sqrt(self) -> Self {
        in_format(self.number.s_sqrt(), self.format)
    }

    open spec fn s_exp(self) -> Self {
        in_format(self.number.s_exp(), self.format)
    }

    open spec fn s_erf(self) -> Self {
        in_format(self.number.s_erf(), self.format)
    }

    open spec fn s_tan(self) -> Self {
        in_format(self.number.s_tan(), self.format)
    }

    open spec fn s_lt(self, other: Self) -> bool {
        self.number.s_lt(other.number)
    }

    open spec fn s_le(self, other: Self) -> bool {
        self.number.s_le(other.number)
    }

    open spec fn s_eq(self, other: Self) -> bool {
        self.number.s_eq(other.number)
    }

    open spec fn s_finite(self) -> bool {
        self.number.s_finite()
    }

    open spec fn s_int(value: int) -> Self {
        Rounded { format: Format::F64, number: Binary64::s_int(value) }
    }

    open spec fn s_pi() -> Self {
        Rounded { format: Format::F64, number: Binary64::s_pi() }
    }

    open spec fn s_cast(self, f: Format) -> Self {
        in_format(self.number, f)
    }

    open spec fn s_largest(f: Format) -> Self {
        Rounded { format: Format::F64, number: Binary64::s_largest(f) }
    }

    fn plus(self, other: Self) -> (r: Self) {
        put(self.number.plus(other.number), join(self.format, other.format))
    }

    fn minus(self, other: Self) -> (r: Self) {
        put(self.number.minus(other.number), join(self.format, other.format))
    }

    fn times(self, other: Self) -> (r: Self) {
        put(self.number.times(other.number), join(self.format, other.format))
    }

    fn over(self, other: Self) -> (r: Self) {
        put(self.number.over(other.number), join(self.format, other.format))
    }

    fn negated(self) -> (r: Self) {
        put(self.number.negated(), self.format)
    }

    fn magnitude(self) -> (r: Self) {
        put(self.number.magnitude(), self.format)
    }

    fn root(self) -> (r: Self) {
        put(self.number.root(), self.format)
    }

    fn exponential(self) -> (r: Self) {
        put(self.number.exponential(), self.format)
    }

    fn error_function(self) -> (r: Self) {
        put(self.number.error_function(), self.format)
    }

    fn tangent(self) -> (r: Self) {
        put(self.number.tangent(), self.format)
    }

    fn less(self, other: Self) -> (r: bool) {
        self.number.less(other.number)
    }

    fn at_most(self, other: Self) -> (r: bool) {
        self.number.at_most(other.number)
    }

    fn equals(self, other: Self) -> (r: bool) {
        self.number.equals(other.number)
    }

    fn finite(self) -> (r: bool) {
        self.number.finite()
    }

    fn whole(value: i32) -> (r: Self) {
        Rounded { format: Format::F64, number: Binary64::whole(value) }
    }

    fn pi() -> (r: Self) {
        Rounded { format: Format::F64, number: Binary64::pi() }
    }

    fn narrowed(self, f: Format) -> (r: Self) {
        put(self.number, f)
    }

    fn largest(f: Format) -> (r: Self) {
        Rounded { format: Format::F64, number: Binary64::largest(f) }
    }
}

} // verus!
