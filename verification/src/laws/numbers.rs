//! What the number types do, operation by operation.
use vstd::prelude::*;

use crate::backend::{Format, Model};
use crate::binary64::rounded::Rounded;
use crate::binary64::rounding::INFINITE_CODE;
use crate::binary64::{Binary64, UNIT};
use crate::dense::Dense;
use crate::scalar::Scalar;

verus! {

use crate::binary64::arithmetic::{integer, opposite, product, quotient, square_root, sum};
use crate::binary64::compare::{equal, precedes};
use crate::binary64::narrow::narrowing;
use crate::binary64::rounding::{nearest, p, p_add, p_pos, p_values};
use crate::binary64::series::{error, exponential, tangent};
use crate::binary64::shifting::lemma_kept;
use crate::binary64::{lemma_decoded, lemma_encoded};
use crate::laws::double::lemma_small_integers;
use crate::laws::symmetry::lemma_mirror;
use crate::scalar::{dot, total};

/// The operations of double precision are those whose results are known to be
/// nearest, and their comparisons those of the numbers.
pub proof fn law_double_operations(a: Binary64, b: Binary64, f: Format, n: int)
    ensures
        a.s_add(b) == sum(a, b),
        a.s_sub(b) == sum(a, opposite(b)),
        a.s_mul(b) == product(a, b),
        a.s_div(b) == quotient(a, b),
        a.s_sqrt() == square_root(a),
        a.s_neg() == opposite(a),
        a.s_exp() == exponential(a),
        a.s_erf() == error(a),
        a.s_tan() == tangent(a),
        a.s_lt(b) <==> precedes(a, b),
        a.s_le(b) <==> precedes(a, b) || equal(a, b),
        a.s_eq(b) <==> equal(a, b),
        a.s_finite() <==> a.code() < 0x7ff0_0000_0000_0000,
        a.s_cast(f) == narrowing(a, f),
        Binary64::s_int(n) == integer(n),
        Binary64::s_pi() == (Binary64 { bits: 0x4009_21fb_5444_2d18 }),
{
}

/// The opposite has the opposite value, the absolute value the magnitude.
pub proof fn law_double_signs(a: Binary64)
    ensures
        a.s_neg().value() == -a.value(),
        a.s_neg().negative() == !a.negative(),
        a.s_neg().code() == a.code(),
        a.s_abs().value() == if a.value() < 0 {
            -a.value()
        } else {
            a.value()
        },
        !a.s_abs().negative(),
        a.s_abs().code() == a.code(),
{
    lemma_mirror(a);
    lemma_decoded(a);
    lemma_decoded(a.s_abs());
}

/// Whole numbers of up to 53 digits stand for themselves.
pub proof fn law_double_integers(n: int)
    requires
        -0x20_0000_0000_0000 < n < 0x20_0000_0000_0000,
    ensures
        Binary64::s_int(n).is_finite(),
        Binary64::s_int(n).value() == n * p(UNIT as int),
{
    p_values();
    p_pos(UNIT as int);
    let m = if n < 0 {
        -n
    } else {
        n
    };
    let u = p(UNIT as int);
    if n == 0 {
        lemma_small_integers();
        crate::laws::finite::lemma_zero_value(integer(0));
        assert(0 * u == 0);
    } else {
        let code = nearest((m * u) as nat, 1);
        assert(m * u <= p(53) * u) by (nonlinear_arith)
            requires
                m <= p(53),
                u > 0,
        ;
        assert(m * u >= 0) by (nonlinear_arith)
            requires
                m >= 0,
                u > 0,
        ;
        p_add(53, UNIT as int);
        crate::binary64::bounds::lemma_nearest_at_most((m * u) as nat, 1, UNIT + 53);
        lemma_encoded(n < 0, code);
        assert((UNIT + 53 - 51) * 0x10_0000_0000_0000 < INFINITE_CODE);
        lemma_kept(n < 0, m as nat, UNIT as int);
        assert((-m) * u == -(m * u)) by (nonlinear_arith);
    }
}

/// Nothing compares with an undefined result, zeros of either sign are equal,
/// and infinite numbers lie beyond all finite ones.
pub proof fn law_double_comparisons(a: Binary64, b: Binary64)
    ensures
        a.is_undefined() || b.is_undefined() ==> !a.s_lt(b) && !a.s_le(b) && !a.s_eq(b),
        a.code() == 0 && b.code() == 0 ==> a.s_eq(b) && a.s_le(b) && !a.s_lt(b),
        a.is_infinite() && !a.negative() && b.is_finite() ==> b.s_lt(a) && !a.s_le(b),
        a.is_infinite() && a.negative() && b.is_finite() ==> a.s_lt(b) && !b.s_le(a),
        a.is_infinite() && b.is_infinite() ==> (a.s_eq(b) <==> a.negative() == b.negative()),
        !a.is_undefined() && !b.is_undefined() ==> a.s_lt(b) || a.s_eq(b) || b.s_lt(a),
        !a.is_undefined() && !b.is_undefined() ==> (a.s_le(b) <==> !b.s_lt(a)),
{
    lemma_decoded(a);
    lemma_decoded(b);
}

/// Operations on infinite and undefined numbers, and divisions by zero.
pub proof fn law_double_special_cases(a: Binary64, b: Binary64)
    ensures
        a.is_undefined() || b.is_undefined() ==> a.s_add(b).is_undefined() && a.s_mul(
            b,
        ).is_undefined() && a.s_div(b).is_undefined(),
        a.is_undefined() ==> a.s_sqrt().is_undefined(),
        a.is_infinite() && b.is_finite() ==> a.s_add(b) == a && b.s_add(a) == a,
        a.is_infinite() && b.is_infinite() ==> if a.negative() == b.negative() {
            a.s_add(b) == a
        } else {
            a.s_add(b).is_undefined()
        },
        a.is_infinite() && b.code() == 0 ==> a.s_mul(b).is_undefined() && b.s_mul(
            a,
        ).is_undefined(),
        a.is_infinite() && b.code() > 0 && !b.is_undefined() ==> a.s_mul(b).is_infinite()
            && a.s_mul(b).negative() == (a.negative() != b.negative()) && b.s_mul(a) == a.s_mul(b),
        a.is_infinite() && b.is_infinite() ==> a.s_div(b).is_undefined(),
        a.is_infinite() && b.is_finite() ==> a.s_div(b).is_infinite() && b.s_div(a).code() == 0,
        a.code() == 0 && b.code() == 0 ==> a.s_div(b).is_undefined(),
        a.is_finite() && a.code() > 0 && b.code() == 0 ==> a.s_div(b).is_infinite(),
        a.is_infinite() && b.is_finite() ==> a.s_div(b).negative() == (a.negative()
            != b.negative()) && b.s_div(a).negative() == (a.negative() != b.negative()),
        a.is_finite() && a.code() > 0 && b.code() == 0 ==> a.s_div(b).negative() == (a.negative()
            != b.negative()),
        a.is_finite() && b.is_finite() && a.value() + b.value() == 0 ==> a.s_add(b).code() == 0
            && a.s_add(b).negative() == (a.negative() && b.negative()),
        a.negative() && a.code() > 0 ==> a.s_sqrt().is_undefined(),
        a.code() == 0 ==> a.s_sqrt() == a,
        a.is_infinite() && !a.negative() ==> a.s_sqrt() == a,
{
    lemma_decoded(a);
    lemma_decoded(b);
    lemma_encoded(a.negative() != b.negative(), INFINITE_CODE as nat);
    lemma_encoded(a.negative() != b.negative(), 0);
    lemma_encoded(a.negative() && b.negative(), 0);
}

/// A number that carries its format computes in double precision and then rounds
/// to that format; where it meets a number of double precision, it keeps its
/// own, and so does the first of two others.
pub proof fn law_rounded_operations(a: Rounded, b: Rounded, f: Format)
    ensures
        ({
            let g = if a.format == Format::F64 {
                b.format
            } else {
                a.format
            };
            &&& a.s_add(b).format == g && a.s_add(b).number == narrowing(
                a.number.s_add(b.number),
                g,
            )
            &&& a.s_sub(b).format == g && a.s_sub(b).number == narrowing(
                a.number.s_sub(b.number),
                g,
            )
            &&& a.s_mul(b).format == g && a.s_mul(b).number == narrowing(
                a.number.s_mul(b.number),
                g,
            )
            &&& a.s_div(b).format == g && a.s_div(b).number == narrowing(
                a.number.s_div(b.number),
                g,
            )
        }),
        ({
            let g = a.format;
            &&& a.s_neg().format == g && a.s_neg().number == narrowing(a.number.s_neg(), g)
            &&& a.s_abs().format == g && a.s_abs().number == narrowing(a.number.s_abs(), g)
            &&& a.s_sqrt().format == g && a.s_sqrt().number == narrowing(a.number.s_sqrt(), g)
            &&& a.s_exp().format == g && a.s_exp().number == narrowing(a.number.s_exp(), g)
            &&& a.s_erf().format == g && a.s_erf().number == narrowing(a.number.s_erf(), g)
            &&& a.s_tan().format == g && a.s_tan().number == narrowing(a.number.s_tan(), g)
        }),
        a.s_cast(f).format == f && a.s_cast(f).number == narrowing(a.number, f),
        a.s_lt(b) <==> a.number.s_lt(b.number),
        a.s_le(b) <==> a.number.s_le(b.number),
        a.s_eq(b) <==> a.number.s_eq(b.number),
        a.s_finite() <==> a.number.s_finite(),
{
}

/// Constants of a number that carries its format are those of double precision.
pub proof fn law_rounded_constants(n: int, f: Format)
    ensures
        Rounded::s_int(n).format == Format::F64,
        Rounded::s_int(n).number == Binary64::s_int(n),
        Rounded::s_pi().format == Format::F64,
        Rounded::s_pi().number == Binary64::s_pi(),
        Rounded::s_largest(f).format == Format::F64,
        Rounded::s_largest(f).number == Binary64::s_largest(f),
{
}

/// Tensors of plain vectors compute with the numbers that they hold: inner
/// products and sums from the first entry on, and host numbers are narrowed to
/// the format.
pub proof fn law_dense_numbers<S: Scalar>(a: Seq<S>, b: Seq<S>, x: S, f: Format)
    ensures
        <Dense<S> as Model>::inner(a, b) == dot(a, b, a.len()),
        <Dense<S> as Model>::inner3(a, b) == dot(a, b, a.len()),
        <Dense<S> as Model>::inner4(a, b) == dot(a, b, a.len()),
        <Dense<S> as Model>::sum(a) == total(a, a.len()),
        <Dense<S> as Model>::cast(f, x) == x.s_cast(f),
        <Dense<S> as Model>::largest(f) == S::s_largest(f),
{
}

} // verus!
