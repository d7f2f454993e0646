//! What double precision keeps of exact arithmetic.
use vstd::prelude::*;

use crate::backend::{Format, Model};
use crate::binary64::narrow::{BRAIN_BITS, HALF_BITS, SINGLE_BITS};
use crate::binary64::rounding::{INFINITE_CODE, ORDER};
use crate::binary64::series::TRIGONOMETRIC_TERMS;
use crate::binary64::{Binary64, UNIT};
use crate::dense::Dense;
use crate::scalar::Scalar;

verus! {

use crate::binary64::arithmetic::{
    integer, lemma_exact, lemma_nearest_zero, lemma_rounds_to_itself, opposite, product, quotient, sum,
};
use crate::binary64::compare::equal;
use crate::binary64::narrow::{kept_place, lemma_length_scaled, limited, narrowing};
use crate::binary64::rounding::{
    finished, last_place, length, lemma_length, nearest, p, p_add, p_pos, p_values,
};
use crate::binary64::series::alternating_from;
use crate::binary64::shifting::lemma_nearest_ratio;
use crate::binary64::{lemma_decoded, lemma_encoded};
use crate::laws::arithmetic::{
    addition_commutes, equality_fits, is_neutral, is_one, is_strict, is_total, is_zero,
    multiplication_commutes, one_fits, same, zero_fits,
};
use crate::laws::cauchy::tangent_fits;
use crate::laws::rectified::masks_fit;
use crate::laws::tensors::{
    casts_nothing, keeps_units, law_folding_backend_is_neutral, tensor_neutral,
};

/// A common factor of numerator and denominator does not change the rounding.
proof fn lemma_nearest_factor(n: nat, k: nat)
    requires
        k > 0,
    ensures
        nearest(n * k, k) == nearest(n, 1),
{
    lemma_nearest_ratio(n, 1, k);
    assert(1 * k == k);
}

/// Zero and one.
pub proof fn lemma_small_integers()
    ensures
        integer(0).code() == 0,
        !integer(0).negative(),
        integer(1).code() == 1023 * ORDER,
        !integer(1).negative(),
        integer(1).units() == p(UNIT as int),
        integer(-1).code() == 1023 * ORDER,
        integer(-1).negative(),
        integer(2).is_finite(),
{
    p_values();
    p_pos(UNIT as int);
    lemma_nearest_zero(1);
    lemma_encoded(false, 0);
    assert(0 * p(UNIT as int) == 0);
    // One is a single digit.
    reveal_with_fuel(length, 3);
    lemma_exact(1, UNIT as int, p(UNIT as int) as nat);
    assert(last_place(1, UNIT as int) == 1022);
    assert(finished(1, UNIT as int, false) == 1022 * ORDER + 1 * p(52));
    lemma_encoded(false, nearest(p(UNIT as int) as nat, 1));
    lemma_encoded(true, nearest(p(UNIT as int) as nat, 1));
    assert(1 * p(UNIT as int) == p(UNIT as int));
    lemma_decoded(integer(1));
    p_add(52, 1022);
    assert(integer(1).scale() == 1022);
    assert(integer(1).digits() == ORDER);
    // Two has as many digits, one place higher.
    lemma_exact(2, UNIT as int, (2 * p(UNIT as int)) as nat);
    assert(last_place(2, UNIT as int) == 1023);
    assert(finished(2, UNIT as int, false) == 1023 * ORDER + 2 * p(51));
    p_add(1, 51);
    lemma_encoded(false, nearest((2 * p(UNIT as int)) as nat, 1));
}

/// Sums and products do not depend on the order of their operands.
pub proof fn law_double_commutes()
    ensures
        addition_commutes::<Binary64>(),
        multiplication_commutes::<Binary64>(),
{
    reveal(addition_commutes);
    reveal(multiplication_commutes);
    assert forall|a: Binary64, b: Binary64| #[trigger] a.s_add(b) == b.s_add(a) by {
        lemma_decoded(a);
        lemma_decoded(b);
    }
    assert forall|a: Binary64, b: Binary64| #[trigger] a.s_mul(b) == b.s_mul(a) by {
        assert(a.units() * b.units() == b.units() * a.units()) by (nonlinear_arith);
    }
}

/// Comparisons order the numbers: nothing is less than itself, what is less is
/// at most, and finite numbers of which neither is less are the same or zeros.
pub proof fn law_double_is_ordered()
    ensures
        is_strict::<Binary64>(),
        is_total::<Binary64>(),
{
    reveal(is_strict);
    reveal(is_total);
    lemma_small_integers();
    assert forall|a: Binary64, b: Binary64|
        a.s_finite() && b.s_finite() && !#[trigger] a.s_lt(b) && !b.s_lt(a) implies a == b || (
    is_zero(a) && is_zero(b)) by {
        lemma_decoded(a);
        lemma_decoded(b);
    }
}

/// Adding a zero.
pub proof fn lemma_plus_zero(x: Binary64, z: Binary64)
    requires
        z.code() == 0,
    ensures
        same(sum(x, z), x),
{
    lemma_decoded(x);
    lemma_decoded(z);
    p_values();
    assert(z.units() == 0) by (nonlinear_arith)
        requires
            z.units() == z.digits() * p(z.scale()),
            z.digits() == 0,
    ;
    if x.is_finite() {
        lemma_rounds_to_itself(x);
        if x.value() == 0 {
            lemma_encoded(x.negative() && z.negative(), 0);
            if x.code() > 0 {
                crate::binary64::compare::lemma_units_grow(z, x);
            }
        } else {
            assert(sum(x, z) == x);
        }
    }
}

/// Multiplying by a zero.
pub proof fn lemma_times_zero(x: Binary64, z: Binary64)
    requires
        z.code() == 0,
        x.is_finite(),
    ensures
        product(x, z).code() == 0,
{
    lemma_decoded(x);
    lemma_decoded(z);
    p_pos(UNIT as int);
    assert(x.units() * z.units() == 0) by (nonlinear_arith)
        requires
            z.units() == z.digits() * p(z.scale()),
            z.digits() == 0,
    ;
    lemma_nearest_zero(p(UNIT as int) as nat);
    lemma_encoded(x.negative() != z.negative(), 0);
}

/// A zero over a positive number.
pub proof fn lemma_zero_over(z: Binary64, x: Binary64)
    requires
        z.code() == 0,
        !x.is_undefined(),
        x.code() > 0,
    ensures
        quotient(z, x).code() == 0,
{
    lemma_decoded(x);
    lemma_decoded(z);
    lemma_encoded(z.negative() != x.negative(), 0);
    if x.is_finite() {
        crate::binary64::compare::lemma_units_grow(z, x);
        assert(z.units() * p(UNIT as int) as nat == 0) by (nonlinear_arith)
            requires
                z.units() == z.digits() * p(z.scale()),
                z.digits() == 0,
        ;
        lemma_nearest_zero(x.units());
    }
}

/// Multiplying by one.
proof fn lemma_times_one(x: Binary64)
    ensures
        same(product(x, integer(1)), x),
{
    lemma_small_integers();
    lemma_decoded(x);
    p_pos(UNIT as int);
    if x.is_finite() {
        lemma_nearest_factor(x.units(), p(UNIT as int) as nat);
        lemma_rounds_to_itself(x);
    } else if x.is_infinite() {
        lemma_encoded(x.negative(), INFINITE_CODE as nat);
    }
}

/// Zero and one are neutral in double precision.
pub proof fn law_double_is_neutral()
    ensures
        is_neutral::<Binary64>(),
{
    reveal(equality_fits);
    reveal(zero_fits);
    reveal(one_fits);
    lemma_small_integers();
    law_double_commutes();
    reveal(addition_commutes);
    reveal(multiplication_commutes);
    assert forall|x: Binary64, z: Binary64| is_zero(z) implies same(#[trigger] x.s_add(z), x) by {
        lemma_plus_zero(x, z);
    }
    assert forall|x: Binary64, z: Binary64| is_zero(z) implies same(#[trigger] z.s_add(x), x) by {
        lemma_plus_zero(x, z);
        assert(z.s_add(x) == x.s_add(z));
    }
    assert forall|x: Binary64, z: Binary64| is_zero(z) && x.s_finite() implies is_zero(
        #[trigger] x.s_mul(z),
    ) by {
        lemma_times_zero(x, z);
    }
    assert forall|x: Binary64, z: Binary64| is_zero(z) && x.s_finite() implies is_zero(
        #[trigger] z.s_mul(x),
    ) by {
        lemma_times_zero(x, z);
        assert(z.s_mul(x) == x.s_mul(z));
    }
    assert forall|x: Binary64, z: Binary64|
        is_zero(z) && Binary64::s_int(0).s_lt(x) implies is_zero(#[trigger] z.s_div(x)) by {
        lemma_zero_over(z, x);
    }
    assert forall|x: Binary64, o: Binary64| is_one(o) implies same(#[trigger] x.s_mul(o), x) by {
        lemma_decoded(o);
        lemma_decoded(integer(1));
        assert(o == integer(1));
        lemma_times_one(x);
    }
    assert forall|z: Binary64| is_zero(z) implies is_one(#[trigger] Binary64::s_int(1).s_sub(z)) by {
        lemma_decoded(z);
        lemma_decoded(opposite(z));
        lemma_plus_zero(integer(1), opposite(z));
    }
}

/// The mask that hides the diagonal of a covariance holds zeros and ones in
/// double precision.
pub proof fn law_dense_double_masks(f: Format)
    ensures
        masks_fit::<Dense<Binary64>>(f),
{
    reveal(masks_fit);
    lemma_small_integers();
    let one = integer(1);
    let less = integer(-1);
    lemma_units_kept(integer(0), f);
    lemma_units_kept(one, f);
    lemma_units_kept(less, f);
    lemma_decoded(one);
    lemma_decoded(less);
    p_pos(UNIT as int);
    // One times minus one is minus one, and one more is zero.
    lemma_nearest_factor(p(UNIT as int) as nat, p(UNIT as int) as nat);
    lemma_rounds_to_itself(one);
    lemma_rounds_to_itself(less);
    assert(less.units() == one.units());
    assert(product(one, less) == less);
    assert(less.value() + one.value() == 0);
    lemma_encoded(false, 0);
    // Zero times minus one is zero, and one more is one.
    law_double_commutes();
    reveal(addition_commutes);
    reveal(multiplication_commutes);
    let nothing = product(integer(0), less);
    assert(nothing == less.s_mul(integer(0)));
    lemma_times_zero(less, integer(0));
    lemma_plus_zero(one, nothing);
    assert(nothing.s_add(one) == one.s_add(nothing));
}

/// A positive whole number is more than zero.
proof fn lemma_positive_integer(n: int)
    requires
        n > 0,
    ensures
        !integer(n).is_undefined(),
        !integer(n).negative(),
        integer(n).code() > 0,
{
    let q = n as nat;
    let t = UNIT as int;
    p_pos(t);
    assert(n * p(t) >= 0) by (nonlinear_arith)
        requires
            n > 0,
            p(t) > 0,
    ;
    lemma_exact(q, t, (n * p(t)) as nat);
    lemma_length(q);
    let l = length(q) as int;
    let s = last_place(l, t);
    assert(s >= 1022);
    if s >= t {
        p_pos(s - t);
        vstd::arithmetic::div_mod::lemma_div_pos_is_pos(n, p(s - t));
    } else {
        p_pos(t - s);
        assert(q * p(t - s) >= 0) by (nonlinear_arith)
            requires
                p(t - s) > 0,
        ;
    }
    lemma_encoded(false, nearest((n * p(t)) as nat, 1));
}

/// A series whose terms are zero from some place on.
proof fn lemma_vanishing_series(
    step: Binary64,
    first: int,
    term: Binary64,
    total: Binary64,
    k: int,
)
    requires
        step.code() == 0,
        0 <= first <= 1,
        k >= 1,
        term.is_finite(),
        total.is_finite(),
    ensures
        equal(alternating_from(step, first, term, total, k), total),
    decreases TRIGONOMETRIC_TERMS - k,
{
    if k < TRIGONOMETRIC_TERMS {
        let n = (2 * k + first - 1) * (2 * k + first);
        assert(n > 0) by (nonlinear_arith)
            requires
                n == (2 * k + first - 1) * (2 * k + first),
                k >= 1,
                0 <= first,
        ;
        lemma_positive_integer(n);
        lemma_zero_over(step, integer(n));
        let next = product(term, quotient(step, integer(n)));
        lemma_times_zero(term, quotient(step, integer(n)));
        lemma_plus_zero(total, next);
        lemma_decoded(sum(total, next));
        lemma_decoded(total);
        lemma_vanishing_series(step, first, next, sum(total, next), k + 1);
    }
}

/// The tangent of zero is zero in double precision.
pub proof fn law_double_tangent()
    ensures
        tangent_fits::<Binary64>(),
{
    reveal(tangent_fits);
    lemma_small_integers();
    lemma_positive_integer(2);
    assert forall|z: Binary64| is_zero(z) implies is_zero(#[trigger] z.s_tan()) by {
        let step = opposite(product(z, z));
        lemma_times_zero(z, z);
        lemma_decoded(product(z, z));
        lemma_decoded(step);
        lemma_vanishing_series(step, 1, z, z, 1);
        lemma_vanishing_series(step, 0, integer(1), integer(1), 1);
        lemma_zero_over(
            alternating_from(step, 1, z, z, 1),
            alternating_from(step, 0, integer(1), integer(1), 1),
        );
    }
}

/// Whatever its length, one rounds to itself, and so does minus one.
proof fn lemma_one_kept(x: Binary64, digits: int, low: int, largest: u64)
    requires
        x.code() == 1023 * ORDER,
        1 <= digits,
        0 <= low <= UNIT - 8,
        largest >= 1023 * ORDER,
        digits <= 24,
    ensures
        limited(x, digits, low, largest) == x,
{
    lemma_decoded(x);
    lemma_rounds_to_itself(x);
    p_values();
    p_add(52, 1022);
    assert(x.digits() == ORDER && x.scale() == 1022);
    let n = x.units();
    assert(n == p(UNIT as int));
    reveal_with_fuel(length, 3);
    lemma_length_scaled(1, UNIT as int);
    assert(1 * p(UNIT as int) == p(UNIT as int));
    assert(length(n) == 1075);
    let place = kept_place(n, digits, low);
    let u = p(place);
    p_pos(place);
    p_add(place, UNIT - place);
    let q = p(UNIT - place);
    assert(n == q * u) by (nonlinear_arith)
        requires
            n == u * q,
    ;
    vstd::arithmetic::div_mod::lemma_fundamental_div_mod_converse(n as int, u, q, 0);
}

/// Zero rounds to itself.
proof fn lemma_zero_kept(x: Binary64, digits: int, low: int, largest: u64)
    requires
        x.code() == 0,
        low >= 0,
    ensures
        limited(x, digits, low, largest) == x,
{
    lemma_decoded(x);
    p_values();
    assert(x.units() == 0) by (nonlinear_arith)
        requires
            x.units() == x.digits() * p(x.scale()),
            x.digits() == 0,
    ;
    let u = p(kept_place(0, digits, low));
    p_pos(kept_place(0, digits, low));
    vstd::arithmetic::div_mod::lemma_fundamental_div_mod_converse(0, u, 0, 0);
    assert(0 * u == 0);
    lemma_nearest_zero(1);
}

/// Zero, one and minus one are the same in every format.
pub proof fn lemma_units_kept(x: Binary64, f: Format)
    requires
        x.code() == 0 || x.code() == 1023 * ORDER,
    ensures
        narrowing(x, f) == x,
{
    if x.code() == 0 {
        lemma_zero_kept(x, 24, 925, SINGLE_BITS);
        lemma_zero_kept(x, 11, 1050, HALF_BITS);
        lemma_zero_kept(x, 8, 941, BRAIN_BITS);
    } else {
        lemma_one_kept(x, 24, 925, SINGLE_BITS);
        lemma_one_kept(x, 11, 1050, HALF_BITS);
        lemma_one_kept(x, 8, 941, BRAIN_BITS);
    }
}

/// Numbers in double precision enter tensors of double precision unchanged.
pub proof fn law_dense_double_casts_nothing()
    ensures
        casts_nothing::<Dense<Binary64>>(Format::F64),
{
    reveal(casts_nothing);
}

/// Zero and one are neutral in tensors of double precision, whatever their
/// format.
pub proof fn law_dense_double_is_neutral(f: Format)
    ensures
        tensor_neutral::<Dense<Binary64>>(f),
{
    law_double_is_neutral();
    crate::dense::law_dense_accumulates::<Binary64>();
    lemma_small_integers();
    assert(keeps_units::<Dense<Binary64>>(f)) by {
        reveal(keeps_units);
        assert forall|z: Binary64| is_zero(z) implies is_zero(
            #[trigger] Dense::<Binary64>::cast(f, z),
        ) by {
            lemma_units_kept(z, f);
        }
        assert forall|o: Binary64| is_one(o) implies is_one(
            #[trigger] Dense::<Binary64>::cast(f, o),
        ) by {
            lemma_units_kept(o, f);
        }
    }
    law_folding_backend_is_neutral::<Dense<Binary64>>(f);
}

} // verus!
