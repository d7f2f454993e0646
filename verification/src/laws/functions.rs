//! What the exponential, the error function and the tangent of double precision
//! compute, in real numbers.
use vstd::prelude::*;

use crate::binary64::series::HALVINGS;
use crate::binary64::{Binary64, UNIT};
use crate::scalar::Scalar;

verus! {

use crate::binary64::arithmetic::{integer, opposite, product, quotient, square_root, sum};
use crate::binary64::bounds::{
    lemma_beyond_less, lemma_integer_bounds, lemma_product_within, lemma_quotient_within,
    lemma_sum_within, lemma_within_more, within,
};
use crate::binary64::compare::precedes;
use crate::binary64::errors::{exact, least, size};
use crate::binary64::rounding::{nearest, p, p_pos, p_values};
use crate::binary64::series::{
    alternating_from, error, error_from, exponential, exponential_from, rising, tangent,
};
use crate::binary64::{lemma_decoded, lemma_encoded};
use crate::laws::accuracy::{growth, is_near, lemma_finite_terms, lemma_growth, lemma_near_more};
use crate::laws::active::lemma_near_over;
use crate::laws::double::lemma_small_integers;
use crate::laws::finite::{lemma_small_powers, lemma_some_units};
use crate::laws::symmetry::{is_mirrored, lemma_factors_finite, lemma_mirror, lemma_odd_error};
use crate::laws::unit::{lemma_grown_product, lemma_grown_self, lemma_grown_sum, lemma_near_bound};

/// Term `k` of a series that starts with `first` and whose term `k` is the one
/// before times `step / d(k)`.
pub open spec fn chain(step: real, first: real, d: spec_fn(int) -> int, k: int) -> real
    decreases k,
{
    if k <= 0 {
        first
    } else {
        chain(step, first, d, k - 1) * (step / d(k) as real)
    }
}

/// The magnitude of such a term, with what underflow may add.
pub open spec fn chain_mass(step: real, first: real, d: spec_fn(int) -> int, k: int) -> real
    decreases k,
{
    if k <= 0 {
        size(first)
    } else {
        chain_mass(step, first, d, k - 1) * (size(step) / d(k) as real + least()) + least()
    }
}

/// The sum of the first `n` terms.
pub open spec fn chain_sum(step: real, first: real, d: spec_fn(int) -> int, n: int) -> real
    decreases n,
{
    if n <= 1 {
        first
    } else {
        chain_sum(step, first, d, n - 1) + chain(step, first, d, n - 1)
    }
}

/// The sum of their magnitudes.
pub open spec fn chain_total(step: real, first: real, d: spec_fn(int) -> int, n: int) -> real
    decreases n,
{
    if n <= 1 {
        size(first)
    } else {
        chain_total(step, first, d, n - 1) + chain_mass(step, first, d, n - 1)
    }
}

/// Such a series, computed term by term up to `n` terms.
spec fn computed(
    step: Binary64,
    d: spec_fn(int) -> int,
    term: Binary64,
    total: Binary64,
    k: int,
    n: int,
) -> Binary64
    decreases n - k,
{
    if k >= n {
        total
    } else {
        let next = product(term, quotient(step, integer(d(k))));
        computed(step, d, next, sum(total, next), k + 1, n)
    }
}

/// A sum is finite only where all parts of it are.
proof fn lemma_computed_finite(
    step: Binary64,
    d: spec_fn(int) -> int,
    term: Binary64,
    total: Binary64,
    k: int,
    n: int,
)
    requires
        computed(step, d, term, total, k, n).is_finite(),
    ensures
        total.is_finite(),
    decreases n - k,
{
    if k < n {
        let next = product(term, quotient(step, integer(d(k))));
        lemma_computed_finite(step, d, next, sum(total, next), k + 1, n);
        lemma_finite_terms(total, next);
    }
}

/// Whole numbers up to four thousand stand for themselves.
proof fn lemma_whole(n: int)
    requires
        1 <= n <= 4000,
    ensures
        integer(n).is_finite(),
        integer(n).code() > 0,
        !integer(n).negative(),
        exact(integer(n)) == n as real,
{
    vstd::arithmetic::power2::lemma2_to64();
    p_values();
    assert(p(12) == 4096);
    lemma_integer_bounds(n, 0, 12);
    crate::binary64::shifting::lemma_kept(false, n as nat, UNIT as int);
    reveal(exact);
    p_pos(UNIT as int);
    let c = p(UNIT as int);
    assert(integer(n).units() == n * c);
    let (u, r) = (c as real, n as real);
    assert((n * c) as real == r * u) by (nonlinear_arith)
        requires
            u == c as real,
            r == n as real,
    ;
    assert((r * u) / u == r) by (nonlinear_arith)
        requires
            u > 0 as real,
    ;
}

/// A computed series is near the real one.
proof fn lemma_computed_near(
    step: Binary64,
    d: spec_fn(int) -> int,
    first: real,
    term: Binary64,
    total: Binary64,
    k: int,
    n: int,
)
    requires
        1 <= k <= n,
        step.is_finite(),
        forall|j: int| 1 <= j < n ==> 1 <= #[trigger] d(j) <= 4000,
        is_near(
            term,
            chain(exact(step), first, d, k - 1),
            chain_mass(exact(step), first, d, k - 1),
            growth((2 * (k - 1)) as nat),
        ),
        is_near(
            total,
            chain_sum(exact(step), first, d, k),
            chain_total(exact(step), first, d, k),
            growth((3 * (k - 1)) as nat),
        ),
        computed(step, d, term, total, k, n).is_finite(),
    ensures
        is_near(
            computed(step, d, term, total, k, n),
            chain_sum(exact(step), first, d, n),
            chain_total(exact(step), first, d, n),
            growth((3 * n) as nat),
        ),
    decreases n - k,
{
    let s = exact(step);
    if k < n {
        let m = integer(d(k));
        let q = quotient(step, m);
        let next = product(term, q);
        lemma_computed_finite(step, d, next, sum(total, next), k + 1, n);
        lemma_finite_terms(total, next);
        lemma_factors_finite(term, q);
        lemma_whole(d(k));
        lemma_grown_self(step);
        lemma_near_over(step, m, s, d(k) as real, size(s), 0);
        let (t, a) = (chain(s, first, d, k - 1), chain_mass(s, first, d, k - 1));
        let (x, y) = (s / d(k) as real, size(s) / d(k) as real + least());
        lemma_grown_product(term, q, t, x, a, y, (2 * (k - 1)) as nat, 1);
        assert(chain(s, first, d, k) == t * x);
        assert(chain_mass(s, first, d, k) == a * y + least());
        lemma_grown_sum(
            total,
            next,
            chain_sum(s, first, d, k),
            chain(s, first, d, k),
            chain_total(s, first, d, k),
            chain_mass(s, first, d, k),
            (3 * (k - 1)) as nat,
            (2 * k) as nat,
            (3 * k - 1) as nat,
        );
        assert(2 * (k - 1) + 1 + 1 == 2 * k);
        lemma_computed_near(step, d, first, next, sum(total, next), k + 1, n);
    } else {
        lemma_growth((3 * (k - 1)) as nat, 3);
        lemma_near_more(
            total,
            chain_sum(s, first, d, n),
            chain_total(s, first, d, n),
            growth((3 * (k - 1)) as nat),
            growth((3 * n) as nat),
        );
    }
}

/// A computed series from its first term on.
proof fn lemma_computed(step: Binary64, d: spec_fn(int) -> int, first: Binary64, n: int)
    requires
        1 <= n,
        step.is_finite(),
        first.is_finite(),
        forall|j: int| 1 <= j < n ==> 1 <= #[trigger] d(j) <= 4000,
        computed(step, d, first, first, 1, n).is_finite(),
    ensures
        size(
            exact(computed(step, d, first, first, 1, n)) - chain_sum(
                exact(step),
                exact(first),
                d,
                n,
            ),
        ) <= (growth((3 * n) as nat) - 1 as real) * chain_total(exact(step), exact(first), d, n),
{
    lemma_grown_self(first);
    lemma_computed_near(step, d, exact(first), first, first, 1, n);
    lemma_near_bound(
        computed(step, d, first, first, 1, n),
        chain_sum(exact(step), exact(first), d, n),
        chain_total(exact(step), exact(first), d, n),
        growth((3 * n) as nat),
    );
}

/// The exponential series is a computed one.
proof fn lemma_exponential_computed(
    y: Binary64,
    d: spec_fn(int) -> int,
    term: Binary64,
    total: Binary64,
    k: int,
)
    requires
        forall|j: int| #[trigger] d(j) == j,
    ensures
        exponential_from(y, term, total, k) == computed(y, d, term, total, k, 24),
    decreases 24 - k,
{
    if k < 24 {
        let next = product(term, quotient(y, integer(k)));
        assert(d(k) == k);
        lemma_exponential_computed(y, d, next, sum(total, next), k + 1);
    }
}

/// The error series is a computed one.
proof fn lemma_error_computed(
    twice: Binary64,
    d: spec_fn(int) -> int,
    term: Binary64,
    total: Binary64,
    k: int,
)
    requires
        forall|j: int| #[trigger] d(j) == 2 * j + 1,
    ensures
        error_from(twice, term, total, k) == computed(twice, d, term, total, k, 200),
    decreases 200 - k,
{
    if k < 200 {
        let next = product(term, quotient(twice, integer(2 * k + 1)));
        assert(d(k) == 2 * k + 1);
        lemma_error_computed(twice, d, next, sum(total, next), k + 1);
    }
}

/// The alternating series are computed ones.
proof fn lemma_alternating_computed(
    step: Binary64,
    first: int,
    d: spec_fn(int) -> int,
    term: Binary64,
    total: Binary64,
    k: int,
)
    requires
        forall|j: int| #[trigger] d(j) == (2 * j + first - 1) * (2 * j + first),
    ensures
        alternating_from(step, first, term, total, k) == computed(step, d, term, total, k, 24),
    decreases 24 - k,
{
    if k < 24 {
        let next = product(
            term,
            quotient(step, integer((2 * k + first - 1) * (2 * k + first))),
        );
        assert(d(k) == (2 * k + first - 1) * (2 * k + first));
        lemma_alternating_computed(step, first, d, next, sum(total, next), k + 1);
    }
}

/// The exponential of a number from zero to one is
/// `1 + y + y^2/2 + ... + y^23/23!`, up to a bound that counts the roundings.
pub proof fn law_double_exponential_series(y: Binary64)
    requires
        within(y, 0),
        y.value() >= 0,
    ensures
        exponential(y).is_finite(),
        size(
            exact(exponential(y)) - chain_sum(exact(y), 1 as real, |k: int| k, 24),
        ) <= (growth(72) - 1 as real) * chain_total(exact(y), 1 as real, |k: int| k, 24),
{
    let d = |k: int| k;
    lemma_small_integers();
    lemma_decoded(y);
    if y.negative() && y.code() > 0 {
        lemma_some_units(y);
    }
    crate::laws::symmetry::lemma_half();
    crate::laws::finite::lemma_rising(y, HALVINGS as nat, 0);
    lemma_exponential_computed(y, d, integer(1), integer(1), 1);
    lemma_computed(y, d, integer(1), 24);
}

/// The exponential of a negative number is one over that of its opposite.
pub proof fn law_double_exponential_reciprocal(x: Binary64)
    requires
        precedes(x, integer(0)),
        x.is_finite(),
    ensures
        exponential(x) == quotient(integer(1), exponential(opposite(x))),
{
    lemma_small_integers();
    lemma_mirror(x);
    lemma_decoded(x);
}

/// Halvings that are not needed change nothing.
proof fn lemma_spare_halvings(y: Binary64, n: nat)
    requires
        within(y, n as int),
        n <= 11,
        y.value() >= 0,
    ensures
        rising(y, n) == rising(y, n + 1),
    decreases n,
{
    lemma_small_integers();
    lemma_small_powers();
    lemma_integer_bounds(1, 0, 0);
    lemma_integer_bounds(2, 1, 1);
    lemma_decoded(y);
    if y.negative() && y.code() > 0 {
        lemma_some_units(y);
    }
    if precedes(integer(1), y) {
        assert(n > 0);
        let part = quotient(y, integer(2));
        lemma_quotient_within(y, integer(2), n as int, 1);
        lemma_beyond_less(integer(2), 1, 0);
        crate::laws::finite::lemma_quotient_sign(y, integer(2));
        lemma_spare_halvings(part, (n - 1) as nat);
    }
}

/// The exponential of a number above one, up to `2^11`, is the square of that of
/// its half.
pub proof fn law_double_exponential_squares(x: Binary64)
    requires
        precedes(integer(1), x),
        within(x, 11),
    ensures
        exponential(x) == product(
            exponential(quotient(x, integer(2))),
            exponential(quotient(x, integer(2))),
        ),
{
    lemma_small_integers();
    lemma_small_powers();
    lemma_integer_bounds(2, 1, 1);
    lemma_decoded(x);
    let part = quotient(x, integer(2));
    lemma_quotient_within(x, integer(2), 11, 1);
    lemma_encoded(
        x.negative(),
        nearest(x.units() * p(UNIT as int) as nat, integer(2).units()),
    );
    lemma_decoded(part);
    lemma_beyond_less(integer(2), 1, 0);
    crate::laws::finite::lemma_quotient_sign(x, integer(2));
    lemma_spare_halvings(part, 10);
}

/// The error function is odd, is one beyond six, and from zero to six is
/// `2 / sqrt(pi)` times `exp(-x^2)` times the series
/// `x + 2 x^3/3 + 4 x^5/15 + ...`, of which two hundred terms are summed up to a
/// bound that counts the roundings.
pub proof fn law_double_error_function(x: Binary64)
    requires
        x.is_finite(),
    ensures
        is_mirrored(error(x), error(opposite(x))),
        precedes(integer(6), x) ==> error(x) == integer(1),
        !precedes(x, integer(0)) && !precedes(integer(6), x) ==> ({
            let square = product(x, x);
            let twice = product(integer(2), square);
            let total = error_from(twice, x, x, 1);
            let d = |k: int| 2 * k + 1;
            &&& error(x) == product(
                product(
                    quotient(integer(2), square_root(Binary64 { bits: 0x4009_21fb_5444_2d18 })),
                    exponential(opposite(square)),
                ),
                total,
            )
            &&& total.is_finite()
            &&& size(exact(total) - chain_sum(exact(twice), exact(x), d, 200)) <= (growth(600)
                - 1 as real) * chain_total(exact(twice), exact(x), d, 200)
        }),
{
    lemma_odd_error(x);
    lemma_small_integers();
    lemma_small_powers();
    lemma_integer_bounds(2, 1, 1);
    lemma_integer_bounds(6, 2, 3);
    lemma_decoded(x);
    if !precedes(x, integer(0)) && !precedes(integer(6), x) {
        if x.negative() && x.code() > 0 {
            lemma_some_units(x);
        }
        assert(within(x, 3));
        let square = product(x, x);
        let twice = product(integer(2), square);
        lemma_product_within(x, x, 3, 3);
        lemma_product_within(integer(2), square, 1, 6);
        lemma_within_more(x, 3, 4);
        crate::laws::finite::lemma_error_series(twice, x, x, 1);
        let d = |k: int| 2 * k + 1;
        lemma_error_computed(twice, d, x, x, 1);
        lemma_computed(twice, d, x, 200);
    }
}

/// The alternating series stay finite.
proof fn lemma_alternating_finite(
    step: Binary64,
    first: int,
    term: Binary64,
    total: Binary64,
    k: int,
)
    requires
        within(step, 2),
        0 <= first <= 1,
        1 <= k <= 24,
        within(term, if k == 1 { 1 } else { 2 }),
        within(total, 2 + k),
    ensures
        within(alternating_from(step, first, term, total, k), 26),
    decreases 24 - k,
{
    lemma_within_more(total, 2 + k, 26);
    if k < 24 {
        vstd::arithmetic::power2::lemma2_to64();
        assert(p(12) == 4096);
        let n = (2 * k + first - 1) * (2 * k + first);
        let q = quotient(step, integer(n));
        lemma_denominator(k, first);
        let next = product(term, q);
        if k == 1 {
            lemma_integer_bounds(n, 1, 12);
            lemma_quotient_within(step, integer(n), 2, 1);
            lemma_product_within(term, q, 1, 1);
        } else {
            lemma_integer_bounds(n, 2, 12);
            lemma_quotient_within(step, integer(n), 2, 2);
            lemma_product_within(term, q, 2, 0);
        }
        lemma_within_more(next, 2, 2 + k);
        lemma_sum_within(total, next, 2 + k);
        lemma_alternating_finite(step, first, next, sum(total, next), k + 1);
    }
}

/// The denominators of the alternating series.
proof fn lemma_denominator(k: int, first: int)
    requires
        1 <= k < 24,
        0 <= first <= 1,
    ensures
        2 <= (2 * k + first - 1) * (2 * k + first) <= 4000,
        k >= 2 ==> 4 <= (2 * k + first - 1) * (2 * k + first),
{
    let a = 2 * k + first - 1;
    let b = 2 * k + first;
    assert(2 <= a * b <= 4000) by (nonlinear_arith)
        requires
            1 <= a <= 60,
            2 <= b <= 60,
    ;
    if k >= 2 {
        assert(4 <= a * b) by (nonlinear_arith)
            requires
                a >= 2,
                b >= 2,
        ;
    }
}

/// The tangent of a number of at most two is the quotient of
/// `x - x^3/6 + x^5/120 - ...` and `1 - x^2/2 + x^4/24 - ...`, of which
/// twenty-four terms each are summed up to a bound that counts the roundings.
pub proof fn law_double_tangent_series(x: Binary64)
    requires
        within(x, 1),
    ensures
        ({
            let step = opposite(product(x, x));
            let sine = alternating_from(step, 1, x, x, 1);
            let cosine = alternating_from(step, 0, integer(1), integer(1), 1);
            let (d, e) = (|k: int| (2 * k) * (2 * k + 1), |k: int| (2 * k - 1) * (2 * k));
            &&& tangent(x) == quotient(sine, cosine)
            &&& sine.is_finite()
            &&& cosine.is_finite()
            &&& size(exact(sine) - chain_sum(exact(step), exact(x), d, 24)) <= (growth(72)
                - 1 as real) * chain_total(exact(step), exact(x), d, 24)
            &&& size(exact(cosine) - chain_sum(exact(step), 1 as real, e, 24)) <= (growth(72)
                - 1 as real) * chain_total(exact(step), 1 as real, e, 24)
        }),
{
    lemma_small_integers();
    lemma_small_powers();
    lemma_integer_bounds(1, 0, 0);
    crate::laws::symmetry::lemma_half();
    lemma_product_within(x, x, 1, 1);
    lemma_mirror(product(x, x));
    let step = opposite(product(x, x));
    let (d, e) = (|k: int| (2 * k) * (2 * k + 1), |k: int| (2 * k - 1) * (2 * k));
    let one = integer(1);
    lemma_within_more(x, 1, 3);
    lemma_within_more(one, 0, 1);
    lemma_within_more(one, 0, 3);
    lemma_alternating_finite(step, 1, x, x, 1);
    lemma_alternating_finite(step, 0, one, one, 1);
    lemma_alternating_computed(step, 1, d, x, x, 1);
    lemma_alternating_computed(step, 0, e, one, one, 1);
    assert forall|j: int| 1 <= j < 24 implies 1 <= #[trigger] d(j) <= 4000 by {
        lemma_denominator(j, 1);
    }
    assert forall|j: int| 1 <= j < 24 implies 1 <= #[trigger] e(j) <= 4000 by {
        lemma_denominator(j, 0);
    }
    lemma_computed(step, d, x, 24);
    lemma_computed(step, e, one, 24);
}

} // verus!
