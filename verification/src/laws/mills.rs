//! Polynomial bounds behind the sign of rectified means.
use vstd::prelude::*;

verus! {

/// An upper bound of the exponential between zero and one.
#[verifier::opaque]
pub open spec fn exp_above(y: real) -> real {
    let y2 = y * y;
    let y3 = y2 * y;
    let y4 = y3 * y;
    let y5 = y4 * y;
    1 as real + y + y2 / 2 as real + y3 / 6 as real + y4 / 24 as real + y5 / 100 as real
}

/// A lower bound of `1 + x S(x)` for the normal series `S`, by `w = x^2`.
#[verifier::opaque]
pub open spec fn series_below(w: real) -> real {
    let w2 = w * w;
    let w3 = w2 * w;
    let w4 = w3 * w;
    let w5 = w4 * w;
    let w6 = w5 * w;
    let w7 = w6 * w;
    let w8 = w7 * w;
    1 as real + w + w2 / 3 as real + w3 / 15 as real + w4 / 105 as real + w5 / 945 as real + w6
        / 10395 as real + w7 / 135135 as real + w8 / 2027025 as real
}

/// The powers of a number between zero and one.
pub struct Powers {
    pub v: real,
    pub v2: real,
    pub v3: real,
    pub v4: real,
    pub v5: real,
    pub v6: real,
    pub v7: real,
    pub v8: real,
}

/// The powers of `v`.
pub open spec fn powers(v: real) -> Powers {
    let v2 = v * v;
    let v3 = v2 * v;
    let v4 = v3 * v;
    let v5 = v4 * v;
    let v6 = v5 * v;
    let v7 = v6 * v;
    let v8 = v7 * v;
    Powers { v, v2, v3, v4, v5, v6, v7, v8 }
}

/// Powers of a number between zero and one fall.
proof fn lemma_power_falls(v: real, a: real)
    requires
        0 as real <= v <= 1 as real,
        a >= 0 as real,
    ensures
        0 as real <= a * v <= a,
{
    assert(0 as real <= a * v <= a) by (nonlinear_arith)
        requires
            0 as real <= v <= 1 as real,
            a >= 0 as real,
    ;
}

/// All of them.
proof fn lemma_powers_fall(v: real)
    requires
        0 as real <= v <= 1 as real,
    ensures
        ({
            let q = powers(v);
            0 as real <= q.v8 && q.v8 <= q.v7 && q.v7 <= q.v6 && q.v6 <= q.v5 && q.v5 <= q.v4 && q.v4
                <= q.v3 && q.v3 <= q.v2 && q.v2 <= v
        }),
{
    let q = powers(v);
    lemma_power_falls(v, v);
    lemma_power_falls(v, q.v2);
    lemma_power_falls(v, q.v3);
    lemma_power_falls(v, q.v4);
    lemma_power_falls(v, q.v5);
    lemma_power_falls(v, q.v6);
    lemma_power_falls(v, q.v7);
}

/// A multiple of a power, times the number.
proof fn lemma_multiple(c: real, a: real, v: real)
    ensures
        (c * a) * v == c * (a * v),
{
    assert((c * a) * v == c * (a * v)) by (nonlinear_arith);
}

/// A sum of two, times the number.
proof fn lemma_sum_times(a: real, b: real, v: real)
    ensures
        (a + b) * v == a * v + b * v,
{
    assert((a + b) * v == a * v + b * v) by (nonlinear_arith);
}

/// A polynomial by its coefficients.
#[verifier::opaque]
pub open spec fn poly(
    c0: real,
    c1: real,
    c2: real,
    c3: real,
    c4: real,
    c5: real,
    c6: real,
    c7: real,
    c8: real,
    v: real,
) -> real {
    let q = powers(v);
    c0 + c1 * q.v + c2 * q.v2 + c3 * q.v3 + c4 * q.v4 + c5 * q.v5 + c6 * q.v6 + c7 * q.v7 + c8 * q.v8
}

/// A polynomial times its argument has its coefficients moved up.
proof fn lemma_poly_times(
    c0: real,
    c1: real,
    c2: real,
    c3: real,
    c4: real,
    c5: real,
    c6: real,
    c7: real,
    v: real,
)
    ensures
        poly(c0, c1, c2, c3, c4, c5, c6, c7, 0 as real, v) * v == poly(
            0 as real,
            c0,
            c1,
            c2,
            c3,
            c4,
            c5,
            c6,
            c7,
            v,
        ),
{
    reveal(poly);
    let q = powers(v);
    let s1 = c0 + c1 * q.v;
    let s2 = s1 + c2 * q.v2;
    let s3 = s2 + c3 * q.v3;
    let s4 = s3 + c4 * q.v4;
    let s5 = s4 + c5 * q.v5;
    let s6 = s5 + c6 * q.v6;
    lemma_sum_times(c0, c1 * q.v, v);
    lemma_sum_times(s1, c2 * q.v2, v);
    lemma_sum_times(s2, c3 * q.v3, v);
    lemma_sum_times(s3, c4 * q.v4, v);
    lemma_sum_times(s4, c5 * q.v5, v);
    lemma_sum_times(s5, c6 * q.v6, v);
    lemma_sum_times(s6, c7 * q.v7, v);
    lemma_multiple(c1, v, v);
    lemma_multiple(c2, q.v2, v);
    lemma_multiple(c3, q.v3, v);
    lemma_multiple(c4, q.v4, v);
    lemma_multiple(c5, q.v5, v);
    lemma_multiple(c6, q.v6, v);
    lemma_multiple(c7, q.v7, v);
    assert(0 as real * q.v8 == 0 as real);
}

/// Twice a multiple of a power.
proof fn lemma_doubled(c: real, a: real, y: real)
    ensures
        (c * a) * (2 as real * y) == (2 as real * c) * (a * y),
{
    assert((c * a) * (2 as real * y) == (2 as real * c) * (a * y)) by (nonlinear_arith);
}

/// The powers of twice a number.
proof fn lemma_doubled_powers(y: real)
    ensures
        ({
            let (q, w) = (powers(y), powers(2 as real * y));
            &&& w.v2 == 4 as real * q.v2
            &&& w.v3 == 8 as real * q.v3
            &&& w.v4 == 16 as real * q.v4
            &&& w.v5 == 32 as real * q.v5
            &&& w.v6 == 64 as real * q.v6
            &&& w.v7 == 128 as real * q.v7
            &&& w.v8 == 256 as real * q.v8
        }),
{
    let q = powers(y);
    lemma_doubled(2 as real, y, y);
    lemma_doubled(4 as real, q.v2, y);
    lemma_doubled(8 as real, q.v3, y);
    lemma_doubled(16 as real, q.v4, y);
    lemma_doubled(32 as real, q.v5, y);
    lemma_doubled(64 as real, q.v6, y);
    lemma_doubled(128 as real, q.v7, y);
}

/// Up to a square of two: `sqrt(2 pi) x exp(y) < 2 (1 + x S)`, where `x` is at
/// most `(2 y + 1.4401) / 2.4`.
pub proof fn lemma_lower_range(y: real)
    requires
        0 as real <= y <= 1 as real,
    ensures
        25067 as real * ((20000 as real * y + 14401 as real) * exp_above(y)) <= 479040000 as real
            * series_below(2 as real * y),
{
    lemma_powers_fall(y);
    lemma_doubled_powers(y);
    let q = powers(y);
    let e = exp_above(y);
    assert(e == poly(
            1 as real,
            1 as real,
            1 as real / 2 as real,
            1 as real / 6 as real,
            1 as real / 24 as real,
            1 as real / 100 as real,
            0 as real,
            0 as real,
            0 as real,
            y,
        )) by {
        reveal(exp_above);
        reveal(poly);
    }
    lemma_poly_times(
        1 as real,
        1 as real,
        1 as real / 2 as real,
        1 as real / 6 as real,
        1 as real / 24 as real,
        1 as real / 100 as real,
        0 as real,
        0 as real,
        y,
    );
    assert(e * y == y + q.v2 + q.v3 / 2 as real + q.v4 / 6 as real + q.v5 / 24 as real + q.v6
        / 100 as real) by {
        reveal(poly);
    }
    assert(e == 1 as real + y + q.v2 / 2 as real + q.v3 / 6 as real + q.v4 / 24 as real + q.v5
        / 100 as real) by {
        reveal(exp_above);
    }
    lemma_linear_times(20000 as real, y, 14401 as real, e);
    let s = series_below(2 as real * y);
    assert(s == 1 as real + 2 as real * y + 4 as real * q.v2 / 3 as real + 8 as real * q.v3
        / 15 as real + 16 as real * q.v4 / 105 as real + 32 as real * q.v5 / 945 as real + 64 as real
        * q.v6 / 10395 as real + 128 as real * q.v7 / 135135 as real + 256 as real * q.v8
        / 2027025 as real) by {
        reveal(series_below);
    }
}

/// A linear factor.
proof fn lemma_linear_times(a: real, y: real, b: real, e: real)
    ensures
        (a * y + b) * e == a * (e * y) + b * e,
{
    assert((a * y + b) * e == a * (e * y) + b * e) by (nonlinear_arith);
}

/// Twice one more than a number.
proof fn lemma_times_two(a: real, v: real)
    ensures
        a * (2 as real + 2 as real * v) == 2 as real * a + 2 as real * (a * v),
{
    assert(a * (2 as real + 2 as real * v) == 2 as real * a + 2 as real * (a * v))
        by (nonlinear_arith);
}

/// The powers of `2 + 2 v`.
proof fn lemma_high_powers(v: real)
    ensures
        ({
            let w = powers(2 as real + 2 as real * v);
            &&& w.v2 == poly(
                4 as real,
                8 as real,
                4 as real,
                0 as real,
                0 as real,
                0 as real,
                0 as real,
                0 as real,
                0 as real,
                v,
            )
            &&& w.v3 == poly(
                8 as real,
                24 as real,
                24 as real,
                8 as real,
                0 as real,
                0 as real,
                0 as real,
                0 as real,
                0 as real,
                v,
            )
            &&& w.v4 == poly(
                16 as real,
                64 as real,
                96 as real,
                64 as real,
                16 as real,
                0 as real,
                0 as real,
                0 as real,
                0 as real,
                v,
            )
            &&& w.v5 == poly(
                32 as real,
                160 as real,
                320 as real,
                320 as real,
                160 as real,
                32 as real,
                0 as real,
                0 as real,
                0 as real,
                v,
            )
            &&& w.v6 == poly(
                64 as real,
                384 as real,
                960 as real,
                1280 as real,
                960 as real,
                384 as real,
                64 as real,
                0 as real,
                0 as real,
                v,
            )
            &&& w.v7 == poly(
                128 as real,
                896 as real,
                2688 as real,
                4480 as real,
                4480 as real,
                2688 as real,
                896 as real,
                128 as real,
                0 as real,
                v,
            )
            &&& w.v8 == poly(
                256 as real,
                2048 as real,
                7168 as real,
                14336 as real,
                17920 as real,
                14336 as real,
                7168 as real,
                2048 as real,
                256 as real,
                v,
            )
        }),
{
    let w = powers(2 as real + 2 as real * v);
    assert(w.v == poly(
            2 as real,
            2 as real,
            0 as real,
            0 as real,
            0 as real,
            0 as real,
            0 as real,
            0 as real,
            0 as real,
            v,
        )) by {
        reveal(poly);
    }
    lemma_poly_times(
        2 as real,
        2 as real,
        0 as real,
        0 as real,
        0 as real,
        0 as real,
        0 as real,
        0 as real,
        v,
    );
    lemma_times_two(w.v, v);
    assert(w.v2 == poly(
            4 as real,
            8 as real,
            4 as real,
            0 as real,
            0 as real,
            0 as real,
            0 as real,
            0 as real,
            0 as real,
            v,
        )) by {
        reveal(poly);
    }
    lemma_poly_times(
        4 as real,
        8 as real,
        4 as real,
        0 as real,
        0 as real,
        0 as real,
        0 as real,
        0 as real,
        v,
    );
    lemma_times_two(w.v2, v);
    assert(w.v3 == poly(
            8 as real,
            24 as real,
            24 as real,
            8 as real,
            0 as real,
            0 as real,
            0 as real,
            0 as real,
            0 as real,
            v,
        )) by {
        reveal(poly);
    }
    lemma_poly_times(
        8 as real,
        24 as real,
        24 as real,
        8 as real,
        0 as real,
        0 as real,
        0 as real,
        0 as real,
        v,
    );
    lemma_times_two(w.v3, v);
    assert(w.v4 == poly(
            16 as real,
            64 as real,
            96 as real,
            64 as real,
            16 as real,
            0 as real,
            0 as real,
            0 as real,
            0 as real,
            v,
        )) by {
        reveal(poly);
    }
    lemma_poly_times(
        16 as real,
        64 as real,
        96 as real,
        64 as real,
        16 as real,
        0 as real,
        0 as real,
        0 as real,
        v,
    );
    lemma_times_two(w.v4, v);
    assert(w.v5 == poly(
            32 as real,
            160 as real,
            320 as real,
            320 as real,
            160 as real,
            32 as real,
            0 as real,
            0 as real,
            0 as real,
            v,
        )) by {
        reveal(poly);
    }
    lemma_poly_times(
        32 as real,
        160 as real,
        320 as real,
        320 as real,
        160 as real,
        32 as real,
        0 as real,
        0 as real,
        v,
    );
    lemma_times_two(w.v5, v);
    assert(w.v6 == poly(
            64 as real,
            384 as real,
            960 as real,
            1280 as real,
            960 as real,
            384 as real,
            64 as real,
            0 as real,
            0 as real,
            v,
        )) by {
        reveal(poly);
    }
    lemma_poly_times(
        64 as real,
        384 as real,
        960 as real,
        1280 as real,
        960 as real,
        384 as real,
        64 as real,
        0 as real,
        v,
    );
    lemma_times_two(w.v6, v);
    assert(w.v7 == poly(
            128 as real,
            896 as real,
            2688 as real,
            4480 as real,
            4480 as real,
            2688 as real,
            896 as real,
            128 as real,
            0 as real,
            v,
        )) by {
        reveal(poly);
    }
    lemma_poly_times(
        128 as real,
        896 as real,
        2688 as real,
        4480 as real,
        4480 as real,
        2688 as real,
        896 as real,
        128 as real,
        v,
    );
    lemma_times_two(w.v7, v);
    assert(w.v8 == poly(
            256 as real,
            2048 as real,
            7168 as real,
            14336 as real,
            17920 as real,
            14336 as real,
            7168 as real,
            2048 as real,
            256 as real,
            v,
        )) by {
        reveal(poly);
    }
}

/// Half of one more than a number.
proof fn lemma_times_half(a: real, v: real)
    ensures
        a * ((1 as real + v) / 2 as real) == (a + a * v) / 2 as real,
{
    assert(a * ((1 as real + v) / 2 as real) == (a + a * v) / 2 as real) by (nonlinear_arith);
}

/// The bound of the exponential between one half and one.
proof fn lemma_half_powers(v: real)
    ensures
        ({
            let z = powers((1 as real + v) / 2 as real);
            &&& z.v2 == poly(
                1 as real / 4 as real,
                1 as real / 2 as real,
                1 as real / 4 as real,
                0 as real,
                0 as real,
                0 as real,
                0 as real,
                0 as real,
                0 as real,
                v,
            )
            &&& z.v3 == poly(
                1 as real / 8 as real,
                3 as real / 8 as real,
                3 as real / 8 as real,
                1 as real / 8 as real,
                0 as real,
                0 as real,
                0 as real,
                0 as real,
                0 as real,
                v,
            )
            &&& z.v4 == poly(
                1 as real / 16 as real,
                1 as real / 4 as real,
                3 as real / 8 as real,
                1 as real / 4 as real,
                1 as real / 16 as real,
                0 as real,
                0 as real,
                0 as real,
                0 as real,
                v,
            )
            &&& z.v5 == poly(
                1 as real / 32 as real,
                5 as real / 32 as real,
                5 as real / 16 as real,
                5 as real / 16 as real,
                5 as real / 32 as real,
                1 as real / 32 as real,
                0 as real,
                0 as real,
                0 as real,
                v,
            )
        }),
{
    let z = powers((1 as real + v) / 2 as real);
    assert(z.v == poly(
            1 as real / 2 as real,
            1 as real / 2 as real,
            0 as real,
            0 as real,
            0 as real,
            0 as real,
            0 as real,
            0 as real,
            0 as real,
            v,
        )) by {
        reveal(poly);
    }
    lemma_poly_times(
        1 as real / 2 as real,
        1 as real / 2 as real,
        0 as real,
        0 as real,
        0 as real,
        0 as real,
        0 as real,
        0 as real,
        v,
    );
    lemma_times_half(z.v, v);
    assert(z.v2 == poly(
            1 as real / 4 as real,
            1 as real / 2 as real,
            1 as real / 4 as real,
            0 as real,
            0 as real,
            0 as real,
            0 as real,
            0 as real,
            0 as real,
            v,
        )) by {
        reveal(poly);
    }
    lemma_poly_times(
        1 as real / 4 as real,
        1 as real / 2 as real,
        1 as real / 4 as real,
        0 as real,
        0 as real,
        0 as real,
        0 as real,
        0 as real,
        v,
    );
    lemma_times_half(z.v2, v);
    assert(z.v3 == poly(
            1 as real / 8 as real,
            3 as real / 8 as real,
            3 as real / 8 as real,
            1 as real / 8 as real,
            0 as real,
            0 as real,
            0 as real,
            0 as real,
            0 as real,
            v,
        )) by {
        reveal(poly);
    }
    lemma_poly_times(
        1 as real / 8 as real,
        3 as real / 8 as real,
        3 as real / 8 as real,
        1 as real / 8 as real,
        0 as real,
        0 as real,
        0 as real,
        0 as real,
        v,
    );
    lemma_times_half(z.v3, v);
    assert(z.v4 == poly(
            1 as real / 16 as real,
            1 as real / 4 as real,
            3 as real / 8 as real,
            1 as real / 4 as real,
            1 as real / 16 as real,
            0 as real,
            0 as real,
            0 as real,
            0 as real,
            v,
        )) by {
        reveal(poly);
    }
    lemma_poly_times(
        1 as real / 16 as real,
        1 as real / 4 as real,
        3 as real / 8 as real,
        1 as real / 4 as real,
        1 as real / 16 as real,
        0 as real,
        0 as real,
        0 as real,
        v,
    );
    lemma_times_half(z.v4, v);
    assert(z.v5 == poly(
            1 as real / 32 as real,
            5 as real / 32 as real,
            5 as real / 16 as real,
            5 as real / 16 as real,
            5 as real / 32 as real,
            1 as real / 32 as real,
            0 as real,
            0 as real,
            0 as real,
            v,
        )) by {
        reveal(poly);
    }
}

/// A cubic above the bound of the exponential between one half and one.
proof fn lemma_exp_above_half(v: real)
    requires
        0 as real <= v <= 1 as real,
    ensures
        1 as real <= exp_above((1 as real + v) / 2 as real),
        10000 as real * exp_above((1 as real + v) / 2 as real) <= poly(
            16488 as real,
            8245 as real,
            2063 as real,
            389 as real,
            0 as real,
            0 as real,
            0 as real,
            0 as real,
            0 as real,
            v,
        ),
{
    lemma_powers_fall(v);
    lemma_half_powers(v);
    reveal(poly);
    reveal(exp_above);
}

/// A factor that is a multiple.
proof fn lemma_multiple_after(u: real, c: real, a: real)
    ensures
        u * (c * a) == c * (u * a),
{
    assert(u * (c * a) == c * (u * a)) by (nonlinear_arith);
}

/// Four terms, times a number.
proof fn lemma_four_times(u: real, a: real, b: real, c: real, d: real)
    ensures
        u * (a + b + c + d) == u * a + u * b + u * c + u * d,
{
    assert(u * (a + b + c + d) == u * a + u * b + u * c + u * d) by (nonlinear_arith);
}

/// Factors in a row.
proof fn lemma_in_a_row(u: real, a: real, b: real)
    ensures
        u * (a * b) == (u * a) * b,
{
    assert(u * (a * b) == (u * a) * b) by (nonlinear_arith);
}

/// The square of the cubic.
proof fn lemma_cubic_squared(v: real)
    ensures
        ({
            let u = poly(
                16488 as real,
                8245 as real,
                2063 as real,
                389 as real,
                0 as real,
                0 as real,
                0 as real,
                0 as real,
                0 as real,
                v,
            );
            u * u == poly(
                271854144 as real,
                271887120 as real,
                136009513 as real,
                46846534 as real,
                10670579 as real,
                1605014 as real,
                151321 as real,
                0 as real,
                0 as real,
                v,
            )
        }),
{
    let q = powers(v);
    let u = poly(
            16488 as real,
            8245 as real,
            2063 as real,
            389 as real,
            0 as real,
            0 as real,
            0 as real,
            0 as real,
            0 as real,
            v,
        );
    let (b, c, d) = (8245 as real * v, 2063 as real * q.v2, 389 as real * q.v3);
    assert(u == 16488 as real + b + c + d) by {
        reveal(poly);
    }
    lemma_four_times(u, 16488 as real, b, c, d);
    lemma_multiple_after(u, 8245 as real, v);
    lemma_multiple_after(u, 2063 as real, q.v2);
    lemma_multiple_after(u, 389 as real, q.v3);
    lemma_in_a_row(u, v, v);
    lemma_in_a_row(u, q.v2, v);
    lemma_poly_times(
        16488 as real,
        8245 as real,
        2063 as real,
        389 as real,
        0 as real,
        0 as real,
        0 as real,
        0 as real,
        v,
    );
    lemma_poly_times(
        0 as real,
        16488 as real,
        8245 as real,
        2063 as real,
        389 as real,
        0 as real,
        0 as real,
        0 as real,
        v,
    );
    lemma_poly_times(
        0 as real,
        0 as real,
        16488 as real,
        8245 as real,
        2063 as real,
        389 as real,
        0 as real,
        0 as real,
        v,
    );
    reveal(poly);
}

/// Squares of numbers that are not negative rise.
proof fn lemma_square_rises(a: real, b: real)
    requires
        0 as real <= a <= b,
    ensures
        a * a <= b * b,
{
    assert(a * a <= b * b) by (nonlinear_arith)
        requires
            0 as real <= a <= b,
    ;
}

/// A factor that is not negative.
proof fn lemma_factor_rises(l: real, a: real, b: real)
    requires
        l >= 0 as real,
        a <= b,
    ensures
        l * a <= l * b,
{
    assert(l * a <= l * b) by (nonlinear_arith)
        requires
            l >= 0 as real,
            a <= b,
    ;
}

/// The square of a multiple.
proof fn lemma_square_multiple(c: real, x: real)
    ensures
        (c * x) * (c * x) == (c * c) * (x * x),
{
    assert((c * x) * (c * x) == (c * c) * (x * x)) by (nonlinear_arith);
}

/// From a square of two to four: `sqrt(2 pi) x exp(z)^2 < 2 (1 + x S)`, where
/// `x` is at most `(4 z + 3.4001) / 3.6876`.
pub proof fn lemma_upper_range(z: real)
    requires
        1 as real <= 2 as real * z,
        z <= 1 as real,
    ensures
        25067 as real * ((40000 as real * z + 34001 as real) * (exp_above(z) * exp_above(z)))
            <= 736044960 as real * series_below(4 as real * z),
{
    let v = 2 as real * z - 1 as real;
    assert(z == (1 as real + v) / 2 as real);
    assert(4 as real * z == 2 as real + 2 as real * v);
    let q = powers(v);
    lemma_powers_fall(v);
    lemma_high_powers(v);
    lemma_exp_above_half(v);
    lemma_cubic_squared(v);
    let x = exp_above(z);
    let u = poly(
            16488 as real,
            8245 as real,
            2063 as real,
            389 as real,
            0 as real,
            0 as real,
            0 as real,
            0 as real,
            0 as real,
            v,
        );
    lemma_square_rises(10000 as real * x, u);
    lemma_square_multiple(10000 as real, x);
    let l = 20000 as real * v + 54001 as real;
    let xx = x * x;
    let uu = u * u;
    assert(100000000 as real * xx <= uu);
    lemma_factor_rises(l, 100000000 as real * xx, uu);
    lemma_multiple_after(l, 100000000 as real, xx);
    lemma_poly_times(
        271854144 as real,
        271887120 as real,
        136009513 as real,
        46846534 as real,
        10670579 as real,
        1605014 as real,
        151321 as real,
        0 as real,
        v,
    );
    lemma_linear_times(20000 as real, v, 54001 as real, uu);
    assert(25067 as real * (l * uu) <= 73604496000000000 as real * series_below(4 as real * z)) by {
        reveal(poly);
        reveal(series_below);
    }
}

} // verus!
