//! Double precision by integers, against the arithmetic of the machine.
use stableprop::backend::Format;
use stableprop::binary64::rounded::Rounded;
use stableprop::binary64::Binary64;
use stableprop::scalar::Scalar;

fn soft(x: f64) -> Binary64 {
    Binary64 { bits: x.to_bits() }
}

fn hard(x: Binary64) -> f64 {
    f64::from_bits(x.bits)
}

/// Whether a result has the bits of the machine's, all undefined results alike.
fn agrees(r: Binary64, expected: f64) -> bool {
    if expected.is_nan() {
        hard(r).is_nan()
    } else {
        r.bits == expected.to_bits()
    }
}

struct Bits(u64);

impl Bits {
    fn next(&mut self) -> u64 {
        self.0 ^= self.0 << 13;
        self.0 ^= self.0 >> 7;
        self.0 ^= self.0 << 17;
        self.0
    }
}

/// Bit patterns at and around every border of the format.
fn borders() -> Vec<f64> {
    let codes: [u64; 26] = [
        0,
        1,
        2,
        3,
        0x000f_ffff_ffff_fffe,
        0x000f_ffff_ffff_ffff,
        0x0010_0000_0000_0000,
        0x0010_0000_0000_0001,
        0x001f_ffff_ffff_ffff,
        0x0020_0000_0000_0000,
        0x3ca0_0000_0000_0000,
        0x3cb0_0000_0000_0001,
        0x3fe0_0000_0000_0000,
        0x3fef_ffff_ffff_ffff,
        0x3ff0_0000_0000_0000,
        0x3ff0_0000_0000_0001,
        0x3ff8_0000_0000_0000,
        0x4000_0000_0000_0000,
        0x4009_21fb_5444_2d18,
        0x4330_0000_0000_0000,
        0x4340_0000_0000_0001,
        0x7fdf_ffff_ffff_ffff,
        0x7fe0_0000_0000_0000,
        0x7fef_ffff_ffff_ffff,
        0x7ff0_0000_0000_0000,
        0x7ff8_0000_0000_0000,
    ];
    let mut all = Vec::new();
    for code in codes {
        all.push(f64::from_bits(code));
        all.push(f64::from_bits(code | 0x8000_0000_0000_0000));
    }
    all
}

fn compare_pair(a: f64, b: f64) {
    let (x, y) = (soft(a), soft(b));
    assert!(agrees(x.plus(y), a + b), "{a:e} + {b:e}");
    assert!(agrees(x.minus(y), a - b), "{a:e} - {b:e}");
    assert!(agrees(x.times(y), a * b), "{a:e} * {b:e}");
    assert!(agrees(x.over(y), a / b), "{a:e} / {b:e}");
    assert_eq!(x.less(y), a < b, "{a:e} < {b:e}");
    assert_eq!(x.at_most(y), a <= b, "{a:e} <= {b:e}");
    assert_eq!(x.equals(y), a == b, "{a:e} == {b:e}");
}

fn compare_single(a: f64) {
    let x = soft(a);
    assert!(agrees(x.root(), a.sqrt()), "sqrt {a:e}");
    assert_eq!(x.negated().bits, (-a).to_bits(), "-{a:e}");
    assert_eq!(x.magnitude().bits, a.abs().to_bits(), "|{a:e}|");
    assert_eq!(x.finite(), a.is_finite(), "finite {a:e}");
}

#[test]
fn border_values_agree_with_the_machine() {
    let all = borders();
    for a in &all {
        compare_single(*a);
        for b in &all {
            compare_pair(*a, *b);
        }
    }
}

#[test]
fn arbitrary_bits_agree_with_the_machine() {
    let mut bits = Bits(0x1234_5678_9abc_def1);
    for _ in 0..20_000 {
        let a = f64::from_bits(bits.next());
        let b = f64::from_bits(bits.next());
        compare_single(a);
        compare_pair(a, b);
    }
}

#[test]
fn near_magnitudes_agree_with_the_machine() {
    let mut bits = Bits(0x0f1e_2d3c_4b5a_6978);
    for _ in 0..20_000 {
        // Exponents within a few places of one another round the most.
        let a = f64::from_bits((bits.next() >> 12) | ((1000 + bits.next() % 60) << 52));
        let b = f64::from_bits((bits.next() >> 12) | ((1000 + bits.next() % 60) << 52));
        compare_single(a);
        compare_pair(a, b);
        compare_pair(a, -b);
    }
}

#[test]
fn subnormal_results_agree_with_the_machine() {
    let mut bits = Bits(0x7777_1234_0000_4321);
    for _ in 0..20_000 {
        let a = f64::from_bits((bits.next() >> 12) | ((480 + bits.next() % 80) << 52));
        let b = f64::from_bits((bits.next() >> 12) | ((480 + bits.next() % 80) << 52));
        compare_pair(a, b);
        compare_pair(a, 1.0 / b);
        let tiny = f64::from_bits(bits.next() >> (12 + bits.next() % 50));
        compare_single(tiny);
        compare_pair(tiny, a);
        compare_pair(tiny, 0.3);
    }
}

#[test]
fn whole_numbers_and_constants() {
    for n in [0, 1, -1, 2, 3, 7, 10, -1024, 65_537, i32::MAX, i32::MIN, i32::MIN + 1] {
        assert_eq!(Binary64::whole(n).bits, (n as f64).to_bits(), "{n}");
    }
    assert_eq!(hard(Binary64::pi()), std::f64::consts::PI);
    assert_eq!(hard(Binary64::largest(Format::F64)), f64::MAX);
}

#[test]
fn exponentials_are_accurate() {
    let mut x = -20.0;
    while x < 20.0 {
        let got = hard(soft(x).exponential());
        let expected = f64::exp(x);
        assert!((got - expected).abs() <= 1e-12 * expected, "exp {x}: {got} vs {expected}");
        x += 0.037;
    }
    assert_eq!(hard(soft(0.0).exponential()), 1.0);
    assert_eq!(hard(soft(-800.0).exponential()), 0.0);
    assert_eq!(hard(soft(800.0).exponential()), f64::INFINITY);
    assert!(hard(soft(f64::NAN).exponential()).is_nan());
}

#[test]
fn error_function_is_accurate() {
    // Values of Abramowitz & Stegun, table 7.1.
    for (x, expected) in [
        (0.0, 0.0),
        (0.1, 0.112_462_916_018_284_9),
        (0.5, 0.520_499_877_813_046_5),
        (1.0, 0.842_700_792_949_714_9),
        (1.5, 0.966_105_146_475_310_7),
        (2.0, 0.995_322_265_018_952_7),
        (3.0, 0.999_977_909_503_001_4),
        (7.0, 1.0),
    ] {
        assert!((hard(soft(x).error_function()) - expected).abs() < 1e-13, "erf {x}");
        assert!((hard(soft(-x).error_function()) + expected).abs() < 1e-13, "erf -{x}");
    }
}

#[test]
fn tangents_are_accurate() {
    let mut x = -1.5;
    while x < 1.5 {
        let got = hard(soft(x).tangent());
        assert!((got - f64::tan(x)).abs() <= 1e-12 * (1.0 + f64::tan(x).abs()), "tan {x}");
        x += 0.011;
    }
    assert_eq!(hard(soft(0.0).tangent()), 0.0);
}

#[test]
fn zero_and_one_are_neutral() {
    for x in borders() {
        let zero = Binary64::whole(0);
        let one = Binary64::whole(1);
        if x.is_nan() {
            assert!(hard(soft(x).plus(zero)).is_nan());
            assert!(hard(soft(x).times(one)).is_nan());
        } else {
            assert_eq!(hard(soft(x).plus(zero)), x);
            assert_eq!(hard(zero.plus(soft(x))), x);
            assert_eq!(hard(soft(x).times(one)), x);
        }
        if x.is_finite() {
            assert_eq!(hard(soft(x).times(zero)), 0.0);
        }
        if x > 0.0 {
            assert_eq!(hard(zero.over(soft(x))), 0.0);
        }
    }
}

#[test]
fn sums_and_products_commute() {
    let mut bits = Bits(0x5555_aaaa_1111_0001);
    for _ in 0..5_000 {
        let a = Binary64 { bits: bits.next() };
        let b = Binary64 { bits: bits.next() };
        assert_eq!(a.plus(b).bits, b.plus(a).bits);
        assert_eq!(a.times(b).bits, b.times(a).bits);
    }
}

#[test]
fn order_is_strict_and_total() {
    for a in borders() {
        assert!(!soft(a).less(soft(a)));
        for b in borders() {
            if a.is_finite() && b.is_finite() && !soft(a).less(soft(b)) && !soft(b).less(soft(a)) {
                assert!(a.to_bits() == b.to_bits() || (a == 0.0 && b == 0.0));
            }
        }
    }
}

/// A number of the given format.
fn entry(x: f64, format: Format) -> Rounded {
    Rounded { format: Format::F64, number: soft(x) }.narrowed(format)
}

#[test]
fn single_precision_agrees_with_the_machine() {
    let mut bits = Bits(0x3141_5926_5358_9793);
    for round in 0..20_000 {
        let wide = f64::from_bits(bits.next());
        // Every other number has an exponent that single precision can hold.
        let x = if round % 2 == 0 { wide } else { wide.clamp(-1.0, 1.0) * f64::from_bits((880 + bits.next() % 290) << 52) };
        let got = hard(soft(x).narrowed(Format::F32));
        let expected = x as f32 as f64;
        assert!(got == expected || (got.is_nan() && expected.is_nan()), "{x:e}: {got:e} vs {expected:e}");
    }
}

#[test]
fn arithmetic_of_single_precision_agrees_with_the_machine() {
    let mut bits = Bits(0x2718_2818_2845_9045);
    for _ in 0..10_000 {
        let a = f32::from_bits(bits.next() as u32);
        let b = f32::from_bits(bits.next() as u32);
        let x = entry(a as f64, Format::F32);
        let y = entry(b as f64, Format::F32);
        for (got, expected) in [
            (x.plus(y), a + b),
            (x.minus(y), a - b),
            (x.times(y), a * b),
            (x.over(y), a / b),
            (x.root(), a.sqrt()),
        ] {
            let got = hard(got.number);
            let expected = expected as f64;
            assert!(got == expected || (got.is_nan() && expected.is_nan()), "{a:e} {b:e}: {got:e} vs {expected:e}");
        }
    }
}

#[test]
fn formats_round_and_overflow() {
    for (f, largest, beyond) in [
        (Format::F32, f32::MAX as f64, 3.5e38),
        (Format::F16, 65_504.0, 65_520.0),
        (Format::BF16, 3.389_531_389_251_535_5e38, 3.4e38),
    ] {
        assert_eq!(hard(Binary64::largest(f)), largest);
        assert_eq!(hard(soft(largest).narrowed(f)), largest);
        assert_eq!(hard(soft(beyond).narrowed(f)), f64::INFINITY);
        assert_eq!(hard(soft(-beyond).narrowed(f)), f64::NEG_INFINITY);
    }
    assert_eq!(hard(Binary64::largest(Format::Flex32)), 65_504.0);
    assert_eq!(hard(soft(100_000.0).narrowed(Format::Flex32)), 100_000.0);
    // The smallest numbers of the formats, and half of them.
    for (f, smallest) in [
        (Format::F32, 2f64.powi(-149)),
        (Format::F16, 2f64.powi(-24)),
        (Format::BF16, 2f64.powi(-133)),
    ] {
        assert_eq!(hard(soft(smallest).narrowed(f)), smallest);
        assert_eq!(hard(soft(smallest / 2.0).narrowed(f)), 0.0);
        assert_eq!(hard(soft(smallest * 0.75).narrowed(f)), smallest);
    }
    assert_eq!(hard(soft(1.0 / 3.0).narrowed(Format::F16)), 0.333_251_953_125);
    assert_eq!(hard(soft(1.0 / 3.0).narrowed(Format::BF16)), 0.333_984_375);
}
