use ghostwriter::binary32::{at_least, Binary32};

fn value(x: Binary32) -> f32 {
    f32::from_bits(x.to_bits())
}

/// Integers of every size, small ones densely.
fn samples() -> Vec<i32> {
    let mut all: Vec<i32> = (-70..70).collect();
    for shift in 6..31 {
        let base = 1i32 << shift;
        for delta in [-3, -2, -1, 0, 1, 2, 3, base / 3, base / 7] {
            all.push(base + delta);
            all.push(-base - delta);
        }
    }
    all.push(i32::MAX);
    all.push(i32::MIN);
    all
}

#[test]
fn integers_round_as_in_hardware() {
    for v in samples() {
        assert_eq!(value(Binary32::of(v as i64)), v as f32, "{}", v);
    }
    assert_eq!(value(Binary32::of(u32::MAX as i64)), u32::MAX as f32);
    assert_eq!(value(Binary32::of(16777217)), 16777216.0);
    assert_eq!(value(Binary32::of(16777219)), 16777220.0);
}

#[test]
fn arithmetic_rounds_as_in_hardware() {
    for a in samples() {
        for b in samples() {
            let (x, y) = (Binary32::of(a as i64), Binary32::of(b as i64));
            let (p, q) = (a as f32, b as f32);
            assert_eq!(value(x.plus(y)), p + q, "{} + {}", a, b);
            assert_eq!(value(x.times(y)), p * q, "{} * {}", a, b);
            assert_eq!(value(x.plus(y.negated())), p - q, "{} - {}", a, b);
            assert_eq!(x.at_most(y), p <= q, "{} <= {}", a, b);
            if b != 0 {
                let quotient = x.over(y);
                assert_eq!(value(quotient), p / q, "{} / {}", a, b);
                assert_eq!(quotient.to_i32(), (p / q) as i32);
                assert_eq!(value(quotient.plus(x)), p / q + p);
                assert_eq!(value(quotient.times(y)), p / q * q);
                assert_eq!(quotient.at_most(y), p / q <= q);
            }
            assert_eq!(x.times(y).to_i32(), (p * q) as i32);
        }
    }
}

#[test]
fn a_third_is_kept_to_24_bits() {
    let third = Binary32::of(1).over(Binary32::of(3));
    assert_eq!(third, Binary32 { significand: 11184811, exponent: -25 });
    assert_eq!(third.to_bits(), 0x3eaaaaab);
    assert_eq!(third.to_i32(), 0);
    assert_eq!(Binary32::of(-7).over(Binary32::of(2)).to_i32(), -3);
}

#[test]
fn zero_has_one_form() {
    let zero = Binary32 { significand: 0, exponent: 0 };
    assert_eq!(Binary32::of(0), zero);
    assert_eq!(Binary32::of(0).negated(), zero);
    assert_eq!(Binary32::of(5).plus(Binary32::of(-5)), zero);
    assert_eq!(Binary32::of(5).times(zero), zero);
    assert_eq!(zero.to_bits(), 0);
}

#[test]
fn integers_are_compared_with_any_bit_pattern() {
    let thresholds = [
        0.0f32, -0.0, 1.0, 0.5, -0.5, 1e-45, -1e-45, 1e-38, 250.0, 250.5, 249.99, 3800.0, 1e10,
        -1e10, f32::MAX, f32::MIN, f32::MIN_POSITIVE, f32::INFINITY, f32::NEG_INFINITY, f32::NAN,
        16777215.0, 16777216.0, 8388608.0, 8388607.5,
    ];
    for needed in thresholds {
        for v in [0, 1, 2, 249, 250, 251, 3800, 8388607, 8388608, 16777215] {
            assert_eq!(at_least(v, needed.to_bits()), v as f32 >= needed, "{} >= {}", v, needed);
        }
    }
}

#[test]
fn ceilings_are_not_below() {
    for a in samples() {
        for b in [1, 2, 3, 7, 768, 1 << 20, i32::MAX] {
            let (x, y) = (Binary32::of(a as i64), Binary32::of(b as i64));
            assert_eq!(x.over(y).ceiling(), (a as f32 / b as f32).ceil() as i64, "{} / {}", a, b);
        }
    }
}
