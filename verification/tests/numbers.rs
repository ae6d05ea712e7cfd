use sqcli::number::Real;

fn value_of(value: f64) -> Real {
    Real {
        bits: value.to_bits(),
    }
}

const VALUES: [f64; 16] = [
    0.0,
    -0.0,
    1.0,
    -1.0,
    5e-324,
    -5e-324,
    f64::MIN_POSITIVE,
    1.0 + f64::EPSILON,
    f64::MAX,
    f64::MIN,
    f64::INFINITY,
    f64::NEG_INFINITY,
    f64::NAN,
    -2.5,
    2.5,
    1e-310,
];

#[test]
fn numbers_are_ordered_by_their_bits() {
    for a in VALUES {
        for b in VALUES {
            assert_eq!(value_of(a).below(value_of(b)), a < b, "{} {}", a, b);
            assert_eq!(value_of(a).same(value_of(b)), a == b, "{} {}", a, b);
        }
    }
}

#[test]
fn the_smaller_and_the_larger_number_are_found() {
    for a in VALUES {
        for b in VALUES {
            let low = f64::from_bits(value_of(a).min(value_of(b)).bits);
            let high = f64::from_bits(value_of(a).max(value_of(b)).bits);
            assert!(low == a.min(b) || (low.is_nan() && a.min(b).is_nan()));
            assert!(high == a.max(b) || (high.is_nan() && a.max(b).is_nan()));
        }
    }
}

#[test]
fn numbers_are_told_from_what_is_none() {
    for a in VALUES {
        assert_eq!(value_of(a).nan(), a.is_nan());
        assert_eq!(value_of(a).finite(), a.is_finite());
        assert_eq!(value_of(a).at_most_zero(), a <= 0.0);
        assert_eq!(value_of(a).positive(), a > 0.0);
        assert_eq!(value_of(a).abs(), value_of(a.abs()));
    }
}

#[test]
fn a_step_of_the_exponent_doubles() {
    let step = sqcli::number::EXPONENT_STEP;
    for value in [1.0, 2.5, 1e-300, 3.7e200] {
        let next = Real {
            bits: value_of(value).bits + step,
        };
        assert_eq!(f64::from_bits(next.bits), value * 2.0);
    }
}

#[test]
fn a_count_is_widened_exactly() {
    let mut counts = vec![0, 1, -1, 2, 3, -7, i32::MAX, i32::MIN, i32::MIN + 1, 300_000];
    for shift in 0..31 {
        counts.push(1 << shift);
        counts.push((1 << shift) - 1);
        counts.push(-(1 << shift) - 1);
    }
    for count in counts {
        assert_eq!(Real::from_count(count), value_of(count as f64), "{}", count);
    }
}

#[test]
fn ground_motion_is_widened_exactly() {
    let mut bits: Vec<u32> = vec![0, 1, 2, 3, 0x7f_ffff, 0x80_0000, 0x80_0001, 0x7f7f_ffff];
    bits.push(1.5f32.to_bits());
    bits.push(std::f32::consts::PI.to_bits());
    bits.push(f32::INFINITY.to_bits());
    for shift in 0..31 {
        bits.push(1 << shift);
    }
    for magnitude in bits {
        for held in [magnitude, magnitude | 0x8000_0000] {
            let number = f32::from_bits(held);
            if !number.is_nan() {
                assert_eq!(Real::from_motion(held), value_of(number as f64), "{}", number);
            }
        }
    }
    for held in [0x7fc0_0000, 0x7f80_0001, 0xffff_ffff] {
        assert!(Real::from_motion(held).nan());
    }
}
