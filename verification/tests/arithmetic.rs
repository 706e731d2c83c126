use audio_prep::arithmetic::{clamp_unit, halve, mean, product, sum};
use audio_prep::binary32::{decompose, power_of_two, NEG_ONE, ONE};
use audio_prep::rounding::{round_divided, round_scaled};

fn same(bits: u32, expected: f32) -> bool {
    if expected.is_nan() {
        f32::from_bits(bits).is_nan()
    } else {
        bits == expected.to_bits()
    }
}

fn next(state: &mut u64) -> u32 {
    *state = state
        .wrapping_mul(6364136223846793005)
        .wrapping_add(1442695040888963407);
    (*state >> 32) as u32
}

const EDGES: [u32; 24] = [
    0x0000_0000,
    0x8000_0000,
    0x0000_0001,
    0x8000_0001,
    0x0000_0002,
    0x0000_0003,
    0x007f_ffff,
    0x0080_0000,
    0x0080_0001,
    0x00ff_ffff,
    0x0100_0000,
    0x3f80_0000,
    0xbf80_0000,
    0x3f00_0000,
    0x3f7f_ffff,
    0x3f80_0001,
    0x4b80_0000,
    0x4b7f_ffff,
    0x7f7f_ffff,
    0xff7f_ffff,
    0x7f80_0000,
    0xff80_0000,
    0x7fc0_0000,
    0x7f00_0000,
];

#[test]
fn sum_matches_hardware_on_edges() {
    for &a in EDGES.iter() {
        for &b in EDGES.iter() {
            let expected = f32::from_bits(a) + f32::from_bits(b);
            assert!(same(sum(a, b), expected), "{:08x} + {:08x}", a, b);
        }
    }
}

#[test]
fn sum_matches_hardware_on_many_patterns() {
    let mut state: u64 = 7;
    for _ in 0..200_000 {
        let a = next(&mut state);
        let b = next(&mut state);
        let expected = f32::from_bits(a) + f32::from_bits(b);
        assert!(same(sum(a, b), expected), "{:08x} + {:08x}", a, b);
    }
}

#[test]
fn sum_matches_hardware_on_close_exponents() {
    let mut state: u64 = 11;
    for _ in 0..200_000 {
        let a = next(&mut state);
        let shift = next(&mut state) % 64;
        let frac = next(&mut state) & 0x807f_ffff;
        let exp = ((a >> 23) & 0xff) as i64 + shift as i64 - 32;
        let exp = exp.clamp(0, 254) as u32;
        let b = frac | (exp << 23);
        let expected = f32::from_bits(a) + f32::from_bits(b);
        assert!(same(sum(a, b), expected), "{:08x} + {:08x}", a, b);
    }
}

#[test]
fn halve_matches_hardware() {
    for &a in EDGES.iter() {
        assert!(same(halve(a), f32::from_bits(a) / 2.0), "{:08x}", a);
    }
    let mut state: u64 = 13;
    for _ in 0..200_000 {
        let a = next(&mut state);
        assert!(same(halve(a), f32::from_bits(a) / 2.0), "{:08x}", a);
        let small = a & 0x81ff_ffff;
        assert!(same(halve(small), f32::from_bits(small) / 2.0), "{:08x}", small);
    }
}

#[test]
fn mean_matches_hardware() {
    let mut state: u64 = 17;
    for _ in 0..100_000 {
        let a = next(&mut state);
        let b = next(&mut state);
        let expected = (f32::from_bits(a) + f32::from_bits(b)) / 2.0;
        assert!(same(mean(a, b), expected), "{:08x} {:08x}", a, b);
    }
}

#[test]
fn mean_of_largest_overflows_as_the_sum_does() {
    let max = f32::MAX.to_bits();
    assert_eq!(mean(max, max), f32::INFINITY.to_bits());
}

#[test]
fn sum_of_opposite_zeroes_is_positive_zero() {
    assert_eq!(sum(0x8000_0000, 0), 0);
    assert_eq!(sum(0x8000_0000, 0x8000_0000), 0x8000_0000);
    assert_eq!(sum(1.5f32.to_bits(), (-1.5f32).to_bits()), 0);
}

#[test]
fn product_matches_hardware_on_edges() {
    for &a in EDGES.iter() {
        for &b in EDGES.iter() {
            let expected = f32::from_bits(a) * f32::from_bits(b);
            assert!(same(product(a, b), expected), "{:08x} * {:08x}", a, b);
        }
    }
}

#[test]
fn product_matches_hardware_on_many_patterns() {
    let mut state: u64 = 19;
    for _ in 0..200_000 {
        let a = next(&mut state);
        let b = next(&mut state);
        let expected = f32::from_bits(a) * f32::from_bits(b);
        assert!(same(product(a, b), expected), "{:08x} * {:08x}", a, b);
    }
}

#[test]
fn product_matches_hardware_near_the_smallest_numbers() {
    let mut state: u64 = 23;
    for _ in 0..200_000 {
        let a = next(&mut state);
        let frac = next(&mut state) & 0x807f_ffff;
        let spread = next(&mut state) % 40;
        let exp = (127 + 127 - 20 + spread as i64 - ((a >> 23) & 0xff) as i64).clamp(0, 254) as u32;
        let b = frac | (exp << 23);
        let expected = f32::from_bits(a) * f32::from_bits(b);
        assert!(same(product(a, b), expected), "{:08x} * {:08x}", a, b);
    }
}

#[test]
fn product_of_audio_range_values_matches_hardware() {
    let mut state: u64 = 29;
    for _ in 0..200_000 {
        let sample = (next(&mut state) as f32 / u32::MAX as f32) * 2.0 - 1.0;
        let gain = (next(&mut state) as f32 / u32::MAX as f32) * 300.0;
        let got = product(sample.to_bits(), gain.to_bits());
        assert_eq!(got, (sample * gain).to_bits());
    }
}

#[test]
fn clamp_matches_hardware() {
    for &a in EDGES.iter() {
        let expected = f32::from_bits(a).clamp(-1.0, 1.0);
        assert!(same(clamp_unit(a), expected), "{:08x}", a);
    }
    let mut state: u64 = 31;
    for _ in 0..200_000 {
        let a = next(&mut state);
        let expected = f32::from_bits(a).clamp(-1.0, 1.0);
        assert!(same(clamp_unit(a), expected), "{:08x}", a);
    }
}

#[test]
fn clamp_keeps_the_bounds_and_negative_zero() {
    assert_eq!(clamp_unit(ONE), ONE);
    assert_eq!(clamp_unit(NEG_ONE), NEG_ONE);
    assert_eq!(clamp_unit(0x8000_0000), 0x8000_0000);
    assert_eq!(clamp_unit(f32::INFINITY.to_bits()), ONE);
    assert_eq!(clamp_unit(f32::NEG_INFINITY.to_bits()), NEG_ONE);
    assert_eq!(clamp_unit(1.5f32.to_bits()), ONE);
}

#[test]
fn rounding_helpers_give_exact_values() {
    assert_eq!(power_of_two(0), 1);
    assert_eq!(power_of_two(40), 1u64 << 40);
    assert_eq!(decompose(1.0f32.to_bits()), (0x80_0000, 126));
    assert_eq!(decompose(1), (1, 0));
    assert_eq!(round_scaled(0x80_0000, 126), 1.0f32.to_bits());
    assert_eq!(round_scaled(3, 0), 3);
    assert_eq!(round_scaled(0x100_0001, 0), 0x0100_0000);
    assert_eq!(round_scaled(0x100_0003, 0), 0x0100_0002);
    assert_eq!(round_scaled(1, 300), f32::INFINITY.to_bits());
    assert_eq!(round_divided(3, 1), 2);
    assert_eq!(round_divided(5, 1), 2);
    assert_eq!(round_divided(1, 60), 0);
}

#[test]
fn sum_and_mean_do_not_depend_on_the_order() {
    let mut state: u64 = 37;
    for _ in 0..50_000 {
        let a = next(&mut state);
        let b = next(&mut state);
        assert_eq!(sum(a, b), sum(b, a));
        assert_eq!(mean(a, b), mean(b, a));
    }
}

#[test]
fn product_with_one_is_the_number() {
    let mut state: u64 = 41;
    for _ in 0..50_000 {
        let a = next(&mut state);
        if f32::from_bits(a).is_finite() {
            assert_eq!(product(a, ONE), a);
        }
    }
}

#[test]
fn mean_of_audio_range_values_is_the_exact_mean_rounded() {
    let mut state: u64 = 43;
    for _ in 0..100_000 {
        let l = (next(&mut state) as f32 / u32::MAX as f32) * 2.0 - 1.0;
        let r = (next(&mut state) as f32 / u32::MAX as f32) * 2.0 - 1.0;
        let exact = (l as f64 + r as f64) / 2.0;
        assert_eq!(mean(l.to_bits(), r.to_bits()), (exact as f32).to_bits());
    }
}
