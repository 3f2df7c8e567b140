use pitch_calc::arith::{difference, negation, product, quotient, remainder, sum};
use pitch_calc::binary32::INFINITY_MAG;

fn same(a: u32, expected: f32) -> bool {
    if expected.is_nan() {
        (a & 0x7fff_ffff) > INFINITY_MAG
    } else {
        a == expected.to_bits()
    }
}

fn samples() -> Vec<u32> {
    let mut v: Vec<u32> = vec![
        0x0000_0000, 0x8000_0000, 0x0000_0001, 0x8000_0001, 0x007f_ffff, 0x0080_0000, 0x0080_0001,
        0x00ff_ffff, 0x3f80_0000, 0xbf80_0000, 0x3f80_0001, 0x3f7f_ffff, 0x4000_0000, 0x4040_0000,
        0x7f7f_ffff, 0xff7f_ffff, 0x7f80_0000, 0xff80_0000, 0x7fc0_0000, 0xffc0_0000, 0x7f80_0001,
        0x3400_0000, 0x3380_0000, 0x3380_0001, 0x4b00_0000, 0x4b80_0000, 0x4b7f_ffff, 0x5f00_0000,
        0x3eaa_aaab, 0x3dcc_cccd, 0x4049_0fdb, 0x0040_0000, 0x0020_0001, 0x7f00_0000, 0x7e80_0000,
        0x0100_0000, 0x0180_0000, 0x1e00_0000, 0x6180_0000, 0x42c8_0000, 0x428a_0000, 0x43dc_0000,
    ];
    let mut state: u64 = 0x9e37_79b9_7f4a_7c15;
    for _ in 0..400 {
        state = state.wrapping_mul(6364136223846793005).wrapping_add(1442695040888963407);
        v.push((state >> 32) as u32);
    }
    v
}

#[test]
fn sum_matches_hardware() {
    let v = samples();
    for &a in v.iter() {
        for &b in v.iter() {
            let expected = f32::from_bits(a) + f32::from_bits(b);
            assert!(same(sum(a, b), expected), "{:#x} + {:#x}", a, b);
        }
    }
}

#[test]
fn difference_matches_hardware() {
    let v = samples();
    for &a in v.iter() {
        for &b in v.iter() {
            let expected = f32::from_bits(a) - f32::from_bits(b);
            assert!(same(difference(a, b), expected), "{:#x} - {:#x}", a, b);
        }
    }
}

#[test]
fn product_matches_hardware() {
    let v = samples();
    for &a in v.iter() {
        for &b in v.iter() {
            let expected = f32::from_bits(a) * f32::from_bits(b);
            assert!(same(product(a, b), expected), "{:#x} * {:#x}", a, b);
        }
    }
}

#[test]
fn quotient_matches_hardware() {
    let v = samples();
    for &a in v.iter() {
        for &b in v.iter() {
            let expected = f32::from_bits(a) / f32::from_bits(b);
            assert!(same(quotient(a, b), expected), "{:#x} / {:#x}", a, b);
        }
    }
}

#[test]
fn remainder_matches_hardware() {
    let v = samples();
    for &a in v.iter() {
        for &b in v.iter() {
            let expected = f32::from_bits(a) % f32::from_bits(b);
            assert!(same(remainder(a, b), expected), "{:#x} % {:#x}", a, b);
        }
    }
}

#[test]
fn negation_matches_hardware() {
    for &a in samples().iter() {
        assert_eq!(negation(a), (-f32::from_bits(a)).to_bits());
    }
}
