use pitch_calc::convert::{from_i64, from_u64, round_half_up, truncate, units_over_pow2};
use pitch_calc::Step;

fn step(v: f32) -> Step {
    Step(v.to_bits())
}

fn ints() -> Vec<u64> {
    let mut v: Vec<u64> = vec![0, 1, 2, 60, 127, 255, 256, 65535, 16777215, 16777216, 16777217,
        16777218, 16777219, 33554431, 4294967295, 4294967296, u64::MAX, u64::MAX - 1,
        0x7fff_ffff_ffff_ffff, 0x8000_0000_0000_0000, 0xffff_ff7f_ffff_ffff, 0xffff_ff80_0000_0000,
        0xffff_ff80_0000_0001];
    let mut state: u64 = 0x1234_5678_9abc_def1;
    for i in 0..2000 {
        state = state.wrapping_mul(6364136223846793005).wrapping_add(1442695040888963407);
        v.push(state >> (i % 64));
    }
    v
}

fn floats() -> Vec<f32> {
    let mut v: Vec<f32> = vec![0.0, -0.0, 0.4, 0.5, 0.6, 0.99999994, 1.0, 1.5, -0.5, -0.99, -1.0,
        -1.5, 59.999996, 60.0, 60.9, 127.0, 127.5, 128.0, -128.0, -128.5, -129.0, 255.0, 255.9,
        256.0, 32767.0, 32768.0, -32768.0, -32769.0, 65535.0, 65536.0, 2147483500.0, 2147483648.0,
        -2147483648.0, -2147483904.0, 4294967040.0, 4294967296.0, 9.223372e18, 9.223373e18,
        -9.223372e18, -9.223373e18, 1.8446743e19, 1.8446744e19, 1.0e30, -1.0e30, f32::MAX,
        f32::MIN, f32::INFINITY, f32::NEG_INFINITY, f32::NAN, f32::MIN_POSITIVE, 1.0e-45];
    let mut state: u64 = 0x0fed_cba9_8765_4321;
    for _ in 0..2000 {
        state = state.wrapping_mul(6364136223846793005).wrapping_add(1442695040888963407);
        v.push(f32::from_bits((state >> 32) as u32));
    }
    v
}

#[test]
fn from_integer_is_the_numeric_cast() {
    for &n in ints().iter() {
        assert_eq!(from_u64(n), (n as f32).to_bits(), "{}", n);
        let i = n as i64;
        assert_eq!(from_i64(i), (i as f32).to_bits(), "{}", i);
        assert_eq!(Step::from(n).step(), (n as f32).to_bits());
        assert_eq!(Step::from(i).step(), (i as f32).to_bits());
        assert_eq!(Step::from(n as u32).step(), (n as u32 as f32).to_bits());
        assert_eq!(Step::from(n as i32).step(), (n as i32 as f32).to_bits());
        assert_eq!(Step::from(n as u16).step(), (n as u16 as f32).to_bits());
        assert_eq!(Step::from(n as i16).step(), (n as i16 as f32).to_bits());
        assert_eq!(Step::from(n as u8).step(), (n as u8 as f32).to_bits());
        assert_eq!(Step::from(n as i8).step(), (n as i8 as f32).to_bits());
    }
}

#[test]
fn into_integer_is_the_numeric_cast() {
    for &x in floats().iter() {
        let s = step(x);
        assert_eq!(Into::<u8>::into(s), x as u8, "{} as u8", x);
        assert_eq!(Into::<u16>::into(s), x as u16, "{} as u16", x);
        assert_eq!(Into::<u32>::into(s), x as u32, "{} as u32", x);
        assert_eq!(Into::<u64>::into(s), x as u64, "{} as u64", x);
        assert_eq!(Into::<i8>::into(s), x as i8, "{} as i8", x);
        assert_eq!(Into::<i16>::into(s), x as i16, "{} as i16", x);
        assert_eq!(Into::<i32>::into(s), x as i32, "{} as i32", x);
        assert_eq!(Into::<i64>::into(s), x as i64, "{} as i64", x);
    }
}

#[test]
fn into_integer_saturates_and_drops_the_fraction() {
    assert_eq!(Into::<u8>::into(step(300.0)), 255u8);
    assert_eq!(Into::<u8>::into(step(-1.0)), 0u8);
    assert_eq!(Into::<i8>::into(step(-200.0)), -128i8);
    assert_eq!(Into::<i8>::into(step(200.0)), 127i8);
    assert_eq!(Into::<u8>::into(step(60.9)), 60u8);
    assert_eq!(Into::<i8>::into(step(-60.9)), -60i8);
    assert_eq!(Into::<u8>::into(step(f32::NAN)), 0u8);
    assert_eq!(Into::<i64>::into(step(f32::NAN)), 0i64);
    assert_eq!(Into::<i32>::into(step(1.0e20)), i32::MAX);
    assert_eq!(Into::<i32>::into(step(-1.0e20)), i32::MIN);
    assert_eq!(Into::<u64>::into(step(f32::INFINITY)), u64::MAX);
    assert_eq!(Into::<i64>::into(step(f32::NEG_INFINITY)), i64::MIN);
    assert_eq!(Into::<u64>::into(step(f32::NEG_INFINITY)), 0u64);
}

#[test]
fn small_integers_come_back() {
    for n in 0..=255u8 {
        assert_eq!(Into::<u8>::into(Step::from(n)), n);
    }
    for n in i8::MIN..=i8::MAX {
        assert_eq!(Into::<i8>::into(Step::from(n)), n);
    }
    for n in 0..=u16::MAX {
        assert_eq!(Into::<u16>::into(Step::from(n)), n);
    }
    for n in i16::MIN..=i16::MAX {
        assert_eq!(Into::<i16>::into(Step::from(n)), n);
    }
    for n in [0u32, 1, 16777215, 16777216, 16777218, 0x8000_0000, 0xffff_ff00] {
        assert_eq!(Into::<u32>::into(Step::from(n)), n);
        assert_eq!(Into::<u64>::into(Step::from(n as u64)), n as u64);
        assert_eq!(Into::<i64>::into(Step::from(-(n as i64))), -(n as i64));
    }
    for n in [0i32, 1, -1, 16777216, -16777216, i32::MIN, 0x7fff_ff80] {
        assert_eq!(Into::<i32>::into(Step::from(n)), n);
    }
}

#[test]
fn large_integers_need_not_come_back() {
    // 2^24 + 1 has twenty-five bits: binary32 does not hold it.
    assert_eq!(Into::<u32>::into(Step::from(16777217u32)), 16777216u32);
    assert_eq!(Into::<i64>::into(Step::from(-16777217i64)), -16777216i64);
}

#[test]
fn truncate_keeps_within_bounds() {
    assert_eq!(truncate(2.5f32.to_bits(), -10, 10), 2);
    assert_eq!(truncate((-2.5f32).to_bits(), -10, 10), -2);
    assert_eq!(truncate(11.0f32.to_bits(), -10, 10), 10);
    assert_eq!(truncate((-11.0f32).to_bits(), -10, 10), -10);
    assert_eq!(truncate(f32::NAN.to_bits(), -10, 10), 0);
    assert_eq!(truncate(0.99f32.to_bits(), 0, 10), 0);
}

#[test]
fn round_half_up_goes_to_the_nearest() {
    let cases: [(f32, i128); 14] = [
        (0.0, 0), (0.49, 0), (0.5, 1), (1.5, 2), (2.5, 3), (-0.5, 0), (-0.51, -1), (-1.5, -1),
        (-2.5, -2), (-2.51, -3), (68.5, 69), (1.0e-40, 0), (-1.0e-40, 0), (8388609.0, 8388609),
    ];
    for &(x, want) in cases.iter() {
        assert_eq!(round_half_up(x.to_bits(), -0x8000_0000, 0x7fff_ffff), want, "{}", x);
    }
    assert_eq!(round_half_up(f32::NAN.to_bits(), -5, 5), 0);
    assert_eq!(round_half_up(7.0f32.to_bits(), -5, 5), 5);
    assert_eq!(round_half_up((-7.0f32).to_bits(), -5, 5), -5);
    for &x in floats().iter() {
        if x.is_nan() {
            continue;
        }
        let want = ((x as f64) + 0.5).floor().clamp(-2147483648.0, 2147483647.0) as i128;
        assert_eq!(round_half_up(x.to_bits(), -0x8000_0000, 0x7fff_ffff), want, "{}", x);
    }
}

#[test]
fn units_over_pow2_divides() {
    // 1.0 is 2^149 units.
    assert_eq!(units_over_pow2(1.0f32.to_bits(), 149), (1, true));
    assert_eq!(units_over_pow2(1.5f32.to_bits(), 149), (1, false));
    assert_eq!(units_over_pow2(1.5f32.to_bits(), 148), (3, true));
    assert_eq!(units_over_pow2(0, 149), (0, true));
    assert_eq!(units_over_pow2(1, 1), (0, false));
    assert_eq!(units_over_pow2(2, 1), (1, true));
    assert_eq!(units_over_pow2(f32::MAX.to_bits(), 149), (1u128 << 64, true));
    assert_eq!(units_over_pow2(1.8446744e19f32.to_bits(), 149), (1u128 << 64, true));
    assert_eq!(units_over_pow2(1.8446743e19f32.to_bits(), 149), (0xffff_ff00_0000_0000, true));
}
