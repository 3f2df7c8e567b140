use pitch_calc::calc::{hz_from_step, step_from_hz};
use pitch_calc::compare::{equal, less, nan};
use pitch_calc::Step;

fn step(v: f32) -> Step {
    Step(v.to_bits())
}

fn val(bits: u32) -> f64 {
    f32::from_bits(bits) as f64
}

#[test]
fn step_comes_back_from_hz() {
    let mut s: f32 = -20.0;
    while s < 160.0 {
        let hz = step(s).hz();
        let back = val(step_from_hz(hz));
        assert!((back - s as f64).abs() <= 2.0e-5 * (1.0 + (s as f64).abs()), "{} came back as {}", s, back);
        s += 0.173;
    }
    assert_eq!(step_from_hz(440.0f32.to_bits()), 69.0f32.to_bits());
    assert_eq!(step_from_hz(880.0f32.to_bits()), 81.0f32.to_bits());
}

#[test]
fn conversions_keep_the_order() {
    let mut prev = step(-300.0);
    let mut s: f32 = -300.0;
    while s < 400.0 {
        let next = step(s);
        assert!(val(prev.hz()) <= val(next.hz()), "hz at {}", s);
        assert!(val(prev.mel()) <= val(next.mel()), "mel at {}", s);
        assert!(val(prev.perc()) <= val(next.perc()), "perc at {}", s);
        prev = next;
        s += 0.0713;
    }
}

#[test]
fn conversions_keep_the_order_of_neighbours() {
    for start in [0.0f32, 1.0, 15.0, 69.0, 127.0, -40.0, 1499.0, -1800.0] {
        let mut bits = start.to_bits();
        let mut prev = Step(bits);
        for _ in 0..2000 {
            bits = if start < 0.0 { bits - 1 } else { bits + 1 };
            let next = Step(bits);
            assert!(prev < next);
            assert!(val(prev.hz()) <= val(next.hz()));
            assert!(val(prev.mel()) <= val(next.mel()));
            assert!(val(prev.perc()) <= val(next.perc()));
            prev = next;
        }
    }
}

#[test]
fn hz_of_whole_steps_rises() {
    for n in -1500..1400 {
        let (low, high) = (hz_from_step((n as f32).to_bits()), hz_from_step(((n + 1) as f32).to_bits()));
        assert!(val(low) < val(high), "from {} to {}", n, n + 1);
    }
}

#[test]
fn hz_of_sixteenths_rises() {
    for n in -24000..22400 {
        let (low, high) = (n as f32 / 16.0, (n + 1) as f32 / 16.0);
        assert!(val(hz_from_step(low.to_bits())) < val(hz_from_step(high.to_bits())), "from {}", low);
    }
}

#[test]
fn hz_of_neighbouring_steps_can_coincide() {
    // Around step 1 the steps lie closer together than the frequencies can.
    let a = Step(1.0f32.to_bits());
    let b = Step(1.0f32.to_bits() + 1);
    assert!(a < b);
    assert_eq!(a.hz(), b.hz());
}

#[test]
fn hz_at_the_ends() {
    assert_eq!(step(f32::INFINITY).hz(), f32::INFINITY.to_bits());
    assert_eq!(step(f32::NEG_INFINITY).hz(), 0);
    assert_eq!(step(1.0e6).hz(), f32::INFINITY.to_bits());
    assert_eq!(step(-1.0e6).hz(), 0);
    assert!(f32::from_bits(step(f32::NAN).hz()).is_nan());
    assert!(f32::from_bits(step(f32::NAN).mel()).is_nan());
    assert!(f32::from_bits(step(f32::NAN).perc()).is_nan());
    assert!(f32::from_bits(step(f32::NAN).scaled_perc()).is_nan());
    assert_eq!(step(f32::INFINITY).mel(), f32::INFINITY.to_bits());
    assert_eq!(step(f32::INFINITY).perc(), f32::INFINITY.to_bits());
    assert_eq!(step(f32::NEG_INFINITY).mel(), 0);
}

#[test]
fn comparisons_match_hardware() {
    let values = [0u32, 0x8000_0000, 1, 0x8000_0001, 0x3f80_0000, 0xbf80_0000, 0x7f7f_ffff,
        0xff7f_ffff, 0x7f80_0000, 0xff80_0000, 0x7fc0_0000, 0xffc0_0001, 0x0080_0000, 0x4049_0fdb];
    for &a in values.iter() {
        for &b in values.iter() {
            let (x, y) = (f32::from_bits(a), f32::from_bits(b));
            assert_eq!(equal(a, b), x == y);
            assert_eq!(less(a, b), x < y);
        }
        assert_eq!(nan(a), f32::from_bits(a).is_nan());
    }
}

#[test]
fn octaves_double_the_frequency() {
    for k in -149..=119 {
        let s = step((69 + 12 * k) as f32);
        assert_eq!(val(s.hz()), 440.0 * (k as f64).exp2(), "octave {}", k);
        assert_eq!(step_from_hz(s.hz()), s.step(), "octave {}", k);
    }
}

#[test]
fn conversions_at_known_steps() {
    // step, hz, mel, perc, scaled perc under the weights 4 and 2
    let rows: [(f32, u32, u32, u32, u32, u32); 5] = [
        (21.0, 0x41dc_0000, 0x422d_b569, 0x3d19_c0f6, 0x415e_b554, 0x3ff7_feb6),
        (60.0, 0x4382_d012, 0x43b2_ef82, 0x3f9a_cb8f, 0x4204_a595, 0x412f_f3a8),
        (69.0, 0x43dc_0000, 0x4409_68e1, 0x4006_88d7, 0x4218_4eea, 0x4167_fa62),
        (100.0, 0x4524_d053, 0x44dc_02c7, 0x4151_923a, 0x4270_a325, 0x4210_c408),
        (127.0, 0x4643_ff6c, 0x454f_1992, 0x427a_ba54, 0x42b1_f50d, 0x429e_5808),
    ];
    for &(s, hz, mel, perc, scaled, scaled_two) in rows.iter() {
        let st = step(s);
        assert_eq!(st.hz(), hz, "hz of {}", s);
        assert_eq!(st.mel(), mel, "mel of {}", s);
        assert_eq!(st.perc(), perc, "perc of {}", s);
        assert_eq!(st.scaled_perc(), scaled, "scaled perc of {}", s);
        assert_eq!(st.scaled_perc_with_weight(2.0f32.to_bits()), scaled_two, "scaled perc of {}", s);
    }
    // Below 20 Hz the share of the range is negative, and has no power.
    assert_eq!(step(0.0).hz(), 0x4102_d012);
    assert_eq!(step(0.0).perc(), 0xbd72_66ed);
    assert!(f32::from_bits(step(0.0).scaled_perc()).is_nan());
    assert_eq!(step_from_hz(1000.0f32.to_bits()), 0x42a6_6d1b);
}

#[test]
fn no_step_for_a_frequency_that_is_not_positive() {
    assert_eq!(step_from_hz(0), f32::NEG_INFINITY.to_bits());
    assert!(f32::from_bits(step_from_hz((-440.0f32).to_bits())).is_nan());
    assert!(f32::from_bits(step_from_hz(f32::NAN.to_bits())).is_nan());
    assert_eq!(step_from_hz(f32::INFINITY.to_bits()), f32::INFINITY.to_bits());
}
