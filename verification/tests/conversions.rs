use pitch_calc::exp2::exp2;
use pitch_calc::log2::log2;
use pitch_calc::power::power;
use pitch_calc::{Letter, Step, DEFAULT_SCALE_WEIGHT};

fn step(v: f32) -> Step {
    Step(v.to_bits())
}

fn val(bits: u32) -> f64 {
    f32::from_bits(bits) as f64
}

fn close(got: f64, want: f64, rel: f64) -> bool {
    (got - want).abs() <= rel * want.abs().max(1e-30)
}

#[test]
fn exp2_is_close_to_the_real_power() {
    let mut x: f32 = -140.0;
    while x < 127.9 {
        let got = val(exp2(x.to_bits()));
        let want = (x as f64).exp2();
        assert!(close(got, want, 2.0e-7), "exp2({}) = {} vs {}", x, got, want);
        x += 0.37;
    }
}

#[test]
fn exp2_of_whole_numbers_is_exact() {
    for n in -149..128 {
        let got = val(exp2((n as f32).to_bits()));
        assert_eq!(got, (n as f64).exp2(), "exp2({})", n);
    }
}

#[test]
fn exp2_at_the_edges() {
    assert_eq!(exp2(f32::INFINITY.to_bits()), f32::INFINITY.to_bits());
    assert_eq!(exp2(f32::NEG_INFINITY.to_bits()), 0);
    assert_eq!(exp2(128.0f32.to_bits()), f32::INFINITY.to_bits());
    assert_eq!(exp2(1000.0f32.to_bits()), f32::INFINITY.to_bits());
    assert_eq!(exp2((-1000.0f32).to_bits()), 0);
    assert_eq!(exp2((-151.0f32).to_bits()), 0);
    assert!(f32::from_bits(exp2(f32::NAN.to_bits())).is_nan());
    assert_eq!(exp2(0), 1.0f32.to_bits());
    assert_eq!(exp2(0x8000_0000), 1.0f32.to_bits());
}

#[test]
fn log2_is_close_to_the_real_logarithm() {
    let mut x: f32 = 1.0e-30;
    while x < 1.0e30 {
        let got = val(log2(x.to_bits()));
        let want = (x as f64).log2();
        assert!((got - want).abs() <= 1.0e-6 * want.abs().max(1.0e-2), "log2({}) = {} vs {}", x, got, want);
        x *= 1.7;
    }
}

#[test]
fn log2_of_powers_of_two_is_exact() {
    for n in -149..128 {
        let x = (n as f64).exp2() as f32;
        assert_eq!(val(log2(x.to_bits())), n as f64, "log2(2^{})", n);
    }
}

#[test]
fn log2_at_the_edges() {
    assert_eq!(log2(0), f32::NEG_INFINITY.to_bits());
    assert_eq!(log2(0x8000_0000), f32::NEG_INFINITY.to_bits());
    assert_eq!(log2(f32::INFINITY.to_bits()), f32::INFINITY.to_bits());
    assert!(f32::from_bits(log2((-1.0f32).to_bits())).is_nan());
    assert!(f32::from_bits(log2(f32::NAN.to_bits())).is_nan());
    assert_eq!(log2(1.0f32.to_bits()), 0);
}

#[test]
fn power_follows_its_rules() {
    let three = 3.0f32.to_bits();
    assert_eq!(power(three, 1.0f32.to_bits()), three);
    assert_eq!(power(three, 0), 1.0f32.to_bits());
    assert_eq!(power(1.0f32.to_bits(), f32::INFINITY.to_bits()), 1.0f32.to_bits());
    assert!(close(val(power(three, 2.0f32.to_bits())), 9.0, 1.0e-6));
    assert!(close(val(power(16.0f32.to_bits(), 0.25f32.to_bits())), 2.0, 1.0e-6));
    assert!(f32::from_bits(power((-2.0f32).to_bits(), 0.5f32.to_bits())).is_nan());
}

#[test]
fn hz_follows_the_pitch_law() {
    assert_eq!(val(step(69.0).hz()), 440.0);
    assert_eq!(val(step(81.0).hz()), 880.0);
    assert_eq!(val(step(57.0).hz()), 220.0);
    assert_eq!(val(step(9.0).hz()), 13.75);
    let mut s: f32 = -50.0;
    while s < 200.0 {
        let got = val(step(s).hz());
        let want = 440.0 * ((s as f64 - 69.0) / 12.0).exp2();
        assert!(close(got, want, 1.0e-6), "hz({}) = {} vs {}", s, got, want);
        s += 0.31;
    }
    assert_eq!(step(69.0).to_hz().hz(), 440.0f32.to_bits());
}

#[test]
fn mel_follows_the_scale() {
    let mut s: f32 = 0.0;
    while s < 140.0 {
        let hz = 440.0 * ((s as f64 - 69.0) / 12.0).exp2();
        let want = 2595.0 * (1.0 + hz / 700.0).log10();
        let got = val(step(s).mel());
        assert!(close(got, want, 2.0e-5), "mel({}) = {} vs {}", s, got, want);
        assert_eq!(step(s).to_mel().mel(), step(s).mel());
        s += 0.53;
    }
}

#[test]
fn perc_spans_the_range_of_hearing() {
    // 20 Hz is step 15.486..., 20 kHz is step 135.076...
    let low = 69.0 + 12.0 * (20.0f64 / 440.0).log2();
    let high = 69.0 + 12.0 * (20000.0f64 / 440.0).log2();
    assert!(val(step(low as f32).perc()).abs() < 1.0e-4);
    assert!((val(step(high as f32).perc()) - 100.0).abs() < 1.0e-3);
    let mut s: f32 = 20.0;
    while s < 136.0 {
        let hz = 440.0 * ((s as f64 - 69.0) / 12.0).exp2();
        let want = 100.0 * (hz - 20.0) / 19980.0;
        let got = val(step(s).perc());
        assert!(close(got, want, 2.0e-5), "perc({}) = {} vs {}", s, got, want);
        assert_eq!(step(s).to_perc().perc(), step(s).perc());
        s += 0.47;
    }
}

#[test]
fn scaled_perc_applies_the_weight() {
    let mut s: f32 = 20.0;
    while s < 136.0 {
        let hz = 440.0 * ((s as f64 - 69.0) / 12.0).exp2();
        let share = (hz - 20.0) / 19980.0;
        for w in [0.5f32, 2.0, 3.0, 4.0, 10.0] {
            let want = 100.0 * share.powf(1.0 / w as f64);
            let got = val(step(s).scaled_perc_with_weight(w.to_bits()));
            assert!(close(got, want, 1.0e-4), "scaled({}, {}) = {} vs {}", s, w, got, want);
        }
        s += 1.3;
    }
}

#[test]
fn scaled_perc_uses_the_default_weight() {
    assert_eq!(DEFAULT_SCALE_WEIGHT, 4.0f32.to_bits());
    for s in [20.0f32, 33.5, 60.0, 69.0, 100.25, 127.0] {
        let st = step(s);
        assert_eq!(st.scaled_perc(), st.scaled_perc_with_weight(DEFAULT_SCALE_WEIGHT));
        let sp = st.to_scaled_perc();
        assert_eq!(sp.scaled_perc(), st.scaled_perc());
        assert_eq!(sp.weight(), DEFAULT_SCALE_WEIGHT);
        let sw = st.to_scaled_perc_with_weight(2.0f32.to_bits());
        assert_eq!(sw.weight(), 2.0f32.to_bits());
        assert_eq!(sw.scaled_perc(), st.scaled_perc_with_weight(2.0f32.to_bits()));
    }
}

#[test]
fn weight_one_leaves_the_percentage() {
    for s in [-10.0f32, 20.0, 33.5, 60.0, 69.0, 100.25, 127.0, 140.0] {
        let st = step(s);
        assert_eq!(st.scaled_perc_with_weight(1.0f32.to_bits()), st.perc());
    }
}

#[test]
fn letter_and_octave_of_known_pitches() {
    assert_eq!(step(69.0).letter_octave(), (Letter::A, 4));
    assert_eq!(step(60.0).letter_octave(), (Letter::C, 4));
    assert_eq!(step(0.0).letter_octave(), (Letter::C, -1));
    assert_eq!(step(127.0).letter_octave(), (Letter::G, 9));
    assert_eq!(step(-1.0).letter_octave(), (Letter::B, -2));
    assert_eq!(step(-12.0).letter_octave(), (Letter::C, -2));
    assert_eq!(step(61.0).letter(), Letter::Csh);
    assert_eq!(step(70.0).letter(), Letter::Ash);
    let lo = step(69.0).to_letter_octave();
    assert_eq!(lo.letter(), Letter::A);
    assert_eq!(lo.octave(), 4);
}

#[test]
fn letter_rounds_halves_up() {
    assert_eq!(step(68.5).letter_octave(), (Letter::A, 4));
    assert_eq!(step(68.49).letter_octave(), (Letter::Gsh, 4));
    assert_eq!(step(69.49).letter_octave(), (Letter::A, 4));
    assert_eq!(step(69.5).letter_octave(), (Letter::Ash, 4));
    assert_eq!(step(-0.5).letter_octave(), (Letter::C, -1));
    assert_eq!(step(-0.51).letter_octave(), (Letter::B, -2));
    assert_eq!(step(-1.5).letter_octave(), (Letter::B, -2));
    assert_eq!(step(f32::NAN).letter_octave(), (Letter::C, -1));
    // Saturation at the ends of thirty-two bits.
    assert_eq!(step(f32::INFINITY).letter_octave(), (Letter::G, 178956969));
    assert_eq!(step(f32::NEG_INFINITY).letter_octave(), (Letter::E, -178956972));
    assert_eq!(step(1.0e20).letter_octave(), (Letter::G, 178956969));
}
