use pitch_calc::{Letter, Step};

#[test]
fn reference_pitch() {
    let a4 = Step(69.0f32.to_bits());
    assert_eq!(f32::from_bits(a4.hz()), 440.0);
    assert_eq!(a4.letter(), Letter::A);
    assert_eq!(a4.octave(), 4);
}
