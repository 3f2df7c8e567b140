use pitch_calc::Step;

fn step(v: f32) -> Step {
    Step(v.to_bits())
}

#[test]
fn test_from_integer() {
    assert_eq!(Step::from(60u8), step(60.0));
    assert_eq!(Step::from(60u16), step(60.0));
    assert_eq!(Step::from(60u32), step(60.0));
    assert_eq!(Step::from(60u64), step(60.0));
    assert_eq!(Step::from(60i8), step(60.0));
    assert_eq!(Step::from(60i16), step(60.0));
    assert_eq!(Step::from(60i32), step(60.0));
    assert_eq!(Step::from(60i64), step(60.0));
}

#[test]
fn test_into_integer() {
    assert_eq!(60u8, step(60.0).into());
    assert_eq!(60u16, step(60.0).into());
    assert_eq!(60u32, step(60.0).into());
    assert_eq!(60u64, step(60.0).into());
    assert_eq!(60i8, step(60.0).into());
    assert_eq!(60i16, step(60.0).into());
    assert_eq!(60i32, step(60.0).into());
    assert_eq!(60i64, step(60.0).into());
}
