use pitch_calc::Step;
use std::cmp::Ordering;

fn step(v: f32) -> Step {
    Step(v.to_bits())
}

fn value(s: Step) -> f32 {
    f32::from_bits(s.step())
}

#[test]
fn operators_on_whole_steps() {
    assert_eq!(step(3.0) + step(4.0), step(7.0));
    assert_eq!(step(5.0) - step(2.0), step(3.0));
    assert_eq!(step(2.0) * step(3.0), step(6.0));
    assert_eq!(-step(2.0), step(-2.0));
    assert_eq!(step(7.0) / step(2.0), step(3.5));
    assert_eq!(step(7.0) % step(2.0), step(1.0));
    assert_eq!(step(-7.0) % step(2.0), step(-1.0));
}

#[test]
fn operators_give_exact_patterns() {
    assert_eq!((step(3.0) + step(4.0)).step(), 7.0f32.to_bits());
    assert_eq!((step(0.1) + step(0.2)).step(), (0.1f32 + 0.2f32).to_bits());
    assert_eq!((step(1.0) / step(3.0)).step(), (1.0f32 / 3.0f32).to_bits());
    assert_eq!((step(1.0e-30) * step(1.0e-30)).step(), (1.0e-30f32 * 1.0e-30f32).to_bits());
    assert_eq!((step(5.5) % step(1.25)).step(), (5.5f32 % 1.25f32).to_bits());
    assert_eq!((-step(0.0)).step(), 0x8000_0000);
}

#[test]
fn division_by_zero_gives_infinity() {
    assert_eq!(value(step(1.0) / step(0.0)), f32::INFINITY);
    assert_eq!(value(step(-1.0) / step(0.0)), f32::NEG_INFINITY);
    assert_eq!(value(step(1.0) / step(-0.0)), f32::NEG_INFINITY);
    assert!(value(step(0.0) / step(0.0)).is_nan());
    assert!(value(step(1.0) % step(0.0)).is_nan());
    assert!(value(step(f32::INFINITY) % step(2.0)).is_nan());
    assert_eq!(value(step(3.0) % step(f32::INFINITY)), 3.0);
}

#[test]
fn overflow_gives_infinity() {
    assert_eq!(value(step(f32::MAX) + step(f32::MAX)), f32::INFINITY);
    assert_eq!(value(step(f32::MAX) * step(2.0)), f32::INFINITY);
    assert_eq!(value(step(-f32::MAX) * step(2.0)), f32::NEG_INFINITY);
    assert!(value(step(f32::INFINITY) - step(f32::INFINITY)).is_nan());
    assert!(value(step(f32::INFINITY) * step(0.0)).is_nan());
}

#[test]
fn ties_round_to_even() {
    // 2^24 + 1 lies halfway between 2^24 and 2^24 + 2.
    assert_eq!(step(16777216.0) + step(1.0), step(16777216.0));
    assert_eq!(step(16777218.0) + step(1.0), step(16777220.0));
    assert_eq!(Step::from(16777217u32), step(16777216.0));
    assert_eq!(Step::from(16777219u32), step(16777220.0));
}

#[test]
fn zeros_are_equal_and_keep_their_sign() {
    assert_eq!(step(0.0), step(-0.0));
    assert_eq!((step(-0.0) + step(-0.0)).step(), 0x8000_0000);
    assert_eq!((step(0.0) + step(-0.0)).step(), 0);
    assert_eq!((step(2.0) - step(2.0)).step(), 0);
    assert_eq!((step(-2.0) * step(0.0)).step(), 0x8000_0000);
}

#[test]
fn order_is_that_of_the_values() {
    assert!(step(1.0) < step(2.0));
    assert!(step(-2.0) < step(-1.0));
    assert!(step(-1.0) < step(0.0));
    assert!(step(-0.0) <= step(0.0));
    assert!(step(0.0) >= step(-0.0));
    assert!(step(f32::NEG_INFINITY) < step(-f32::MAX));
    assert!(step(f32::MAX) < step(f32::INFINITY));
    assert!(step(1.0e-45) > step(0.0));
    assert_eq!(step(1.0).partial_cmp(&step(2.0)), Some(Ordering::Less));
    assert_eq!(step(2.0).partial_cmp(&step(1.0)), Some(Ordering::Greater));
    assert_eq!(step(2.0).partial_cmp(&step(2.0)), Some(Ordering::Equal));
    assert_eq!(step(1.0).cmp(&step(2.0)), Ordering::Less);
    assert_eq!(step(2.0).cmp(&step(1.0)), Ordering::Greater);
    assert_eq!(step(0.0).cmp(&step(-0.0)), Ordering::Equal);
}

#[test]
fn exactly_one_order_holds() {
    let values = [-3.5f32, -0.0, 0.0, 1.0e-40, 1.0, 69.0, 127.0, f32::INFINITY, f32::NEG_INFINITY];
    for &a in values.iter() {
        for &b in values.iter() {
            let (x, y) = (step(a), step(b));
            let holds = [x < y, x == y, x > y];
            assert_eq!(holds.iter().filter(|&&h| h).count(), 1, "{} against {}", a, b);
            assert_eq!(x < y, a < b);
            assert_eq!(x == y, a == b);
        }
    }
}

#[test]
fn nan_is_not_ordered() {
    let nan = step(f32::NAN);
    assert_eq!(nan.partial_cmp(&step(1.0)), None);
    assert_eq!(step(1.0).partial_cmp(&nan), None);
    assert_eq!(nan.partial_cmp(&nan), None);
    assert!(nan != nan);
    assert!(!(nan < step(1.0)) && !(nan > step(1.0)) && !(nan == step(1.0)));
}
