use challenge_planner::ord_sub::OrdSub;

fn key(value: f32) -> OrdSub {
    OrdSub::new(value.to_bits()).unwrap()
}

#[test]
fn test_new_refuses_what_is_no_number() {
    assert!(OrdSub::new(f32::NAN.to_bits()).is_none());
    assert!(OrdSub::new((-f32::NAN).to_bits()).is_none());
    assert!(OrdSub::new(0x7f80_0001).is_none());
    assert!(OrdSub::new(0xff80_0001).is_none());
    assert!(OrdSub::new(0x7fff_ffff).is_none());
    assert!(OrdSub::new(0xffff_ffff).is_none());
    assert!(OrdSub::new((0.0f32 / 0.0f32).to_bits()).is_none());
}

#[test]
fn test_new_keeps_the_pattern() {
    for value in [0.0f32, -0.0, 1.0, -1.0, 1e-6, f32::MAX, f32::MIN, f32::INFINITY, f32::NEG_INFINITY, f32::MIN_POSITIVE] {
        let number = OrdSub::new(value.to_bits()).unwrap();
        assert_eq!(number.bits(), value.to_bits());
        assert_eq!(f32::from_bits(number.bits()).to_bits(), value.to_bits());
    }
    assert_eq!(OrdSub::zero().bits(), 0.0f32.to_bits());
    assert_eq!(OrdSub::greatest().bits(), f32::MAX.to_bits());
}

#[test]
fn test_order_is_that_of_the_numbers() {
    let values = [
        f32::NEG_INFINITY,
        f32::MIN,
        -4.0943,
        -1.0,
        -1e-6,
        -f32::MIN_POSITIVE,
        -1e-45,
        -0.0,
        0.0,
        1e-45,
        f32::MIN_POSITIVE,
        1e-6,
        0.5,
        1.0,
        1.0000001,
        f32::MAX,
        f32::INFINITY,
    ];
    for a in values {
        for b in values {
            assert_eq!(key(a) < key(b), a < b, "{} < {}", a, b);
            assert_eq!(key(a) <= key(b), a <= b, "{} <= {}", a, b);
            assert_eq!(key(a) > key(b), a > b, "{} > {}", a, b);
            assert_eq!(key(a) >= key(b), a >= b, "{} >= {}", a, b);
            assert_eq!(key(a) == key(b), a == b, "{} == {}", a, b);
            assert_eq!(key(a).partial_cmp(&key(b)), a.partial_cmp(&b));
        }
    }
}

#[test]
fn test_place() {
    assert_eq!(key(0.0).place(), 0);
    assert_eq!(key(-0.0).place(), 0);
    assert_eq!(key(1.0).place(), 0x3f80_0000);
    assert_eq!(key(-1.0).place(), -0x3f80_0000);
    assert_eq!(key(f32::INFINITY).place(), 0x7f80_0000);
    assert_eq!(key(f32::NEG_INFINITY).place(), -0x7f80_0000);
}
