use breaky::number::{le32, le64, lt32, lt64, nan32, nan64, Num32, Num64, Range32, Range64};

#[test]
fn order_of_bits_is_the_order_of_numbers() {
    let values = [
        f32::NEG_INFINITY, -3.5, -1.0, -1e-40, -0.0, 0.0, 1e-40, 0.2, 1.0, 800.0, f32::INFINITY, f32::NAN,
    ];
    for a in values {
        for b in values {
            assert_eq!(lt32(a.to_bits(), b.to_bits()), a < b);
            assert_eq!(le32(a.to_bits(), b.to_bits()), a <= b);
            let (c, d) = (a as f64, b as f64);
            assert_eq!(lt64(c.to_bits(), d.to_bits()), c < d);
            assert_eq!(le64(c.to_bits(), d.to_bits()), c <= d);
        }
        assert_eq!(nan32(a.to_bits()), a.is_nan());
        assert_eq!(nan64((a as f64).to_bits()), a.is_nan());
    }
}

#[test]
fn ranges_hold_their_ends_or_not() {
    let closed = Range32 { least: 0, with_least: true, greatest: Some(1.0f32.to_bits()) };
    assert!(closed.contains(0));
    assert!(closed.contains(1.0f32.to_bits()));
    assert!(!closed.contains(1.0000001f32.to_bits()));
    assert!(!closed.contains((-0.1f32).to_bits()));
    assert!(!closed.contains(f32::NAN.to_bits()));
    let open = Range64 {
        least: 0,
        with_least: false,
        greatest: Some(1.0f64.to_bits()),
        with_greatest: false,
    };
    assert!(!open.contains(0));
    assert!(open.contains(0.5f64.to_bits()));
    assert!(!open.contains(1.0f64.to_bits()));
}

#[test]
fn numbers_are_copied_whole() {
    let a = Num32 { bits: 7, text: "seven".to_string() };
    let b = a.clone();
    assert_eq!((b.bits, b.text.as_str()), (7, "seven"));
    let c = Num64 { bits: 8, single: 9, text: "eight".to_string() };
    let d = c.clone();
    assert_eq!((d.bits, d.single, d.text.as_str()), (8, 9, "eight"));
}
