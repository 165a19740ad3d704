use treegen::fixed::{cos, degrees_to_radians, div_floor, exp_neg, normalize_angle, rem_floor, sin};

#[test]
fn floor_division_rounds_down() {
    assert_eq!(div_floor(7, 2), 3);
    assert_eq!(div_floor(-7, 2), -4);
    assert_eq!(div_floor(-8, 2), -4);
    assert_eq!(rem_floor(-7, 3), 2);
    assert_eq!(rem_floor(7, 3), 1);
}

#[test]
fn sine_and_cosine_at_quarter_turns() {
    assert_eq!(sin(0), 0);
    assert_eq!(sin(1571), 1_000_000);
    assert_eq!(sin(-1571), -1_000_000);
    assert_eq!(cos(0), 1_000_000);
    assert_eq!(cos(3142), -1_000_000);
    assert_eq!(sin(6284 + 1571), 1_000_000);
}

#[test]
fn sine_is_close_to_the_true_value() {
    // sin(0.5) = 0.479426
    let s = sin(500);
    assert!((s - 479_426).abs() < 2_000);
}

#[test]
fn headings_wrap_into_half_open_range() {
    assert_eq!(normalize_angle(3142), -3142);
    assert_eq!(normalize_angle(-3142), -3142);
    assert_eq!(normalize_angle(6284 + 10), 10);
    assert_eq!(normalize_angle(-10), -10);
}

#[test]
fn degrees_convert_to_milliradians() {
    assert_eq!(degrees_to_radians(180_000), 3142);
    assert_eq!(degrees_to_radians(90_000), 1571);
    assert_eq!(degrees_to_radians(-10_000), -175);
}

#[test]
fn decay_table_and_interpolation() {
    assert_eq!(exp_neg(0), 1_000_000);
    assert_eq!(exp_neg(1000), 367_879);
    assert_eq!(exp_neg(500), 683_940);
    assert_eq!(exp_neg(15_000), 0);
    assert_eq!(exp_neg(u64::MAX), 0);
}
