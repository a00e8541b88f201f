use midpoint_foundry::algorithms::ranges::{
    baseline_fits_check, circle_decision_fits_check, circle_fits_check,
    ellipse_decision_fits_check, ellipse_fits_check, line_fits_check, own_fill_fits_check,
    roland_fill_fits_check, virtual_fill_fits_check,
};

#[test]
fn circle_range_checks() {
    assert!(circle_fits_check(0, 0, 15));
    assert!(circle_fits_check(0, 0, -3));
    assert!(!circle_fits_check(i32::MAX, 0, 1));
    assert!(!circle_fits_check(0, 0, 0x1000_0000));
    assert!(baseline_fits_check(0, 0, 32767));
    assert!(!baseline_fits_check(0, 0, 32768));
    assert!(!baseline_fits_check(0, i32::MIN, 1));
    assert!(circle_decision_fits_check(0, 0, 5, 3, 4));
    assert!(!circle_decision_fits_check(0, 0, 5, i32::MAX, 0));
    assert!(!circle_decision_fits_check(i32::MIN, 0, 5, i32::MAX, 0));
    assert!(circle_decision_fits_check(0, 0, 40000, 0, 0));
    assert!(!circle_decision_fits_check(0, 0, 50000, 0, 0));
}

#[test]
fn ellipse_range_checks() {
    assert!(ellipse_fits_check(0, 0, 30, 20));
    assert!(ellipse_fits_check(0, 0, -30, 20));
    assert!(!ellipse_fits_check(0, 0, 46341, 1));
    assert!(!ellipse_fits_check(0, 0, 2000, 2000));
    assert!(ellipse_decision_fits_check(0, 0, 3, 2, 3, 0));
    assert!(!ellipse_decision_fits_check(0, 0, i32::MAX, i32::MAX, i32::MAX, 0));
    assert!(!ellipse_decision_fits_check(i32::MIN, 0, 3, 2, i32::MAX, 0));
}

#[test]
fn fill_range_checks() {
    assert!(roland_fill_fits_check(0, 0, 30, 20));
    assert!(roland_fill_fits_check(0, 0, -5, 3));
    assert!(!roland_fill_fits_check(0, 0, 0x10_0001, 1));
    assert!(!roland_fill_fits_check(i32::MAX, 0, 5, 5));
    assert!(own_fill_fits_check(0, 0, 30, 20));
    assert!(roland_fill_fits_check(i32::MAX - 5, 0, 5, 0));
    assert!(!own_fill_fits_check(i32::MAX - 5, 0, 5, 0));
    assert!(virtual_fill_fits_check(0, 0, 30, 20));
    assert!(!virtual_fill_fits_check(0, 0, 46340, 1));
    assert!(!virtual_fill_fits_check(i32::MIN, 0, 2, 2));
}

#[test]
fn line_range_checks() {
    assert!(line_fits_check(0, 0, 10, 10));
    assert!(line_fits_check(-100, 50, 100, -50));
    assert!(!line_fits_check(-0x2000_0000, 0, 0, 0));
    assert!(!line_fits_check(0, i32::MIN, 0, i32::MAX));
}
