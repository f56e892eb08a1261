use std::cmp::Ordering;

use procon::TotalOrd;

#[test]
fn cmp_follows_the_underlying_order() {
    assert_eq!(TotalOrd(1u32).cmp(&TotalOrd(2u32)), Ordering::Less);
    assert_eq!(TotalOrd(2u32).cmp(&TotalOrd(2u32)), Ordering::Equal);
    assert_eq!(TotalOrd(3u32).cmp(&TotalOrd(2u32)), Ordering::Greater);
    assert_eq!(TotalOrd(-1.5f64).cmp(&TotalOrd(2.25f64)), Ordering::Less);
}

#[test]
fn incomparable_values_compare_as_equal() {
    let nan = f32::NAN;
    assert_eq!(TotalOrd(nan).cmp(&TotalOrd(1.0f32)), Ordering::Equal);
    assert_eq!(TotalOrd(1.0f32).cmp(&TotalOrd(nan)), Ordering::Equal);
    assert_eq!(TotalOrd(nan).cmp(&TotalOrd(nan)), Ordering::Equal);
}

#[test]
fn sorting_floats_by_the_adapted_order() {
    let mut v: Vec<f32> = vec![0.9, 42.0, 42.0, -3.2, 100.0, 42.0];
    v.sort_by(|a, b| TotalOrd(*a).cmp(&TotalOrd(*b)));
    assert_eq!(v, vec![-3.2, 0.9, 42.0, 42.0, 42.0, 100.0]);
}
