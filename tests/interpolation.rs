use coots::interpolation::{Interpolated, Zero, MIN_INTERPOLATION_TIME};

#[test]
fn test_interpolation() {
    let mut i = Interpolated::new(0, 1000);
    assert!(i.get() == 0);
    assert!(i.get_derivative() == 1000);
    assert!(i.can_server_update(1000, 1000));
    i.server_update(1000, 1000);
    assert!(i.get() == 0);
    assert!(i.get_derivative() == 1000);
    i.update(MIN_INTERPOLATION_TIME);
    assert!(i.get() == 1000);
    assert!(i.get_derivative() == 1000);
    i.update(-MIN_INTERPOLATION_TIME / 2);
    assert!(i.get() == 500);
    assert!(i.get_derivative() == 29_500);
}

#[test]
fn smoother_keeps_position_and_velocity_across_a_report() {
    let mut i = Interpolated::new(2000, -300);
    i.update(40);
    let p = i.get();
    let v = i.get_derivative();
    assert_eq!(p, 2000 - 12);
    assert_eq!(v, -300);
    i.server_update(5000, 700);
    assert_eq!(i.get(), p);
    assert_eq!(i.get_derivative(), v);
    i.update(60);
    assert_eq!(i.get(), 5000);
    assert_eq!(i.get_derivative(), 700);
}

#[test]
fn smoother_widens_the_blend_after_a_long_gap() {
    let mut i = Interpolated::new(0, 0);
    i.update(200);
    i.server_update(3000, 0);
    i.update(150);
    assert!(i.get() < 3000);
    i.update(150);
    assert_eq!(i.get(), 3000);
    i.update(1000);
    assert_eq!(i.get(), 3000);
    assert_eq!(i.get_derivative(), 0);
}

#[test]
fn smoother_teleports() {
    let mut i = Interpolated::new(0, 1000);
    i.update(30);
    i.teleport(-4000, 0);
    assert_eq!(i.get(), -4000);
    assert_eq!(i.get_derivative(), 0);
}

#[test]
fn smoother_refuses_reports_out_of_range() {
    let i = Interpolated::new(0, 0);
    assert!(!i.can_server_update(i64::MAX, 0));
    assert!(!i.can_server_update(0, i64::MIN));
    assert!(i.can_server_update(1 << 40, -(1 << 40)));
}

#[test]
fn zero_values() {
    assert_eq!(<i64 as Zero>::ZERO, 0);
    assert_eq!(<i32 as Zero>::ZERO, 0);
}
