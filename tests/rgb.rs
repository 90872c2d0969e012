use quadimage::rgb::{Zero, RGB};

#[test]
fn channel_arithmetic() {
    let a = RGB::new(10, 200, 7);
    let b = RGB::new(3, 50, 7);
    assert_eq!(a.checked_add(b), Some(RGB::new(13, 250, 14)));
    assert_eq!(a.sub(b), RGB::new(7, 150, 0));
    assert_eq!(a.div(3), RGB::new(3, 66, 2));
    assert_eq!(a.comp_prod(b), RGB::new(30, 10000, 49));
    assert_eq!(RGB::zero(), RGB::new(0, 0, 0));
}

#[test]
fn checked_add_reports_overflow() {
    let a = RGB::new(0, u64::MAX, 0);
    assert_eq!(a.checked_add(RGB::new(0, 1, 0)), None);
    assert_eq!(a.checked_add(RGB::new(5, 0, 5)), Some(RGB::new(5, u64::MAX, 5)));
}
