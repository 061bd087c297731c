use raytrace::interval::Interval;

#[test]
fn interval_default() {
    let i = Interval::default();
    assert_eq!(i, Interval { min: i64::MIN, max: i64::MAX });
}

#[test]
fn interval_new() {
    let i = Interval::new(-1000, 1000);
    assert_eq!(i, Interval { min: -1000, max: 1000 });
}

#[test]
fn interval_surrounds() {
    let i = Interval::new(-1000, 1000);
    assert_eq!(true, i.surrounds(0));
    assert_eq!(false, i.surrounds(-1000));
    assert_eq!(false, i.surrounds(1000));
    assert_eq!(false, i.surrounds(1100));
    assert_eq!(false, i.surrounds(-1100));
}

#[test]
fn interval_contains() {
    let i = Interval::new(-1000, 1000);
    assert_eq!(true, i._contains(0));
    assert_eq!(true, i._contains(-1000));
    assert_eq!(true, i._contains(1000));
    assert_eq!(false, i._contains(1100));
    assert_eq!(false, i._contains(-1100));
}

#[test]
fn interval_surrounds_one_below_and_above() {
    let i = Interval::new(-1000, 1000);
    assert!(i.surrounds(-999));
    assert!(i.surrounds(999));
    assert!(!i.surrounds(-1001));
    assert!(!i.surrounds(1001));
}

#[test]
fn interval_clamp_and_size() {
    let i = Interval::new(0, 999);
    assert_eq!(i.clamp(-5), 0);
    assert_eq!(i.clamp(500), 500);
    assert_eq!(i.clamp(2000), 999);
    assert_eq!(i.size(), 999);
}

#[test]
fn interval_union() {
    let a = Interval::new(-5, 10);
    let b = Interval::new(-2, 20);
    let u = Interval::from_intervals(&a, &b);
    assert_eq!(u, Interval { min: -5, max: 20 });
    let e = Interval::empty();
    let v = Interval::from_intervals(&e, &a);
    assert_eq!(v, a);
}
