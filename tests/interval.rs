use stn::Interval;

/// These tests count in tenths, so that the fractional bounds are whole.
fn tenths(x: f64) -> i64 {
    (x * 10.0).round() as i64
}

fn iv(lower: f64, upper: f64) -> Interval {
    Interval::new(tenths(lower), tenths(upper))
}

struct Case {
    in1: Interval,
    in2: Interval,
    out: Interval,
}

fn add_cases() -> Vec<Case> {
    vec![
        Case { in1: iv(1., 1.), in2: iv(2., 2.), out: iv(3., 3.) },
        Case { in1: iv(0., 0.), in2: iv(2., 2.), out: iv(2., 2.) },
        Case { in1: iv(1.5, 1.5), in2: iv(2., 2.), out: iv(3.5, 3.5) },
    ]
}

fn sub_cases() -> Vec<Case> {
    vec![
        Case { in1: iv(2., 2.), in2: iv(1., 1.), out: iv(1., 1.) },
        Case { in1: iv(2., 2.), in2: iv(2., 2.), out: iv(0., 0.) },
        Case { in1: iv(2., 2.), in2: iv(1.5, 1.5), out: iv(0.5, 0.5) },
    ]
}

fn union_cases() -> Vec<Case> {
    vec![
        Case { in1: iv(1., 3.), in2: iv(2., 4.), out: iv(2., 3.) },
        Case { in1: iv(0., 10.1), in2: iv(1., 12.), out: iv(1., 10.1) },
    ]
}

#[test]
fn test_interval_add() {
    for case in add_cases().iter() {
        let res = case.in1.add(case.in2);
        assert_eq!(
            case.out,
            res,
            "{} + {} == {}",
            case.in1.to_string(),
            case.in2.to_string(),
            case.out.to_string()
        );
    }
}

#[test]
fn test_interval_add_assign() {
    for case in add_cases().iter_mut() {
        case.in1.add_assign(case.in2);
        assert_eq!(
            case.out,
            case.in1,
            "{} += {} == {}",
            case.in1.to_string(),
            case.in2.to_string(),
            case.out.to_string()
        );
    }
}

#[test]
fn test_interval_sub() {
    for case in sub_cases().iter() {
        let res = case.in1.sub(case.in2);
        assert_eq!(
            case.out,
            res,
            "{} - {} == {}",
            case.in1.to_string(),
            case.in2.to_string(),
            case.out.to_string()
        );
    }
}

#[test]
fn test_interval_sub_assign() {
    for case in sub_cases().iter_mut() {
        case.in1.sub_assign(case.in2);
        assert_eq!(
            case.out,
            case.in1,
            "{} -= {} == {}",
            case.in1.to_string(),
            case.in2.to_string(),
            case.out.to_string()
        );
    }
}

#[test]
fn test_interval_union() {
    for case in union_cases().iter() {
        let res = case.in1.bitxor(case.in2);
        assert_eq!(
            case.out,
            res,
            "{} ^ {} == {}",
            case.in1.to_string(),
            case.in2.to_string(),
            case.out.to_string()
        );
    }
}

#[test]
fn test_interval_union_assign() {
    for case in union_cases().iter_mut() {
        case.in1.bitxor_assign(case.in2);
        assert_eq!(
            case.out,
            case.in1,
            "{} ^= {} == {}",
            case.in1.to_string(),
            case.in2.to_string(),
            case.out.to_string()
        );
    }
}

#[test]
fn interval_negation() {
    assert_eq!(Interval::new(-20, -10), Interval::new(10, 20).neg());
    assert_eq!(Interval::new(3, 7), Interval::new(3, 7).neg().neg());
}

#[test]
fn interval_accessors_and_default() {
    let a = Interval::new(4, 9);
    assert_eq!(4, a.lower());
    assert_eq!(9, a.upper());
    assert_eq!(Interval::new(0, 0), Interval::default());
}

#[test]
fn interval_union_is_commutative() {
    let a = Interval::new(1, 30);
    let b = Interval::new(5, 12);
    assert_eq!(a.bitxor(b), b.bitxor(a));
    assert_eq!(Interval::new(5, 12), a.bitxor(b));
}

#[test]
fn interval_add_is_associative_and_commutative() {
    let a = Interval::new(1, 2);
    let b = Interval::new(-5, 7);
    let c = Interval::new(10, 40);
    assert_eq!(a.add(b).add(c), a.add(b.add(c)));
    assert_eq!(a.add(b), b.add(a));
    assert_eq!(Interval::new(6, 49), a.add(b).add(c));
}

#[test]
fn interval_unordered_bounds_are_kept() {
    let a = Interval::new(9, 2);
    assert_eq!(9, a.lower());
    assert_eq!(2, a.upper());
}

#[test]
fn interval_text() {
    assert_eq!("[-15, 20]", Interval::new(-15, 20).to_string());
    assert_eq!("[0, 1234567]", Interval::new(0, 1234567).to_string());
    assert_eq!(
        "[-9223372036854775808, 9223372036854775807]",
        Interval::new(i64::MIN, i64::MAX).to_string()
    );
}
