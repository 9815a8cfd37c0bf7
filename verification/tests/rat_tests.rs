use double_auction::rat::Ratio;

#[test]
fn ratio_new_rejects_zero_denominator() {
    assert!(Ratio::new(1, 0).is_none());
    assert!(Ratio::new(0, 1).is_some());
}

#[test]
fn ratio_add_reduces() {
    let a = Ratio::new(1, 4).unwrap();
    let b = Ratio::new(1, 4).unwrap();
    let c = a.add(b).unwrap();
    assert_eq!(c, Ratio::new(1, 2).unwrap());
}

#[test]
fn ratio_ordering_is_exact() {
    let a = Ratio::new(1, 3).unwrap();
    let b = Ratio::new(2, 6).unwrap();
    assert!(a.val_eq(b));
    assert!(!a.lt(b));
    let c = Ratio::new(1, 2).unwrap();
    assert!(a.lt(c));
    assert!(a.le(c));
}

#[test]
fn ratio_mul_div_round_trip() {
    let a = Ratio::new(3, 7).unwrap();
    let b = Ratio::new(2, 5).unwrap();
    let p = a.mul(b).unwrap();
    assert_eq!(p, Ratio::new(6, 35).unwrap());
    let q = p.div(b).unwrap();
    assert_eq!(q, a);
}

#[test]
fn ratio_sub_and_half() {
    let a = Ratio::new(5, 6).unwrap();
    let b = Ratio::new(1, 3).unwrap();
    assert_eq!(a.sub(b).unwrap(), Ratio::new(1, 2).unwrap());
    assert_eq!(a.half().unwrap(), Ratio::new(5, 12).unwrap());
}
