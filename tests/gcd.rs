use dma::gcd;

fn test_gcd(a: i64, b: i64, res: i64) {
    assert_eq!(gcd(a, b), res);
    assert_eq!(gcd(-a, b), res);
    assert_eq!(gcd(a, -b), res);
    assert_eq!(gcd(-a, -b), res);
    assert_eq!(gcd(b, a), res);
    assert_eq!(gcd(-b, a), res);
    assert_eq!(gcd(b, -a), res);
    assert_eq!(gcd(-b, -a), res);
}

#[test]
fn gcd_0_0_0() {
    test_gcd(0, 0, 0);
}

#[test]
fn gcd_1_1_0() {
    test_gcd(1, 0, 1);
}

#[test]
fn gcd_1_1_1() {
    test_gcd(1, 1, 1);
}

#[test]
fn gcd_1_1_10() {
    test_gcd(1, 10, 1);
}

#[test]
fn gcd_1_2_3() {
    test_gcd(2, 3, 1);
}

#[test]
fn gcd_1_2_5() {
    test_gcd(2, 5, 1);
}

#[test]
fn gcd_1_18_19() {
    test_gcd(18, 19, 1);
}

#[test]
fn gcd_2_2_6() {
    test_gcd(2, 6, 2);
}

#[test]
fn gcd_2_6_10() {
    test_gcd(6, 10, 2);
}

#[test]
fn gcd_2_10_14() {
    test_gcd(10, 14, 2);
}

#[test]
fn gcd_3_3_6() {
    test_gcd(3, 6, 3);
}

#[test]
fn gcd_3_6_9() {
    test_gcd(6, 9, 3);
}

#[test]
fn gcd_3_9_12() {
    test_gcd(9, 12, 3);
}

#[test]
fn gcd_6_6_12() {
    test_gcd(6, 12, 6);
}

#[test]
fn gcd_6_12_18() {
    test_gcd(12, 18, 6);
}
