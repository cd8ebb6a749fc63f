use dma::lcm;

fn test_lcm(a: i64, b: i64, res: i64) {
    assert_eq!(lcm(a, b), res);
    assert_eq!(lcm(-a, b), res);
    assert_eq!(lcm(a, -b), res);
    assert_eq!(lcm(-a, -b), res);
    assert_eq!(lcm(b, a), res);
    assert_eq!(lcm(-b, a), res);
    assert_eq!(lcm(b, -a), res);
    assert_eq!(lcm(-b, -a), res);
}

#[test]
fn lcm_0_0_0() {
    test_lcm(0, 0, 0);
}

#[test]
fn lcm_0_1_0() {
    test_lcm(1, 0, 0);
}

#[test]
fn lcm_0_2_0() {
    test_lcm(2, 0, 0);
}

#[test]
fn lcm_0_7_0() {
    test_lcm(7, 0, 0);
}

#[test]
fn lcm_1_1_1() {
    test_lcm(1, 1, 1);
}

#[test]
fn lcm_2_2_2() {
    test_lcm(2, 2, 2);
}

#[test]
fn lcm_2_1_2() {
    test_lcm(1, 2, 2);
}

#[test]
fn lcm_3_3_3() {
    test_lcm(3, 3, 3);
}

#[test]
fn lcm_3_1_3() {
    test_lcm(1, 3, 3);
}

#[test]
fn lcm_4_1_4() {
    test_lcm(1, 4, 4);
}

#[test]
fn lcm_4_2_4() {
    test_lcm(2, 4, 4);
}

#[test]
fn lcm_4_4_4() {
    test_lcm(4, 4, 4);
}

#[test]
fn lcm_6_1_6() {
    test_lcm(1, 6, 6);
}

#[test]
fn lcm_6_2_3() {
    test_lcm(2, 3, 6);
}

#[test]
fn lcm_6_6_6() {
    test_lcm(6, 6, 6);
}

#[test]
fn lcm_10_1_10() {
    test_lcm(1, 10, 10);
}

#[test]
fn lcm_10_2_5() {
    test_lcm(2, 5, 10);
}

#[test]
fn lcm_10_10_10() {
    test_lcm(10, 10, 10);
}

#[test]
fn lcm_12_1_12() {
    test_lcm(1, 12, 12);
}

#[test]
fn lcm_12_3_4() {
    test_lcm(3, 4, 12);
}

#[test]
fn lcm_12_12_12() {
    test_lcm(12, 12, 12);
}
