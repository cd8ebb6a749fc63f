use dma::{gcd_extended, GcdExtendedResult};

/// The greatest common divisor with the Bézout pair `(x0, y0)`.
#[derive(PartialEq, Debug)]
struct Solution {
    gcd: i64,
    x: i64,
    y: i64,
}

/// Runs the extended algorithm, checks the kernel pair, and keeps the rest.
fn solve(a: i64, b: i64) -> Solution {
    let r: GcdExtendedResult = gcd_extended(a, b);
    assert_eq!(r.x1 * a + r.y1 * b, 0);
    Solution { gcd: r.gcd, x: r.x0, y: r.y0 }
}

fn test_gcd_extended(a: i64, b: i64, res: Solution) {
    assert_eq!(solve(a, b), res);
    assert_eq!(solve(-a, b), Solution { gcd: res.gcd, x: -res.x, y: res.y });
    assert_eq!(solve(a, -b), Solution { gcd: res.gcd, x: res.x, y: -res.y });
    assert_eq!(solve(-a, -b), Solution { gcd: res.gcd, x: -res.x, y: -res.y });
    assert_eq!(solve(b, a), Solution { gcd: res.gcd, x: res.y, y: res.x });
    assert_eq!(solve(-b, a), Solution { gcd: res.gcd, x: -res.y, y: res.x });
    assert_eq!(solve(b, -a), Solution { gcd: res.gcd, x: res.y, y: -res.x });
    assert_eq!(solve(-b, -a), Solution { gcd: res.gcd, x: -res.y, y: -res.x });
}

#[test]
fn gcd_extended_0_0_0() {
    test_gcd_extended(0, 0, Solution { gcd: 0, x: 0, y: 0 });
}

#[test]
fn gcd_extended_1_1_0() {
    test_gcd_extended(1, 0, Solution { gcd: 1, x: 1, y: 0 });
}

#[test]
fn gcd_extended_1_1_1() {
    assert_eq!(solve(1, 1), Solution { gcd: 1, x: 1, y: 0 });
}

#[test]
fn gcd_extended_1_1_10() {
    test_gcd_extended(1, 10, Solution { gcd: 1, x: 1, y: 0 });
}

#[test]
fn gcd_extended_1_2_3() {
    test_gcd_extended(2, 3, Solution { gcd: 1, x: -1, y: 1 });
}

#[test]
fn gcd_extended_1_2_5() {
    test_gcd_extended(2, 5, Solution { gcd: 1, x: -2, y: 1 });
}

#[test]
fn gcd_extended_1_18_19() {
    test_gcd_extended(18, 19, Solution { gcd: 1, x: -1, y: 1 });
}

#[test]
fn gcd_extended_2_2_6() {
    test_gcd_extended(2, 6, Solution { gcd: 2, x: 1, y: 0 });
}

#[test]
fn gcd_extended_2_6_10() {
    test_gcd_extended(6, 10, Solution { gcd: 2, x: 2, y: -1 });
}

#[test]
fn gcd_extended_2_10_14() {
    test_gcd_extended(10, 14, Solution { gcd: 2, x: 3, y: -2 });
}

#[test]
fn gcd_extended_3_3_6() {
    test_gcd_extended(3, 6, Solution { gcd: 3, x: 1, y: 0 });
}

#[test]
fn gcd_extended_3_6_9() {
    test_gcd_extended(6, 9, Solution { gcd: 3, x: -1, y: 1 });
}

#[test]
fn gcd_extended_3_9_12() {
    test_gcd_extended(9, 12, Solution { gcd: 3, x: -1, y: 1 });
}

#[test]
fn gcd_extended_6_6_12() {
    test_gcd_extended(6, 12, Solution { gcd: 6, x: 1, y: 0 });
}

#[test]
fn gcd_extended_6_12_18() {
    test_gcd_extended(12, 18, Solution { gcd: 6, x: -1, y: 1 });
}
