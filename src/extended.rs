//! The extended Euclidean algorithm: the greatest common divisor together
//! with Bézout coefficients and a kernel pair.
use crate::gcd::{gcd_nat, gcd_spec, lemma_gcd_nat_commutes, magnitude};
use vstd::arithmetic::div_mod::{lemma_fundamental_div_mod, lemma_mod_pos_bound};
use vstd::math::abs;
use vstd::prelude::*;

verus! {

/// Bézout data as mathematical integers: `gcd == x0 * a + y0 * b` and
/// `0 == x1 * a + y1 * b` for the arguments `a`, `b` it was computed from.
pub struct Bezout {
    pub gcd: int,
    pub x0: int,
    pub y0: int,
    pub x1: int,
    pub y1: int,
}

/// The same data with the roles of the two arguments exchanged.
pub open spec fn bezout_swapped(r: Bezout) -> Bezout {
    Bezout { gcd: r.gcd, x0: r.y0, y0: r.x0, x1: r.y1, y1: r.x1 }
}

/// The extended recurrence, run until the remainder is zero. `(a0, b0)` are
/// the coefficients of the current `a` and `(a1, b1)` those of the current `b`.
pub open spec fn bezout_loop(a: nat, b: nat, a0: int, a1: int, b0: int, b1: int) -> Bezout
    decreases b,
{
    if b == 0 {
        Bezout { gcd: a as int, x0: a0, y0: b0, x1: a1, y1: b1 }
    } else {
        let q = (a / b) as int;
        bezout_loop(b, a % b, a1, a0 - q * a1, b1, b0 - q * b1)
    }
}

/// The extended algorithm on two nonnegative integers. The zero cases and the
/// case of equal arguments are settled before the recurrence: a zero argument
/// gives the kernel pair `(0, 0)`, two equal positive arguments give `(-1, 1)`.
pub open spec fn bezout_nonneg(a: nat, b: nat) -> Bezout {
    if a == 0 && b == 0 {
        Bezout { gcd: 0, x0: 0, y0: 0, x1: 0, y1: 0 }
    } else if b == 0 {
        Bezout { gcd: a as int, x0: 1, y0: 0, x1: 0, y1: 0 }
    } else if a == 0 {
        Bezout { gcd: b as int, x0: 0, y0: 1, x1: 0, y1: 0 }
    } else if a > b {
        bezout_loop(a, b, 1, 0, 0, 1)
    } else if a < b {
        bezout_swapped(bezout_loop(b, a, 1, 0, 0, 1))
    } else {
        Bezout { gcd: a as int, x0: 1, y0: 0, x1: -1, y1: 1 }
    }
}

/// `-1` for a negative integer, `1` otherwise.
pub open spec fn sign(a: int) -> int {
    if a < 0 {
        -1
    } else {
        1
    }
}

/// The result of the extended algorithm on `a` and `b`: it runs on the
/// magnitudes, then the sign of `a` goes to `x0` and `x1` and the sign of `b`
/// to `y0` and `y1`.
pub open spec fn gcd_extended_spec(a: int, b: int) -> Bezout {
    let r = bezout_nonneg(abs(a), abs(b));
    Bezout {
        gcd: r.gcd,
        x0: sign(a) * r.x0,
        y0: sign(b) * r.y0,
        x1: sign(a) * r.x1,
        y1: sign(b) * r.y1,
    }
}

/// The recurrence keeps both remainders as combinations of `A` and `B`, and
/// ends on the greatest common divisor.
proof fn lemma_bezout_loop(a: nat, b: nat, a0: int, a1: int, b0: int, b1: int, A: int, B: int)
    requires
        a == a0 * A + b0 * B,
        b == a1 * A + b1 * B,
    ensures
        bezout_loop(a, b, a0, a1, b0, b1).gcd == gcd_nat(a, b),
        bezout_loop(a, b, a0, a1, b0, b1).x0 * A + bezout_loop(a, b, a0, a1, b0, b1).y0 * B
            == bezout_loop(a, b, a0, a1, b0, b1).gcd,
        bezout_loop(a, b, a0, a1, b0, b1).x1 * A + bezout_loop(a, b, a0, a1, b0, b1).y1 * B == 0,
    decreases b,
{
    if b != 0 {
        lemma_mod_pos_bound(a as int, b as int);
        lemma_fundamental_div_mod(a as int, b as int);
        let q = (a / b) as int;
        let r = (a % b) as int;
        assert(r == (a0 - q * a1) * A + (b0 - q * b1) * B) by (nonlinear_arith)
            requires
                a == b * q + r,
                a == a0 * A + b0 * B,
                b == a1 * A + b1 * B,
        ;
        lemma_bezout_loop(b, a % b, a1, a0 - q * a1, b1, b0 - q * b1, A, B);
    }
}

/// Bézout's identity and the kernel relation for nonnegative arguments.
proof fn lemma_bezout_nonneg(a: nat, b: nat)
    ensures
        bezout_nonneg(a, b).gcd == gcd_nat(a, b),
        bezout_nonneg(a, b).x0 * a + bezout_nonneg(a, b).y0 * b == bezout_nonneg(a, b).gcd,
        bezout_nonneg(a, b).x1 * a + bezout_nonneg(a, b).y1 * b == 0,
{
    lemma_gcd_nat_commutes(a, b);
    if a == 0 && b == 0 {
    } else if b == 0 {
    } else if a == 0 {
        assert(gcd_nat(b, 0) == b);
    } else if a > b {
        lemma_bezout_loop(a, b, 1, 0, 0, 1, a as int, b as int);
    } else if a < b {
        lemma_bezout_loop(b, a, 1, 0, 0, 1, b as int, a as int);
    } else {
        assert(gcd_nat(a, 0) == a);
        assert(a % a == 0) by (nonlinear_arith)
            requires
                a > 0,
        ;
    }
}

/// The extended algorithm returns the greatest common divisor, coefficients
/// that satisfy Bézout's identity, and a kernel pair.
pub proof fn lemma_gcd_extended_identities(a: int, b: int)
    ensures
        gcd_extended_spec(a, b).gcd == gcd_spec(a, b),
        gcd_extended_spec(a, b).x0 * a + gcd_extended_spec(a, b).y0 * b == gcd_extended_spec(
            a,
            b,
        ).gcd,
        gcd_extended_spec(a, b).x1 * a + gcd_extended_spec(a, b).y1 * b == 0,
{
    let r = bezout_nonneg(abs(a), abs(b));
    lemma_bezout_nonneg(abs(a), abs(b));
    assert(sign(a) * r.x0 * a + sign(b) * r.y0 * b == r.x0 * abs(a) + r.y0 * abs(b))
        by (nonlinear_arith)
        requires
            sign(a) * a == abs(a),
            sign(b) * b == abs(b),
    ;
    assert(sign(a) * r.x1 * a + sign(b) * r.y1 * b == r.x1 * abs(a) + r.y1 * abs(b))
        by (nonlinear_arith)
        requires
            sign(a) * a == abs(a),
            sign(b) * b == abs(b),
    ;
}

/// Negating `a` negates `x0` and `x1` and keeps the rest; negating `b`
/// negates `y0` and `y1` and keeps the rest.
pub proof fn lemma_gcd_extended_sign(a: int, b: int)
    ensures
        gcd_extended_spec(-a, b) == (Bezout {
            gcd: gcd_extended_spec(a, b).gcd,
            x0: -gcd_extended_spec(a, b).x0,
            y0: gcd_extended_spec(a, b).y0,
            x1: -gcd_extended_spec(a, b).x1,
            y1: gcd_extended_spec(a, b).y1,
        }),
        gcd_extended_spec(a, -b) == (Bezout {
            gcd: gcd_extended_spec(a, b).gcd,
            x0: gcd_extended_spec(a, b).x0,
            y0: -gcd_extended_spec(a, b).y0,
            x1: gcd_extended_spec(a, b).x1,
            y1: -gcd_extended_spec(a, b).y1,
        }),
{
}

/// Exchanging the arguments exchanges the coefficient pairs, except when the
/// two arguments have the same nonzero magnitude: then `x0 == 1` and `y0 == 0`
/// in both orders.
pub proof fn lemma_gcd_extended_swap(a: int, b: int)
    requires
        abs(a) != abs(b) || a == 0,
    ensures
        gcd_extended_spec(b, a) == bezout_swapped(gcd_extended_spec(a, b)),
{
}

/// One step of the recurrence on a coefficient pair keeps the pair's signs
/// opposite and its weighted sum with the remainders, and bounds the new
/// coefficient by that sum.
pub(crate) proof fn lemma_coefficient_step(a: int, b: int, q: int, r: int, c0: int, c1: int, m: int)
    requires
        b >= 1,
        q >= 0,
        r >= 0,
        a == q * b + r,
        c0 * c1 <= 0,
        a * abs(c1) + b * abs(c0) == m,
    ensures
        abs(q * c1) <= m,
        abs(c0 - q * c1) <= m,
        c1 * (c0 - q * c1) <= 0,
        b * abs(c0 - q * c1) + r * abs(c1) == m,
{
    let u = abs(c0) as int;
    let v = abs(c1) as int;
    assert(abs(c0 - q * c1) == u + q * v && abs(q * c1) == q * v && c1 * (c0 - q * c1) <= 0)
        by (nonlinear_arith)
        requires
            c0 * c1 <= 0,
            q >= 0,
            u == abs(c0),
            v == abs(c1),
    ;
    assert(b * (u + q * v) + r * v == m && u + q * v <= m && q * v <= m) by (nonlinear_arith)
        requires
            b >= 1,
            q >= 0,
            r >= 0,
            u >= 0,
            v >= 0,
            a == q * b + r,
            a * v + b * u == m,
    ;
}

/// The greatest common divisor of two integers with Bézout coefficients
/// `(x0, y0)` and a kernel pair `(x1, y1)`.
#[derive(PartialEq, Eq, Structural, Debug, Clone, Copy)]
pub struct GcdExtendedResult {
    pub gcd: i64,
    pub x0: i64,
    pub y0: i64,
    pub x1: i64,
    pub y1: i64,
}

impl View for GcdExtendedResult {
    type V = Bezout;

    open spec fn view(&self) -> Bezout {
        Bezout {
            gcd: self.gcd as int,
            x0: self.x0 as int,
            y0: self.y0 as int,
            x1: self.x1 as int,
            y1: self.y1 as int,
        }
    }
}

/// Computes the greatest common divisor of `a` and `b` together with
/// coefficients for Bézout's identity, `gcd == x0 * a + y0 * b`, and a kernel
/// pair, `0 == x1 * a + y1 * b`.
///
/// The pair returned is the one the extended Euclidean recurrence produces
/// (see `gcd_extended_spec`). Neither argument may be `i64::MIN`, whose
/// magnitude has no `i64` value.
pub fn gcd_extended(a: i64, b: i64) -> (r: GcdExtendedResult)
    requires
        a != i64::MIN,
        b != i64::MIN,
    ensures
        r@ == gcd_extended_spec(a as int, b as int),
        r.gcd == gcd_spec(a as int, b as int),
        r.x0 * a + r.y0 * b == r.gcd,
        r.x1 * a + r.y1 * b == 0,
{
    proof {
        lemma_gcd_extended_identities(a as int, b as int);
    }
    let mut res = gcd_extended_noabs(magnitude(a), magnitude(b));
    if a < 0 {
        res.x0 = -res.x0;
        res.x1 = -res.x1;
    }
    if b < 0 {
        res.y0 = -res.y0;
        res.y1 = -res.y1;
    }
    res
}

/// The extended algorithm on two nonnegative integers.
fn gcd_extended_noabs(a: i64, b: i64) -> (r: GcdExtendedResult)
    requires
        a >= 0,
        b >= 0,
    ensures
        r@ == bezout_nonneg(a as nat, b as nat),
        r.x0 > i64::MIN,
        r.y0 > i64::MIN,
        r.x1 > i64::MIN,
        r.y1 > i64::MIN,
{
    if a == 0 && b == 0 {
        GcdExtendedResult { gcd: 0, x0: 0, y0: 0, x1: 0, y1: 0 }
    } else if b == 0 {
        GcdExtendedResult { gcd: a, x0: 1, y0: 0, x1: 0, y1: 0 }
    } else if a == 0 {
        GcdExtendedResult { gcd: b, x0: 0, y0: 1, x1: 0, y1: 0 }
    } else if a > b {
        gcd_extended_bezout(a, b)
    } else if a < b {
        let res = gcd_extended_bezout(b, a);
        GcdExtendedResult { gcd: res.gcd, x0: res.y0, y0: res.x0, x1: res.y1, y1: res.x1 }
    } else {
        GcdExtendedResult { gcd: a, x0: 1, y0: 0, x1: -1, y1: 1 }
    }
}

/// Runs the extended recurrence on `a >= b > 0`.
fn gcd_extended_bezout(a: i64, b: i64) -> (r: GcdExtendedResult)
    requires
        a >= b > 0,
    ensures
        r@ == bezout_loop(a as nat, b as nat, 1, 0, 0, 1),
        abs(r.x0 as int) <= b,
        abs(r.x1 as int) <= b,
        abs(r.y0 as int) <= a,
        abs(r.y1 as int) <= a,
{
    let ghost (first, second) = (a as int, b as int);
    let mut a = a;
    let mut b = b;
    let mut a0: i64 = 1;
    let mut a1: i64 = 0;
    let mut b0: i64 = 0;
    let mut b1: i64 = 1;
    assert(a * abs(a1 as int) + b * abs(a0 as int) == second && a * abs(b1 as int) + b * abs(
        b0 as int,
    ) == first) by (nonlinear_arith)
        requires
            a1 == 0,
            a0 == 1,
            b1 == 1,
            b0 == 0,
            a == first,
            b == second,
    ;
    while b != 0
        invariant
            0 < second <= first <= i64::MAX,
            a >= b >= 0,
            a >= 1,
            bezout_loop(a as nat, b as nat, a0 as int, a1 as int, b0 as int, b1 as int)
                == bezout_loop(first as nat, second as nat, 1, 0, 0, 1),
            a * abs(a1 as int) + b * abs(a0 as int) == second,
            a * abs(b1 as int) + b * abs(b0 as int) == first,
            a0 * a1 <= 0,
            b0 * b1 <= 0,
            abs(a0 as int) <= second,
            abs(a1 as int) <= second,
            abs(b0 as int) <= first,
            abs(b1 as int) <= first,
        decreases b,
    {
        proof {
            lemma_mod_pos_bound(a as int, b as int);
            lemma_fundamental_div_mod(a as int, b as int);
        }
        let q = a / b;
        assert(b * q <= a && a == q * b + (a - b * q) && a - b * q == a % b) by (nonlinear_arith)
            requires
                a == b * (a / b) + a % b,
                0 <= a % b,
                q == a / b,
        ;
        let r = a - b * q;
        proof {
            lemma_coefficient_step(a as int, b as int, q as int, r as int, a0 as int, a1 as int, second);
            lemma_coefficient_step(a as int, b as int, q as int, r as int, b0 as int, b1 as int, first);
        }
        let next_a1 = a0 - q * a1;
        let next_b1 = b0 - q * b1;
        a = b;
        b = r;
        a0 = a1;
        a1 = next_a1;
        b0 = b1;
        b1 = next_b1;
    }
    GcdExtendedResult { gcd: a, x0: a0, y0: b0, x1: a1, y1: b1 }
}

} // verus!
