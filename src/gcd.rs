//! Greatest common divisor and least common multiple.
use crate::divisibility::{divides_spec, lemma_divides_abs};
use vstd::arithmetic::div_mod::{
    lemma_div_multiples_vanish, lemma_fundamental_div_mod, lemma_mod_pos_bound, lemma_mod_self_0,
    lemma_small_mod,
};
use vstd::math::abs;
use vstd::prelude::*;

verus! {

/// Euclid's recursion on natural numbers: `gcd(a, 0) = a`, `gcd(a, b) = gcd(b, a mod b)`.
pub open spec fn gcd_nat(a: nat, b: nat) -> nat
    decreases b,
{
    if b == 0 {
        a
    } else {
        gcd_nat(b, a % b)
    }
}

/// The greatest common divisor of `a` and `b`; zero when both are zero.
pub open spec fn gcd_spec(a: int, b: int) -> nat {
    gcd_nat(abs(a), abs(b))
}

/// The least common multiple of `a` and `b`; zero when either is zero.
pub open spec fn lcm_spec(a: int, b: int) -> nat {
    if a == 0 || b == 0 {
        0
    } else {
        (abs(a) * abs(b)) / gcd_spec(a, b)
    }
}

/// If `g` divides `x` and `y`, it divides `q * x + y`.
proof fn lemma_divides_combination(g: int, x: int, y: int, q: int)
    requires
        divides_spec(g, x),
        divides_spec(g, y),
    ensures
        divides_spec(g, q * x + y),
{
    if g != 0 {
        let kx = choose|k: int| #[trigger] (k * g) == x;
        let ky = choose|k: int| #[trigger] (k * g) == y;
        assert((q * kx + ky) * g == q * x + y) by (nonlinear_arith)
            requires
                kx * g == x,
                ky * g == y,
        ;
    }
}

/// Euclid's recursion yields a common divisor of its arguments.
proof fn lemma_gcd_nat_divides(a: nat, b: nat)
    ensures
        divides_spec(gcd_nat(a, b) as int, a as int),
        divides_spec(gcd_nat(a, b) as int, b as int),
    decreases b,
{
    if b == 0 {
        assert(1 * a == a);
        assert(0 * a == 0);
    } else {
        lemma_mod_pos_bound(a as int, b as int);
        lemma_gcd_nat_divides(b, a % b);
        lemma_fundamental_div_mod(a as int, b as int);
        let g = gcd_nat(b, a % b) as int;
        lemma_divides_combination(g, b as int, (a % b) as int, (a / b) as int);
        assert((a / b) * b == b * (a / b)) by (nonlinear_arith);
    }
}

/// Every nonzero common divisor of `a` and `b` divides the result of Euclid's recursion.
proof fn lemma_common_divisor_divides_gcd_nat(d: int, a: nat, b: nat)
    requires
        divides_spec(d, a as int),
        divides_spec(d, b as int),
    ensures
        divides_spec(d, gcd_nat(a, b) as int),
    decreases b,
{
    if b != 0 {
        lemma_mod_pos_bound(a as int, b as int);
        lemma_fundamental_div_mod(a as int, b as int);
        let q = a / b;
        assert((a % b) as int == (-q) * b + a) by (nonlinear_arith)
            requires
                a == b * q + (a % b) as int,
        ;
        lemma_divides_combination(d, b as int, a as int, -q);
        lemma_common_divisor_divides_gcd_nat(d, b, a % b);
    }
}

/// Euclid's recursion is positive as soon as one argument is.
proof fn lemma_gcd_nat_positive(a: nat, b: nat)
    requires
        a > 0 || b > 0,
    ensures
        gcd_nat(a, b) > 0,
    decreases b,
{
    if b != 0 {
        lemma_mod_pos_bound(a as int, b as int);
        lemma_gcd_nat_positive(b, a % b);
    }
}

/// Euclid's recursion does not depend on the order of its arguments.
pub(crate) proof fn lemma_gcd_nat_commutes(a: nat, b: nat)
    ensures
        gcd_nat(a, b) == gcd_nat(b, a),
{
    if a == b {
    } else if a == 0 {
        lemma_small_mod(0, b);
    } else if b == 0 {
        lemma_small_mod(0, a);
    } else if a < b {
        lemma_small_mod(a, b);
        assert(gcd_nat(a, b) == gcd_nat(b, a % b));
    } else {
        lemma_small_mod(b, a);
        assert(gcd_nat(b, a) == gcd_nat(a, b % a));
    }
}

/// The greatest common divisor is the same for either order and any signs
/// of its arguments.
pub proof fn lemma_gcd_sign_and_order(a: int, b: int)
    ensures
        gcd_spec(a, b) == gcd_spec(b, a),
        gcd_spec(a, b) == gcd_spec(-a, b),
        gcd_spec(a, b) == gcd_spec(a, -b),
        gcd_spec(a, b) == gcd_spec(-a, -b),
{
    lemma_gcd_nat_commutes(abs(a), abs(b));
}

/// The greatest common divisor is never negative, is zero for two zeros,
/// and is the magnitude of the other argument when one is zero.
pub proof fn lemma_gcd_with_zero(a: int, b: int)
    ensures
        gcd_spec(a, b) >= 0,
        gcd_spec(0, 0) == 0,
        gcd_spec(a, 0) == abs(a),
        gcd_spec(0, a) == abs(a),
{
    lemma_gcd_nat_commutes(abs(a), 0);
}

/// When `a` and `b` are not both zero, their greatest common divisor is
/// positive, divides both, and is at least as large as any common divisor.
pub proof fn lemma_gcd_is_greatest_common_divisor(a: int, b: int)
    requires
        a != 0 || b != 0,
    ensures
        gcd_spec(a, b) > 0,
        divides_spec(gcd_spec(a, b) as int, a),
        divides_spec(gcd_spec(a, b) as int, b),
        forall|d: int|
            divides_spec(d, a) && divides_spec(d, b) ==> d <= gcd_spec(a, b),
{
    let g = gcd_spec(a, b) as int;
    lemma_gcd_nat_positive(abs(a), abs(b));
    lemma_gcd_nat_divides(abs(a), abs(b));
    lemma_divides_abs(g, a);
    lemma_divides_abs(g, b);
    lemma_divides_abs(g, abs(a) as int);
    lemma_divides_abs(g, abs(b) as int);
    assert forall|d: int| divides_spec(d, a) && divides_spec(d, b) implies d <= g by {
        if d > 0 {
            lemma_divides_abs(d, a);
            lemma_divides_abs(d, b);
            lemma_common_divisor_divides_gcd_nat(d, abs(a), abs(b));
            let k = choose|k: int| #[trigger] (k * d) == g;
            assert(d <= g) by (nonlinear_arith)
                requires
                    k * d == g,
                    g > 0,
                    d > 0,
            ;
        }
    }
}

/// For nonzero `a` and `b`, the least common multiple is `|a|` times the
/// cofactor of `b`, and that cofactor is at least one.
proof fn lemma_lcm_cofactor(a: int, b: int)
    requires
        a != 0,
        b != 0,
    ensures
        exists|kb: int|
            kb >= 1 && #[trigger] (kb * gcd_spec(a, b)) == abs(b) && lcm_spec(a, b) == abs(a) * kb,
{
    let g = gcd_spec(a, b) as int;
    lemma_gcd_nat_positive(abs(a), abs(b));
    lemma_gcd_nat_divides(abs(a), abs(b));
    let kb = choose|k: int| #[trigger] (k * g) == abs(b);
    assert(kb >= 1 && g * (abs(a) * kb) == abs(a) * abs(b)) by (nonlinear_arith)
        requires
            kb * g == abs(b),
            g > 0,
            abs(b) > 0,
    ;
    lemma_div_multiples_vanish(abs(a) * kb, g);
}

/// The least common multiple is at least the magnitude of each nonzero argument.
proof fn lemma_lcm_at_least_arguments(a: int, b: int)
    requires
        a != 0,
        b != 0,
    ensures
        lcm_spec(a, b) >= abs(a),
        lcm_spec(a, b) >= abs(b),
{
    lemma_lcm_cofactor(a, b);
    lemma_lcm_cofactor(b, a);
    lemma_gcd_sign_and_order(a, b);
    assert(lcm_spec(a, b) == lcm_spec(b, a)) by (nonlinear_arith)
        requires
            gcd_spec(a, b) == gcd_spec(b, a),
            lcm_spec(a, b) == (abs(a) * abs(b)) / gcd_spec(a, b),
            lcm_spec(b, a) == (abs(b) * abs(a)) / gcd_spec(b, a),
    ;
    let kb = choose|kb: int|
        kb >= 1 && #[trigger] (kb * gcd_spec(a, b)) == abs(b) && lcm_spec(a, b) == abs(a) * kb;
    let ka = choose|ka: int|
        ka >= 1 && #[trigger] (ka * gcd_spec(b, a)) == abs(a) && lcm_spec(b, a) == abs(b) * ka;
    assert(abs(a) * kb >= abs(a) && abs(b) * ka >= abs(b)) by (nonlinear_arith)
        requires
            kb >= 1,
            ka >= 1,
    ;
}

/// The least common multiple is zero when either argument is zero; otherwise
/// it is a common multiple of both, and times the greatest common divisor it
/// gives the magnitude of the product.
pub proof fn lemma_lcm_times_gcd(a: int, b: int)
    ensures
        lcm_spec(a, 0) == 0,
        lcm_spec(0, b) == 0,
        a != 0 && b != 0 ==> lcm_spec(a, b) * gcd_spec(a, b) == abs(a * b),
        a != 0 && b != 0 ==> divides_spec(a, lcm_spec(a, b) as int) && divides_spec(
            b,
            lcm_spec(a, b) as int,
        ),
{
    if a != 0 && b != 0 {
        let g = gcd_spec(a, b) as int;
        let l = lcm_spec(a, b) as int;
        lemma_lcm_cofactor(a, b);
        let kb = choose|kb: int|
            kb >= 1 && #[trigger] (kb * gcd_spec(a, b)) == abs(b) && lcm_spec(a, b) == abs(a)
                * kb;
        assert(l * g == abs(a * b)) by (nonlinear_arith)
            requires
                l == abs(a) * kb,
                kb * g == abs(b),
        ;
        assert(kb * abs(a) == l) by (nonlinear_arith)
            requires
                l == abs(a) * kb,
        ;
        lemma_divides_abs(a, l);
        lemma_lcm_cofactor(b, a);
        lemma_gcd_sign_and_order(a, b);
        let ka = choose|ka: int|
            ka >= 1 && #[trigger] (ka * gcd_spec(b, a)) == abs(a) && lcm_spec(b, a) == abs(b)
                * ka;
        assert(l == lcm_spec(b, a)) by (nonlinear_arith)
            requires
                gcd_spec(a, b) == gcd_spec(b, a),
                l == (abs(a) * abs(b)) / gcd_spec(a, b),
                lcm_spec(b, a) == (abs(b) * abs(a)) / gcd_spec(b, a),
        ;
        assert(ka * abs(b) == l) by (nonlinear_arith)
            requires
                l == abs(b) * ka,
        ;
        lemma_divides_abs(b, l);
    }
}

/// The least common multiple is at most the magnitude of the product, so
/// `lcm` accepts every pair whose product fits in `i64`.
pub proof fn lemma_lcm_at_most_product(a: int, b: int)
    ensures
        lcm_spec(a, b) <= abs(a * b),
{
    if a != 0 && b != 0 {
        lemma_lcm_times_gcd(a, b);
        lemma_gcd_nat_positive(abs(a), abs(b));
        let l = lcm_spec(a, b) as int;
        let g = gcd_spec(a, b) as int;
        assert(l <= l * g) by (nonlinear_arith)
            requires
                l >= 0,
                g >= 1,
        ;
    }
}

/// The magnitude of `a`.
pub(crate) fn magnitude(a: i64) -> (r: i64)
    requires
        a != i64::MIN,
    ensures
        r == abs(a as int),
{
    if a < 0 {
        -a
    } else {
        a
    }
}

/// Computes the greatest common divisor of `a` and `b`.
///
/// It is the largest common divisor when at least one of `a`, `b` is nonzero,
/// and `gcd(0, 0) = 0`. The magnitude of `i64::MIN` has no `i64` value, so
/// neither argument may be `i64::MIN`.
pub fn gcd(a: i64, b: i64) -> (r: i64)
    requires
        a != i64::MIN,
        b != i64::MIN,
    ensures
        r == gcd_spec(a as int, b as int),
{
    gcd_noabs(magnitude(a), magnitude(b))
}

/// Computes the least common multiple of `a` and `b`.
///
/// It is the smallest positive common multiple when both are nonzero, and
/// `lcm(a, 0) = lcm(0, b) = 0`. The product is formed in `i128`, so any pair
/// whose least common multiple fits in `i64` is accepted.
pub fn lcm(a: i64, b: i64) -> (r: i64)
    requires
        lcm_spec(a as int, b as int) <= i64::MAX,
    ensures
        r == lcm_spec(a as int, b as int),
{
    if a == 0 || b == 0 {
        return 0;
    }
    proof {
        lemma_lcm_at_least_arguments(a as int, b as int);
        lemma_gcd_nat_positive(abs(a as int), abs(b as int));
    }
    let a = magnitude(a);
    let b = magnitude(b);
    let g = gcd_noabs(a, b);
    assert((a as i128) * (b as i128) <= i128::MAX) by (nonlinear_arith)
        requires
            0 <= a <= i64::MAX,
            0 <= b <= i64::MAX,
    ;
    let product = (a as i128) * (b as i128);
    (product / (g as i128)) as i64
}

/// Computes the greatest common divisor of two nonnegative integers.
fn gcd_noabs(a: i64, b: i64) -> (r: i64)
    requires
        a >= 0,
        b >= 0,
    ensures
        r == gcd_nat(a as nat, b as nat),
{
    proof {
        lemma_gcd_nat_commutes(a as nat, b as nat);
    }
    if a == 0 && b == 0 {
        0
    } else if b == 0 {
        a
    } else if a == 0 {
        b
    } else if a > b {
        gcd_euclid(a, b)
    } else if a < b {
        gcd_euclid(b, a)
    } else {
        proof {
            lemma_mod_self_0(a as int);
            assert(gcd_nat(a as nat, 0) == a);
        }
        a
    }
}

/// Runs Euclid's loop on `a > b > 0`.
fn gcd_euclid(a: i64, b: i64) -> (r: i64)
    requires
        a > b > 0,
    ensures
        r == gcd_nat(a as nat, b as nat),
{
    let ghost g = gcd_nat(a as nat, b as nat);
    let mut a = a;
    let mut b = b;
    while b != 0
        invariant
            a >= 0,
            b >= 0,
            gcd_nat(a as nat, b as nat) == g,
        decreases b,
    {
        let r = a % b;
        a = b;
        b = r;
    }
    a
}

} // verus!
