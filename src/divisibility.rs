//! Divisibility predicates over `i64`.
use vstd::arithmetic::div_mod::{
    lemma_fundamental_div_mod, lemma_fundamental_div_mod_converse_mod, lemma_mod_multiples_basic,
    lemma_small_mod,
};
use vstd::math::abs;
use vstd::prelude::*;

verus! {

/// `a` divides `b` when `b` is an integer multiple of `a`.
///
/// By this library's convention zero divides every integer (not only zero).
pub open spec fn divides_spec(a: int, b: int) -> bool {
    a == 0 || exists|k: int| #[trigger] (k * a) == b
}

/// For a positive `d`, being a multiple of `d` is the same as leaving no remainder.
proof fn lemma_multiple_iff_mod(x: int, d: int)
    requires
        d > 0,
    ensures
        (exists|k: int| #[trigger] (k * d) == x) <==> x % d == 0,
{
    if x % d == 0 {
        lemma_fundamental_div_mod(x, d);
        let k = x / d;
        assert(k * d == d * k) by (nonlinear_arith);
        assert(k * d == x);
    }
    if exists|k: int| #[trigger] (k * d) == x {
        let k = choose|k: int| #[trigger] (k * d) == x;
        lemma_mod_multiples_basic(k, d);
    }
}

/// Divisibility ignores the signs of both operands.
pub proof fn lemma_divides_abs(a: int, b: int)
    ensures
        divides_spec(a, b) == divides_spec(abs(a) as int, abs(b) as int),
{
    if a != 0 {
        if exists|k: int| #[trigger] (k * a) == b {
            let k = choose|k: int| #[trigger] (k * a) == b;
            let j = if (a < 0) == (b < 0) { k } else { -k };
            assert(j * abs(a) == abs(b)) by (nonlinear_arith)
                requires
                    k * a == b,
                    j == if (a < 0) == (b < 0) { k } else { -k },
            ;
        }
        if exists|k: int| #[trigger] (k * abs(a)) == abs(b) {
            let k = choose|k: int| #[trigger] (k * abs(a)) == abs(b);
            let j = if (a < 0) == (b < 0) { k } else { -k };
            assert(j * a == b) by (nonlinear_arith)
                requires
                    k * abs(a) == abs(b),
                    j == if (a < 0) == (b < 0) { k } else { -k },
            ;
        }
    }
}

/// Every integer divides zero, and one divides every integer.
pub proof fn lemma_divides_zero_and_by_one(a: int)
    ensures
        divides_spec(a, 0),
        divides_spec(1, a),
{
    assert(0 * a == 0);
    assert(a * 1 == a);
}

/// For a nonzero divisor, divisibility is exactly a zero remainder.
pub proof fn lemma_divides_iff_zero_rem(a: int, b: int)
    requires
        a != 0,
    ensures
        divides_spec(a, b) == (b % a == 0),
{
    lemma_divides_abs(a, b);
    lemma_multiple_iff_mod(abs(b) as int, abs(a) as int);
    lemma_multiple_iff_mod(b, abs(a) as int);
    // the remainder by `a` and by `|a|` agree
    lemma_fundamental_div_mod(b, a);
    let q = b / a;
    let r = b % a;
    assert(b == (-q) * (-a) + r) by (nonlinear_arith)
        requires
            b == a * q + r,
    ;
    if a < 0 {
        lemma_fundamental_div_mod_converse_mod(b, -a, -q, r);
    }
    assert(divides_spec(abs(a) as int, abs(b) as int) == divides_spec(abs(a) as int, b)) by {
        lemma_divides_abs(abs(a) as int, b);
    }
}

/// Returns true if `a` divides `b`, that is if `b == k * a` for some integer `k`.
///
/// Zero divides every integer here. The function is total: it also answers
/// for `b == i64::MIN` and `a == -1`, where a plain remainder would overflow.
pub fn divides(a: i64, b: i64) -> (r: bool)
    ensures
        r == divides_spec(a as int, b as int),
{
    proof {
        lemma_divides_abs(a as int, b as int);
        if a != 0 {
            lemma_multiple_iff_mod(abs(b as int) as int, abs(a as int) as int);
        }
        if a == -1 {
            lemma_divides_zero_and_by_one(abs(b as int) as int);
        }
        if a != 0 && b == 0 {
            lemma_small_mod(0, abs(a as int));
        }
    }
    // `None` comes only for `a == 0`, and for `i64::MIN % -1`
    match b.checked_rem(a) {
        Some(rem) => rem == 0,
        None => true,
    }
}

/// Returns true if `a` is divisible by `b`, that is if `b` divides `a`.
pub fn is_divisible_by(a: i64, b: i64) -> (r: bool)
    ensures
        r == divides_spec(b as int, a as int),
{
    divides(b, a)
}

/// Returns true if `d` divides both `a` and `b`.
pub fn is_common_divisor(d: i64, a: i64, b: i64) -> (r: bool)
    ensures
        r == (divides_spec(d as int, a as int) && divides_spec(d as int, b as int)),
{
    divides(d, a) && divides(d, b)
}

/// Returns true if both `a` and `b` divide `d`.
pub fn is_common_multiple(d: i64, a: i64, b: i64) -> (r: bool)
    ensures
        r == (divides_spec(a as int, d as int) && divides_spec(b as int, d as int)),
{
    divides(a, d) && divides(b, d)
}

} // verus!
