//! Step-by-step views of the plain and the extended Euclidean algorithm.
//!
//! Each iterator yields every intermediate state once, then ends. Its view
//! is the sequence of states it has yet to yield.
use crate::extended::lemma_coefficient_step;
use crate::gcd::{gcd_nat, gcd_spec, lemma_gcd_nat_commutes, magnitude};
use vstd::arithmetic::div_mod::{lemma_fundamental_div_mod, lemma_mod_pos_bound};
use vstd::math::abs;
use vstd::prelude::*;

verus! {

/// The states that the plain Euclidean iteration passes through from `(a, b)`.
///
/// A state with a negative component is followed by the pair of magnitudes;
/// a nonnegative state ends when `b == 0`, is swapped when `a < b`, and is
/// otherwise followed by `(b, a mod b)`.
pub open spec fn euclid_trace(a: int, b: int) -> Seq<(int, int)>
    decreases 2 * abs(b) + if a < 0 || b < 0 {
        1int
    } else {
        0int
    },
{
    if a < 0 || b < 0 {
        seq![(a, b)] + euclid_trace(abs(a) as int, abs(b) as int)
    } else if b == 0 {
        seq![(a, b)]
    } else if a < b {
        seq![(a, b)] + euclid_trace(b, a)
    } else {
        seq![(a, b)] + euclid_trace(b, a % b)
    }
}

/// One state of the plain Euclidean algorithm.
#[derive(PartialEq, Eq, Structural, Debug, Clone, Copy)]
pub struct EuclidStep {
    pub a: i64,
    pub b: i64,
}

impl View for EuclidStep {
    type V = (int, int);

    open spec fn view(&self) -> (int, int) {
        (self.a as int, self.b as int)
    }
}

/// A one-pass iterator over the states of the plain Euclidean algorithm,
/// sign normalisation included.
pub struct GcdIterator {
    current: Option<EuclidStep>,
}

impl View for GcdIterator {
    type V = Seq<(int, int)>;

    closed spec fn view(&self) -> Seq<(int, int)> {
        match self.current {
            Some(s) => euclid_trace(s.a as int, s.b as int),
            None => Seq::empty(),
        }
    }
}

impl GcdIterator {
    #[verifier::type_invariant]
    spec fn inv(self) -> bool {
        self.current matches Some(s) ==> s.a != i64::MIN && s.b != i64::MIN
    }

    /// Starts at `(a, b)` as given, signs included. Neither may be `i64::MIN`,
    /// whose magnitude has no `i64` value.
    pub fn new(a: i64, b: i64) -> (r: Self)
        requires
            a != i64::MIN,
            b != i64::MIN,
        ensures
            r@ == euclid_trace(a as int, b as int),
    {
        GcdIterator { current: Some(EuclidStep { a, b }) }
    }

    /// Yields the current state and moves to the next one, or returns `None`
    /// once every state has been yielded.
    pub fn next(&mut self) -> (r: Option<EuclidStep>)
        ensures
            old(self)@.len() == 0 ==> r is None && final(self)@ == old(self)@,
            old(self)@.len() > 0 ==> r is Some && r.unwrap()@ == old(self)@[0] && final(self)@
                == old(self)@.drop_first(),
    {
        proof {
            use_type_invariant(&*self);
        }
        match self.current {
            None => None,
            Some(s) => {
                let next = if s.a < 0 || s.b < 0 {
                    Some(EuclidStep { a: magnitude(s.a), b: magnitude(s.b) })
                } else if s.b == 0 {
                    None
                } else if s.a < s.b {
                    Some(EuclidStep { a: s.b, b: s.a })
                } else {
                    Some(EuclidStep { a: s.b, b: s.a % s.b })
                };
                self.current = next;
                proof {
                    assert(old(self)@.drop_first() =~= final(self)@);
                }
                Some(s)
            },
        }
    }
}

/// The plain iteration from any `(a, b)` ends after at most `2|b| + 3`
/// states, on `(gcd(a, b), 0)`.
pub proof fn lemma_euclid_trace_ends(a: int, b: int)
    ensures
        1 <= euclid_trace(a, b).len() <= 2 * abs(b) + 3,
        a >= 0 && b >= 0 ==> euclid_trace(a, b).len() <= 2 * b + 2,
        euclid_trace(a, b).last() == (gcd_spec(a, b) as int, 0int),
    decreases 2 * abs(b) + if a < 0 || b < 0 {
        1int
    } else {
        0int
    },
{
    if a < 0 || b < 0 {
        lemma_euclid_trace_ends(abs(a) as int, abs(b) as int);
    } else if b == 0 {
    } else if a < b {
        lemma_euclid_trace_ends(b, a);
        lemma_gcd_nat_commutes(a as nat, b as nat);
    } else {
        lemma_mod_pos_bound(a, b);
        lemma_euclid_trace_ends(b, a % b);
        assert(gcd_nat(a as nat, b as nat) == gcd_nat(b as nat, (a % b) as nat));
    }
}

/// One state of the extended Euclidean algorithm as mathematical integers.
pub struct ExtendedState {
    pub a: int,
    pub b: int,
    pub a0: int,
    pub a1: int,
    pub b0: int,
    pub b1: int,
    pub q: int,
}

/// The first state of the extended iteration on `(a, b)`: the magnitudes,
/// the larger first, with the identity coefficients.
pub open spec fn extended_seed(a: int, b: int) -> ExtendedState {
    let (x, y) = if abs(a) < abs(b) {
        (abs(b) as int, abs(a) as int)
    } else {
        (abs(a) as int, abs(b) as int)
    };
    ExtendedState { a: x, b: y, a0: 1, a1: 0, b0: 0, b1: 1, q: 0 }
}

/// The state after `s` when `s.b > 0`: `(a, b)` becomes `(b, a mod b)` and
/// each coefficient pair `(c0, c1)` becomes `(c1, c0 - q * c1)`, where `q`
/// is the quotient `a / b`.
pub open spec fn extended_next(s: ExtendedState) -> ExtendedState {
    let q = s.a / s.b;
    ExtendedState {
        a: s.b,
        b: s.a % s.b,
        a0: s.a1,
        a1: s.a0 - q * s.a1,
        b0: s.b1,
        b1: s.b0 - q * s.b1,
        q,
    }
}

/// The states that the extended iteration passes through from `s`; it ends
/// on the first state whose `b` is not positive.
pub open spec fn extended_trace(s: ExtendedState) -> Seq<ExtendedState>
    decreases s.b,
{
    if s.b <= 0 {
        seq![s]
    } else {
        seq![s] + extended_trace(extended_next(s))
    }
}

/// One state of the extended Euclidean algorithm: the remainders `a` and
/// `b`, their coefficients (`a == a0 * A + b0 * B`, `b == a1 * A + b1 * B`
/// for the normalised inputs `A`, `B`), and the quotient `q` that produced it
/// (zero for the first state).
#[derive(PartialEq, Eq, Structural, Debug, Clone, Copy)]
pub struct ExtendedEuclidStep {
    pub a: i64,
    pub b: i64,
    pub a0: i64,
    pub a1: i64,
    pub b0: i64,
    pub b1: i64,
    pub q: i64,
}

impl View for ExtendedEuclidStep {
    type V = ExtendedState;

    open spec fn view(&self) -> ExtendedState {
        ExtendedState {
            a: self.a as int,
            b: self.b as int,
            a0: self.a0 as int,
            a1: self.a1 as int,
            b0: self.b0 as int,
            b1: self.b1 as int,
            q: self.q as int,
        }
    }
}

/// A one-pass iterator over the states of the extended Euclidean algorithm.
/// Signs and order are normalised when it is made.
pub struct GcdExtendedIterator {
    current: Option<ExtendedEuclidStep>,
    larger: Ghost<int>,
    smaller: Ghost<int>,
}

impl View for GcdExtendedIterator {
    type V = Seq<ExtendedState>;

    closed spec fn view(&self) -> Seq<ExtendedState> {
        match self.current {
            Some(s) => extended_trace(s@),
            None => Seq::empty(),
        }
    }
}

impl GcdExtendedIterator {
    #[verifier::type_invariant]
    spec fn inv(self) -> bool {
        let big = self.larger@;
        let small = self.smaller@;
        0 <= small <= big <= i64::MAX && (self.current matches Some(s) ==> {
            &&& s.a >= s.b >= 0
            &&& s.a * abs(s.a1 as int) + s.b * abs(s.a0 as int) == small
            &&& s.a * abs(s.b1 as int) + s.b * abs(s.b0 as int) == big
            &&& s.a0 * s.a1 <= 0
            &&& s.b0 * s.b1 <= 0
        })
    }

    /// Starts at the magnitudes of `a` and `b`, the larger first. Neither may
    /// be `i64::MIN`, whose magnitude has no `i64` value.
    pub fn new(a: i64, b: i64) -> (r: Self)
        requires
            a != i64::MIN,
            b != i64::MIN,
        ensures
            r@ == extended_trace(extended_seed(a as int, b as int)),
    {
        let x = magnitude(a);
        let y = magnitude(b);
        let (big, small) = if x < y {
            (y, x)
        } else {
            (x, y)
        };
        let seed = ExtendedEuclidStep { a: big, b: small, a0: 1, a1: 0, b0: 0, b1: 1, q: 0 };
        assert(seed.a * abs(seed.a1 as int) + seed.b * abs(seed.a0 as int) == small && seed.a * abs(
            seed.b1 as int,
        ) + seed.b * abs(seed.b0 as int) == big && seed.a0 * seed.a1 <= 0 && seed.b0 * seed.b1 <= 0)
            by (nonlinear_arith)
            requires
                seed.a == big,
                seed.b == small,
                seed.a0 == 1,
                seed.a1 == 0,
                seed.b0 == 0,
                seed.b1 == 1,
        ;
        GcdExtendedIterator {
            current: Some(seed),
            larger: Ghost(big as int),
            smaller: Ghost(small as int),
        }
    }

    /// Yields the current state and moves to the next one, or returns `None`
    /// once every state has been yielded.
    pub fn next(&mut self) -> (r: Option<ExtendedEuclidStep>)
        ensures
            old(self)@.len() == 0 ==> r is None && final(self)@ == old(self)@,
            old(self)@.len() > 0 ==> r is Some && r.unwrap()@ == old(self)@[0] && final(self)@
                == old(self)@.drop_first(),
    {
        proof {
            use_type_invariant(&*self);
        }
        match self.current {
            None => None,
            Some(s) => {
                if s.b == 0 {
                    self.current = None;
                } else {
                    proof {
                        lemma_mod_pos_bound(s.a as int, s.b as int);
                        lemma_fundamental_div_mod(s.a as int, s.b as int);
                    }
                    let q = s.a / s.b;
                    assert(s.b * q <= s.a && s.a == q * s.b + (s.a - s.b * q) && s.a - s.b * q
                        == s.a % s.b) by (nonlinear_arith)
                        requires
                            s.a == s.b * (s.a / s.b) + s.a % s.b,
                            0 <= s.a % s.b,
                            q == s.a / s.b,
                    ;
                    let r = s.a - s.b * q;
                    proof {
                        lemma_coefficient_step(
                            s.a as int,
                            s.b as int,
                            q as int,
                            r as int,
                            s.a0 as int,
                            s.a1 as int,
                            self.smaller@,
                        );
                        lemma_coefficient_step(
                            s.a as int,
                            s.b as int,
                            q as int,
                            r as int,
                            s.b0 as int,
                            s.b1 as int,
                            self.larger@,
                        );
                    }
                    let a1 = s.a0 - q * s.a1;
                    let b1 = s.b0 - q * s.b1;
                    self.current = Some(
                        ExtendedEuclidStep { a: s.b, b: r, a0: s.a1, a1, b0: s.b1, b1, q },
                    );
                }
                proof {
                    assert(old(self)@.drop_first() =~= final(self)@);
                }
                Some(s)
            },
        }
    }
}

/// Along the extended iteration, both remainders stay the stated
/// combinations of the normalised inputs.
proof fn lemma_extended_trace_combinations(s: ExtendedState, big: int, small: int)
    requires
        s.a == s.a0 * big + s.b0 * small,
        s.b == s.a1 * big + s.b1 * small,
    ensures
        forall|i: int|
            0 <= i < extended_trace(s).len() ==> {
                &&& #[trigger] extended_trace(s)[i].a == extended_trace(s)[i].a0 * big
                    + extended_trace(s)[i].b0 * small
                &&& extended_trace(s)[i].b == extended_trace(s)[i].a1 * big + extended_trace(
                    s,
                )[i].b1 * small
            },
    decreases s.b,
{
    if s.b > 0 {
        let n = extended_next(s);
        lemma_fundamental_div_mod(s.a, s.b);
        let q = s.a / s.b;
        assert(n.b == n.a1 * big + n.b1 * small) by (nonlinear_arith)
            requires
                s.a == s.b * q + n.b,
                n.a1 == s.a0 - q * s.a1,
                n.b1 == s.b0 - q * s.b1,
                s.a == s.a0 * big + s.b0 * small,
                s.b == s.a1 * big + s.b1 * small,
        ;
        lemma_extended_trace_combinations(n, big, small);
        assert forall|i: int| 0 < i < extended_trace(s).len() implies extended_trace(s)[i]
            == extended_trace(n)[i - 1] by {}
    }
}

/// Every state of the extended iteration on `(a, b)` writes its remainders
/// as combinations of the normalised inputs: the larger magnitude `A` and the
/// smaller `B`.
pub proof fn lemma_extended_states_are_combinations(a: int, b: int)
    ensures
        forall|i: int|
            0 <= i < extended_trace(extended_seed(a, b)).len() ==> {
                let s = #[trigger] extended_trace(extended_seed(a, b))[i];
                let big = extended_seed(a, b).a;
                let small = extended_seed(a, b).b;
                &&& s.a == s.a0 * big + s.b0 * small
                &&& s.b == s.a1 * big + s.b1 * small
            },
{
    let s = extended_seed(a, b);
    assert(s.a == 1 * s.a + 0 * s.b && s.b == 0 * s.a + 1 * s.b);
    lemma_extended_trace_combinations(s, s.a, s.b);
}

/// The extended iteration from a state with `b >= 0` ends after at most
/// `b + 1` states, on a state whose `b` is zero and whose `a` is the greatest
/// common divisor of the state's remainders.
proof fn lemma_extended_trace_ends_from(s: ExtendedState)
    requires
        s.a >= 0,
        s.b >= 0,
    ensures
        1 <= extended_trace(s).len() <= s.b + 1,
        extended_trace(s).last().b == 0,
        extended_trace(s).last().a == gcd_nat(s.a as nat, s.b as nat),
    decreases s.b,
{
    if s.b > 0 {
        lemma_mod_pos_bound(s.a, s.b);
        lemma_extended_trace_ends_from(extended_next(s));
    }
}

/// The extended iteration on any `(a, b)` ends after at most
/// `min(|a|, |b|) + 1` states, on `b == 0` with `a` the greatest common
/// divisor of `a` and `b`.
pub proof fn lemma_extended_trace_ends(a: int, b: int)
    ensures
        1 <= extended_trace(extended_seed(a, b)).len() <= extended_seed(a, b).b + 1,
        extended_seed(a, b).b == if abs(a) < abs(b) {
            abs(a)
        } else {
            abs(b)
        },
        extended_trace(extended_seed(a, b)).last().b == 0,
        extended_trace(extended_seed(a, b)).last().a == gcd_spec(a, b),
{
    lemma_gcd_nat_commutes(abs(a), abs(b));
    lemma_extended_trace_ends_from(extended_seed(a, b));
}

} // verus!
