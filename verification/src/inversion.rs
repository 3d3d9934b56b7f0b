use crate::monoid::Identity;
use vstd::arithmetic::div_mod::{lemma_add_mod_noop, lemma_mul_mod_noop_general, lemma_small_mod};
use vstd::prelude::*;

verus! {

/// The number of zeros, of ones, and of pairs of a one before a zero in a
/// sequence of bits, each modulo two to the power 64.
#[derive(Debug, Clone, Copy, PartialEq, Eq, Structural)]
pub struct InversionValue {
    /// The number of zeros.
    pub zeros: u64,
    /// The number of ones.
    pub ones: u64,
    /// The number of pairs of a one and a later zero.
    pub inversion: u64,
}

/// Two to the power 64.
pub open spec fn modulus() -> int {
    0x1_0000_0000_0000_0000
}

/// Sums of congruent numbers are congruent.
pub proof fn lemma_add_congruent(x1: int, x2: int, y1: int, y2: int)
    requires
        x1 % modulus() == x2 % modulus(),
        y1 % modulus() == y2 % modulus(),
    ensures
        (x1 + y1) % modulus() == (x2 + y2) % modulus(),
{
    lemma_add_mod_noop(x1, y1, modulus());
    lemma_add_mod_noop(x2, y2, modulus());
}

/// Products of congruent numbers are congruent.
pub proof fn lemma_mul_congruent(x1: int, x2: int, y1: int, y2: int)
    requires
        x1 % modulus() == x2 % modulus(),
        y1 % modulus() == y2 % modulus(),
    ensures
        (x1 * y1) % modulus() == (x2 * y2) % modulus(),
{
    lemma_mul_mod_noop_general(x1, y1, modulus());
    lemma_mul_mod_noop_general(x2, y2, modulus());
}

/// A remainder is congruent to what it is the remainder of.
pub proof fn lemma_rem_congruent(x: int)
    ensures
        (x % modulus()) % modulus() == x % modulus(),
        0 <= x % modulus() < modulus(),
{
    lemma_add_mod_noop(x, 0, modulus());
}

impl InversionValue {
    /// The value of the one bit `b`.
    pub fn from_bool(b: bool) -> (res: Self)
        ensures
            res == if b {
                (InversionValue { zeros: 0, ones: 1, inversion: 0 })
            } else {
                (InversionValue { zeros: 1, ones: 0, inversion: 0 })
            },
    {
        if b {
            InversionValue { zeros: 0, ones: 1, inversion: 0 }
        } else {
            InversionValue { zeros: 1, ones: 0, inversion: 0 }
        }
    }
}

/// The value of a sequence of bits followed by another.
pub open spec fn merged(a: InversionValue, b: InversionValue) -> InversionValue {
    InversionValue {
        zeros: ((a.zeros + b.zeros) % modulus()) as u64,
        ones: ((a.ones + b.ones) % modulus()) as u64,
        inversion: ((a.inversion + b.inversion + a.ones * b.zeros) % modulus()) as u64,
    }
}

/// Counting inversions of sequences of bits, one sequence after another.
#[derive(Debug, Clone, Copy, PartialEq, Eq, Default)]
pub struct InversionMerge;

impl Identity for InversionMerge {
    type Value = InversionValue;

    type Model = InversionValue;

    open spec fn model(v: InversionValue) -> InversionValue {
        v
    }

    open spec fn combine(a: InversionValue, b: InversionValue) -> InversionValue {
        merged(a, b)
    }

    open spec fn unit() -> InversionValue {
        InversionValue { zeros: 0, ones: 0, inversion: 0 }
    }

    proof fn combine_assoc(a: InversionValue, b: InversionValue, c: InversionValue) {
        let ab = merged(a, b);
        let bc = merged(b, c);
        lemma_rem_congruent(a.zeros + b.zeros);
        lemma_rem_congruent(a.ones + b.ones);
        lemma_rem_congruent(b.zeros + c.zeros);
        lemma_rem_congruent(b.ones + c.ones);
        lemma_rem_congruent(a.inversion + b.inversion + a.ones * b.zeros);
        lemma_rem_congruent(b.inversion + c.inversion + b.ones * c.zeros);
        lemma_add_congruent(ab.zeros as int, a.zeros + b.zeros, c.zeros as int, c.zeros as int);
        lemma_add_congruent(a.zeros as int, a.zeros as int, bc.zeros as int, b.zeros + c.zeros);
        lemma_add_congruent(ab.ones as int, a.ones + b.ones, c.ones as int, c.ones as int);
        lemma_add_congruent(a.ones as int, a.ones as int, bc.ones as int, b.ones + c.ones);
        lemma_mul_congruent(ab.ones as int, a.ones + b.ones, c.zeros as int, c.zeros as int);
        lemma_mul_congruent(a.ones as int, a.ones as int, bc.zeros as int, b.zeros + c.zeros);
        lemma_add_congruent(
            c.inversion as int,
            c.inversion as int,
            ab.ones * c.zeros,
            (a.ones + b.ones) * c.zeros,
        );
        lemma_add_congruent(
            ab.inversion as int,
            a.inversion + b.inversion + a.ones * b.zeros,
            c.inversion + ab.ones * c.zeros,
            c.inversion + (a.ones + b.ones) * c.zeros,
        );
        lemma_add_congruent(
            a.inversion as int,
            a.inversion as int,
            a.ones * bc.zeros,
            a.ones * (b.zeros + c.zeros),
        );
        lemma_add_congruent(
            bc.inversion as int,
            b.inversion + c.inversion + b.ones * c.zeros,
            a.inversion + a.ones * bc.zeros,
            a.inversion + a.ones * (b.zeros + c.zeros),
        );
        assert((a.ones + b.ones) * c.zeros == a.ones * c.zeros + b.ones * c.zeros)
            by (nonlinear_arith);
        assert(a.ones * (b.zeros + c.zeros) == a.ones * b.zeros + a.ones * c.zeros)
            by (nonlinear_arith);
    }

    proof fn unit_neutral(a: InversionValue) {
        lemma_small_mod(a.zeros as nat, modulus() as nat);
        lemma_small_mod(a.ones as nat, modulus() as nat);
        lemma_small_mod(a.inversion as nat, modulus() as nat);
        assert(a.ones * 0 == 0) by (nonlinear_arith);
        assert(0 * a.zeros == 0) by (nonlinear_arith);
    }

    proof fn clone_keeps_model(a: InversionValue, b: InversionValue) {
        assert(call_ensures(InversionValue::clone, (&a,), b) ==> b == a);
    }

    fn op(lhs: InversionValue, rhs: InversionValue) -> (res: InversionValue) {
        proof {
            lemma_rem_congruent(lhs.inversion + rhs.inversion);
            lemma_rem_congruent(lhs.ones * rhs.zeros);
            lemma_add_congruent(
                (lhs.inversion + rhs.inversion) % modulus(),
                lhs.inversion + rhs.inversion,
                (lhs.ones * rhs.zeros) % modulus(),
                lhs.ones * rhs.zeros,
            );
        }
        InversionValue {
            zeros: lhs.zeros.wrapping_add(rhs.zeros),
            ones: lhs.ones.wrapping_add(rhs.ones),
            inversion: lhs.inversion.wrapping_add(rhs.inversion).wrapping_add(
                lhs.ones.wrapping_mul(rhs.zeros),
            ),
        }
    }

    fn identity() -> (res: InversionValue) {
        InversionValue { zeros: 0, ones: 0, inversion: 0 }
    }
}

} // verus!
