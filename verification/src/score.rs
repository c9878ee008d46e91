//! The scores of a sorted set.
//!
//! A score is a number in the binary64 format of IEEE 754. The library keeps
//! its bits, by which scores are ordered, and the text that stands for it in
//! replies. Adding scores and writing them out is done by the caller.

use vstd::arithmetic::power2::{lemma2_to64, lemma_pow2_pos, lemma_pow2_strictly_increases, lemma_pow2_unfold, pow2};
use vstd::prelude::*;

use crate::lex::copy;

verus! {

/// A score: the bits of a binary64 number, and the text that stands for it.
#[derive(PartialEq, Debug)]
pub struct Score {
    pub bits: u64,
    pub text: Vec<u8>,
}

/// The weight of the sign bit.
pub const SIGN: u64 = 0x8000_0000_0000_0000;

/// The bits of positive infinity, the largest that stand for a number.
pub const INFINITY: u64 = 0x7ff0_0000_0000_0000;

/// What the bits say without the sign bit.
pub open spec fn magnitude(bits: u64) -> int {
    if bits >= SIGN {
        bits - SIGN
    } else {
        bits as int
    }
}

/// Whether the bits stand for a number, and not for NaN.
pub open spec fn is_number(bits: u64) -> bool {
    magnitude(bits) <= INFINITY
}

/// The rank of a number among all numbers: of two numbers the smaller has the
/// smaller rank, and both zeros have the same.
pub open spec fn rank_of(bits: u64) -> int {
    if bits >= SIGN {
        -magnitude(bits)
    } else {
        magnitude(bits)
    }
}

/// The number that bits stand for, in units of the smallest positive one: bit
/// 63 is the sign, the next eleven the exponent, and the rest the fraction.
/// Infinity counts as the power of two above all finite numbers.
pub open spec fn scaled(bits: u64) -> int {
    let exponent = bits as int / 0x10_0000_0000_0000 % 2048;
    let fraction = bits as int % 0x10_0000_0000_0000;
    let size = if exponent == 0 {
        fraction
    } else {
        (0x10_0000_0000_0000 + fraction) * pow2((exponent - 1) as nat)
    };
    if bits as int / 0x8000_0000_0000_0000 == 1 {
        -size
    } else {
        size
    }
}

/// The size of a number without its sign.
spec fn size_of(m: int) -> int {
    let exponent = m / 0x10_0000_0000_0000;
    let fraction = m % 0x10_0000_0000_0000;
    if exponent == 0 {
        fraction
    } else {
        (0x10_0000_0000_0000 + fraction) * pow2((exponent - 1) as nat)
    }
}

/// What the bits say without the sign grows with the size of the number.
proof fn lemma_size_grows(a: int, b: int)
    requires
        0 <= a < b < 0x8000_0000_0000_0000,
    ensures
        0 <= size_of(a) < size_of(b),
{
    let ea = a / 0x10_0000_0000_0000;
    let fa = a % 0x10_0000_0000_0000;
    let eb = b / 0x10_0000_0000_0000;
    let fb = b % 0x10_0000_0000_0000;
    let one = 0x10_0000_0000_0000int;
    lemma2_to64();
    if eb > 0 {
        lemma_pow2_pos((eb - 1) as nat);
    }
    if ea > 0 {
        lemma_pow2_pos((ea - 1) as nat);
        let p = pow2((ea - 1) as nat) as int;
        assert((one + fa) * p >= 0) by (nonlinear_arith)
            requires
                one >= 0,
                fa >= 0,
                p >= 0,
        ;
    }
    if ea == eb {
        if ea > 0 {
            let p = pow2((ea - 1) as nat) as int;
            assert((one + fa) * p < (one + fb) * p) by (nonlinear_arith)
                requires
                    fa < fb,
                    p > 0,
            ;
        }
    } else {
        let q = pow2((eb - 1) as nat) as int;
        assert((one + fb) * q >= one * q) by (nonlinear_arith)
            requires
                fb >= 0,
                q > 0,
        ;
        if ea == 0 {
            assert(one * q >= one) by (nonlinear_arith)
                requires
                    q >= 1,
                    one >= 0,
            ;
        } else {
            let p = pow2((ea - 1) as nat) as int;
            lemma_pow2_unfold(ea as nat);
            if ea < eb - 1 {
                lemma_pow2_strictly_increases(ea as nat, (eb - 1) as nat);
            }
            assert(q >= 2 * p);
            assert((one + fa) * p < (one + one) * p) by (nonlinear_arith)
                requires
                    fa < one,
                    p > 0,
            ;
            assert((one + one) * p <= one * q) by (nonlinear_arith)
                requires
                    q >= 2 * p,
                    one > 0,
            ;
        }
    }
}

/// The sign and the rest of the bits make up the number.
proof fn lemma_scaled_parts(bits: u64)
    ensures
        bits < 0x8000_0000_0000_0000 ==> scaled(bits) == size_of(bits as int),
        bits >= 0x8000_0000_0000_0000 ==> scaled(bits) == -size_of(bits - 0x8000_0000_0000_0000),
{
    if bits >= 0x8000_0000_0000_0000 {
        let m = bits - 0x8000_0000_0000_0000;
        assert(bits as int / 0x10_0000_0000_0000 % 2048 == m / 0x10_0000_0000_0000);
        assert(bits as int % 0x10_0000_0000_0000 == m % 0x10_0000_0000_0000);
    }
}

/// Of two numbers the smaller has the smaller rank, and two have the same rank
/// only if they are equal.
pub proof fn rank_orders_numbers(a: u64, b: u64)
    ensures
        rank_of(a) < rank_of(b) <==> scaled(a) < scaled(b),
        rank_of(a) == rank_of(b) <==> scaled(a) == scaled(b),
{
    lemma_scaled_parts(a);
    lemma_scaled_parts(b);
    let sign = 0x8000_0000_0000_0000int;
    let x = if a >= sign { a - sign } else { a as int };
    let y = if b >= sign { b - sign } else { b as int };
    if x < y {
        lemma_size_grows(x, y);
    } else if y < x {
        lemma_size_grows(y, x);
    }
    if x > 0 {
        lemma_size_grows(0, x);
    }
    if y > 0 {
        lemma_size_grows(0, y);
    }
}

/// Ranks tell any two bits apart but those of the two zeros, and order them:
/// without the sign bit upwards, with it downwards and below all others.
pub proof fn rank_orders_bits(a: u64, b: u64)
    requires
        a < b,
    ensures
        b < 0x8000_0000_0000_0000 ==> rank_of(a) < rank_of(b),
        a >= 0x8000_0000_0000_0000 ==> rank_of(b) < rank_of(a),
        a < 0x8000_0000_0000_0000 < b ==> rank_of(b) < rank_of(a),
        rank_of(a) == rank_of(b) ==> a == 0 && b == 0x8000_0000_0000_0000,
        rank_of(0) == rank_of(0x8000_0000_0000_0000),
{
}

/// All bits stand for a number but those whose exponent is all ones and whose
/// fraction is not zero.
pub proof fn nan_is_no_number(bits: u64)
    ensures
        is_number(bits) <==> !(bits as int / 0x10_0000_0000_0000 % 2048 == 2047 && bits as int % 0x10_0000_0000_0000 != 0),
{
    let m = if bits >= SIGN { bits - SIGN } else { bits as int };
    assert(bits as int / 0x10_0000_0000_0000 % 2048 == m / 0x10_0000_0000_0000);
    assert(bits as int % 0x10_0000_0000_0000 == m % 0x10_0000_0000_0000);
}

/// A score is ranked by its bits alone.
pub proof fn score_ranked_by_bits(a: Score, b: Score)
    ensures
        a.rank() == rank_of(a.bits),
        a.rank() < b.rank() <==> scaled(a.bits) < scaled(b.bits),
        a.wf() == is_number(a.bits),
{
    rank_orders_numbers(a.bits, b.bits);
}

impl Score {
    /// The score stands for a number.
    pub open spec fn wf(&self) -> bool {
        is_number(self.bits)
    }

    /// The rank of the score, by which scores are ordered.
    pub open spec fn rank(&self) -> int {
        rank_of(self.bits)
    }

    /// The score with the given bits and text. There is none for NaN.
    pub fn new(bits: u64, text: Vec<u8>) -> (r: Option<Score>)
        ensures
            r is Some <==> is_number(bits),
            r matches Some(s) ==> s.bits == bits && s.text@ == text@,
    {
        let magnitude: u64 = if bits >= SIGN { bits - SIGN } else { bits };
        if magnitude <= INFINITY {
            Some(Score { bits, text })
        } else {
            None
        }
    }

    /// The rank as a machine number.
    pub fn rank_key(&self) -> (r: i64)
        ensures
            r == self.rank(),
    {
        if self.bits >= SIGN {
            let magnitude: i64 = (self.bits - SIGN) as i64;
            -magnitude
        } else {
            self.bits as i64
        }
    }

    /// A copy of the score.
    pub fn duplicate(&self) -> (r: Score)
        ensures
            r.bits == self.bits,
            r.text@ == self.text@,
    {
        Score { bits: self.bits, text: copy(&self.text) }
    }
}

} // verus!
