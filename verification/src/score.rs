//! Sorted set scores.
//!
//! A score is a double-precision number and is held as its 64 bits. The order
//! of two scores and the form that keeps this order among byte strings follow
//! from the bits alone.

use crate::codec;
use crate::order;
use vstd::prelude::*;

verus! {

/// The bit of the sign.
pub const SIGN_BIT: u64 = 0x8000_0000_0000_0000;

/// The bits of positive infinity.
pub const INFINITY_BITS: u64 = 0x7FF0_0000_0000_0000;

/// The bits without the sign.
pub open spec fn magnitude(bits: u64) -> u64 {
    bits % SIGN_BIT
}

/// The bits are those of not-a-number.
pub open spec fn is_nan(bits: u64) -> bool {
    magnitude(bits) > INFINITY_BITS
}

/// The bits are those of a finite number.
pub open spec fn is_finite(bits: u64) -> bool {
    magnitude(bits) < INFINITY_BITS
}

/// An integer that orders numbers as they are: the magnitude behind the sign.
/// Both zeros have the value 0.
pub open spec fn rank_value(bits: u64) -> int {
    if bits < SIGN_BIT {
        bits as int
    } else {
        -(magnitude(bits) as int)
    }
}

/// `a < b` as numbers.
pub open spec fn score_lt(a: u64, b: u64) -> bool {
    !is_nan(a) && !is_nan(b) && rank_value(a) < rank_value(b)
}

/// `a == b` as numbers.
pub open spec fn score_eq(a: u64, b: u64) -> bool {
    !is_nan(a) && !is_nan(b) && rank_value(a) == rank_value(b)
}

/// `a <= b` as numbers.
pub open spec fn score_le(a: u64, b: u64) -> bool {
    score_lt(a, b) || score_eq(a, b)
}

/// The number whose bytes stand for a score: the sign bit is flipped for a
/// positive score, all bits for a negative one.
pub open spec fn code_of(bits: u64) -> nat {
    if bits < SIGN_BIT {
        (bits + SIGN_BIT) as nat
    } else {
        (u64::MAX - bits) as nat
    }
}

/// The score of such a number.
pub open spec fn bits_of_code(c: nat) -> nat {
    if c >= SIGN_BIT {
        (c - SIGN_BIT) as nat
    } else {
        (u64::MAX - c) as nat
    }
}

/// The eight bytes of a score.
pub open spec fn score_bytes(bits: u64) -> Seq<u8> {
    codec::be(code_of(bits), 8)
}

/// The score that eight bytes hold.
pub open spec fn score_in(b: Seq<u8>) -> u64 {
    bits_of_code(codec::from_be(b)) as u64
}

/// A score survives the trip through its bytes.
pub proof fn law_score_round_trip(bits: u64)
    ensures
        score_bytes(bits).len() == 8,
        score_in(score_bytes(bits)) == bits,
{
    codec::lemma_pow256_values();
    codec::lemma_be_round_trip(code_of(bits), 8);
}

/// The bytes of scores are ordered as the scores are. Only the two zeros,
/// which are equal as numbers, have different bytes: those of the negative
/// one come first.
pub proof fn law_score_bytes_order(a: u64, b: u64)
    requires
        !is_nan(a),
        !is_nan(b),
    ensures
        score_lt(a, b) ==> order::lt(score_bytes(a), score_bytes(b)),
        order::lt(score_bytes(a), score_bytes(b)) ==> score_le(a, b),
{
    codec::lemma_pow256_values();
    codec::lemma_be_order(code_of(a), code_of(b), 8);
}

/// Whether the bits are those of not-a-number.
pub fn nan(bits: u64) -> (r: bool)
    ensures
        r == is_nan(bits),
{
    bits % SIGN_BIT > INFINITY_BITS
}

/// Whether the bits are those of a finite number.
pub fn finite(bits: u64) -> (r: bool)
    ensures
        r == is_finite(bits),
{
    bits % SIGN_BIT < INFINITY_BITS
}

/// Whether `a < b` as numbers.
pub fn less(a: u64, b: u64) -> (r: bool)
    ensures
        r == score_lt(a, b),
{
    if nan(a) || nan(b) {
        return false;
    }
    let x: u64 = a % SIGN_BIT;
    let y: u64 = b % SIGN_BIT;
    if a < SIGN_BIT {
        b < SIGN_BIT && x < y
    } else if b < SIGN_BIT {
        x > 0 || y > 0
    } else {
        y < x
    }
}

/// Whether `a == b` as numbers.
pub fn equal(a: u64, b: u64) -> (r: bool)
    ensures
        r == score_eq(a, b),
{
    if nan(a) || nan(b) {
        return false;
    }
    a == b || (a % SIGN_BIT == 0 && b % SIGN_BIT == 0)
}

/// The bytes of a score.
pub fn encode_score(bits: u64) -> (v: Vec<u8>)
    ensures
        v@ == score_bytes(bits),
{
    let c: u64 = if bits < SIGN_BIT {
        bits + SIGN_BIT
    } else {
        u64::MAX - bits
    };
    let mut v: Vec<u8> = Vec::new();
    codec::push_be(&mut v, c, 8);
    proof {
        assert(v@ =~= score_bytes(bits));
    }
    v
}

/// The score in the first eight bytes.
pub fn decode_score(b: &[u8]) -> (bits: u64)
    requires
        b@.len() >= 8,
    ensures
        bits == score_in(b@.take(8)),
{
    let c: u64 = codec::read_be(b, 0, 8);
    proof {
        assert(b@.subrange(0, 8) =~= b@.take(8));
    }
    if c >= SIGN_BIT {
        c - SIGN_BIT
    } else {
        u64::MAX - c
    }
}

} // verus!
