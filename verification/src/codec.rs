//! Fixed-width big-endian integers.
//!
//! Big-endian keeps the order: of two numbers written in the same width, the
//! smaller one is the smaller byte string. Signed numbers are shifted into
//! the unsigned range first.

use crate::order;
use vstd::prelude::*;

verus! {

/// 256 to the power of `w`.
pub open spec fn pow256(w: nat) -> nat
    decreases w,
{
    if w == 0 {
        1
    } else {
        256 * pow256((w - 1) as nat)
    }
}

/// The `w` bytes of `x`, most significant first.
pub open spec fn be(x: nat, w: nat) -> Seq<u8>
    decreases w,
{
    if w == 0 {
        Seq::empty()
    } else {
        be(x / 256, (w - 1) as nat).push((x % 256) as u8)
    }
}

/// The number written in the bytes of `s`, most significant first.
pub open spec fn from_be(s: Seq<u8>) -> nat
    decreases s.len(),
{
    if s.len() == 0 {
        0
    } else {
        from_be(s.drop_last()) * 256 + s.last() as nat
    }
}

/// A signed 64-bit number as the unsigned number with the same bits.
pub open spec fn to_bits(x: int) -> nat {
    if x >= 0 {
        x as nat
    } else {
        (x + 0x1_0000_0000_0000_0000) as nat
    }
}

/// The signed 64-bit number with the bits of `u`.
pub open spec fn from_bits(u: nat) -> int {
    if u < 0x8000_0000_0000_0000 {
        u as int
    } else {
        u - 0x1_0000_0000_0000_0000
    }
}

/// The bytes of a signed 64-bit number.
pub open spec fn be_i64(x: int) -> Seq<u8> {
    be(to_bits(x), 8)
}

pub proof fn lemma_be_len(x: nat, w: nat)
    ensures
        be(x, w).len() == w,
    decreases w,
{
    if w > 0 {
        lemma_be_len(x / 256, (w - 1) as nat);
    }
}

pub proof fn lemma_from_be_bound(s: Seq<u8>)
    ensures
        from_be(s) < pow256(s.len()),
    decreases s.len(),
{
    if s.len() > 0 {
        lemma_from_be_bound(s.drop_last());
    }
}

pub proof fn lemma_pow256_values()
    ensures
        pow256(4) == 0x1_0000_0000,
        pow256(8) == 0x1_0000_0000_0000_0000,
{
    reveal_with_fuel(pow256, 9);
}

/// Reading what was written gives the number back.
pub proof fn lemma_be_round_trip(x: nat, w: nat)
    requires
        x < pow256(w),
    ensures
        from_be(be(x, w)) == x,
        be(x, w).len() == w,
    decreases w,
{
    if w > 0 {
        assert(x / 256 < pow256((w - 1) as nat)) by (nonlinear_arith)
            requires
                x < 256 * pow256((w - 1) as nat),
        ;
        lemma_be_round_trip(x / 256, (w - 1) as nat);
        assert(be(x, w).drop_last() =~= be(x / 256, (w - 1) as nat));
    }
}

/// Writing what was read gives the bytes back.
pub proof fn lemma_from_be_round_trip(s: Seq<u8>)
    ensures
        be(from_be(s), s.len()) == s,
    decreases s.len(),
{
    if s.len() == 0 {
        assert(be(from_be(s), 0) =~= s);
    } else {
        lemma_from_be_round_trip(s.drop_last());
        let x = from_be(s);
        assert(x / 256 == from_be(s.drop_last()) && x % 256 == s.last()) by (nonlinear_arith)
            requires
                x == from_be(s.drop_last()) * 256 + s.last() as nat,
                s.last() < 256,
        ;
        assert(be(x, s.len()) =~= s);
    }
}

/// Different numbers have different bytes.
pub proof fn lemma_be_injective(x: nat, y: nat, w: nat)
    requires
        x < pow256(w),
        y < pow256(w),
        be(x, w) == be(y, w),
    ensures
        x == y,
{
    lemma_be_round_trip(x, w);
    lemma_be_round_trip(y, w);
}

proof fn lemma_lt_push(s: Seq<u8>, t: Seq<u8>, x: u8, y: u8)
    requires
        s.len() == t.len(),
    ensures
        order::lt(s.push(x), t.push(y)) == (order::lt(s, t) || (s == t && x < y)),
    decreases s.len(),
{
    let a = s.push(x);
    let b = t.push(y);
    if s.len() == 0 {
        assert(s =~= t);
        assert(!order::lt(a.drop_first(), b.drop_first()));
    } else {
        assert(a.drop_first() =~= s.drop_first().push(x));
        assert(b.drop_first() =~= t.drop_first().push(y));
        lemma_lt_push(s.drop_first(), t.drop_first(), x, y);
        if s.drop_first() == t.drop_first() && s[0] == t[0] {
            assert(s =~= seq![s[0]] + s.drop_first());
            assert(t =~= seq![t[0]] + t.drop_first());
        }
    }
}

/// Big-endian numbers of one width are ordered as byte strings the way they
/// are ordered as numbers.
pub proof fn lemma_be_order(x: nat, y: nat, w: nat)
    requires
        x < pow256(w),
        y < pow256(w),
    ensures
        order::lt(be(x, w), be(y, w)) == (x < y),
    decreases w,
{
    if w == 0 {
        assert(be(x, w) =~= be(y, w));
    } else {
        let v = (w - 1) as nat;
        assert(x / 256 < pow256(v) && y / 256 < pow256(v)) by (nonlinear_arith)
            requires
                x < 256 * pow256(v),
                y < 256 * pow256(v),
        ;
        lemma_be_order(x / 256, y / 256, v);
        lemma_be_len(x / 256, v);
        lemma_be_len(y / 256, v);
        lemma_lt_push(be(x / 256, v), be(y / 256, v), (x % 256) as u8, (y % 256) as u8);
        if be(x / 256, v) == be(y / 256, v) {
            lemma_be_injective(x / 256, y / 256, v);
        }
    }
}

/// A signed number survives the trip through its bits.
pub proof fn lemma_bits_round_trip(x: i64)
    ensures
        from_bits(to_bits(x as int)) == x,
        to_bits(x as int) < 0x1_0000_0000_0000_0000,
{
}

/// Appends the `w` bytes of `x`.
pub fn push_be(buf: &mut Vec<u8>, x: u64, w: usize)
    ensures
        final(buf)@ == old(buf)@ + be(x as nat, w as nat),
    decreases w,
{
    if w > 0 {
        push_be(buf, x / 256, w - 1);
        buf.push((x % 256) as u8);
        proof {
            assert(buf@ =~= old(buf)@ + be(x as nat, w as nat));
        }
    } else {
        proof {
            assert(buf@ =~= old(buf)@ + be(x as nat, w as nat));
        }
    }
}

/// The signed number's bits as an unsigned number.
pub fn bits_of(x: i64) -> (u: u64)
    ensures
        u == to_bits(x as int),
{
    if x >= 0 {
        x as u64
    } else {
        let m: i64 = -(x + 1);
        u64::MAX - (m as u64)
    }
}

/// The signed number with the given bits.
pub fn signed_of(u: u64) -> (x: i64)
    ensures
        x == from_bits(u as nat),
{
    if u < 0x8000_0000_0000_0000 {
        u as i64
    } else {
        let m: u64 = u64::MAX - u;
        -(m as i64) - 1
    }
}

/// Reads the number written in `data[pos .. pos + w]`.
pub fn read_be(data: &[u8], pos: usize, w: usize) -> (x: u64)
    requires
        w <= 8,
        pos + w <= data@.len(),
    ensures
        x == from_be(data@.subrange(pos as int, pos + w)),
{
    let mut x: u64 = 0;
    let mut i: usize = 0;
    proof {
        assert(data@.subrange(pos as int, pos as int) =~= Seq::empty());
    }
    while i < w
        invariant
            i <= w <= 8,
            pos + w <= data@.len() == data.len(),
            x == from_be(data@.subrange(pos as int, pos + i)),
        decreases w - i,
    {
        let ghost s = data@.subrange(pos as int, pos + i);
        let ghost t = data@.subrange(pos as int, pos + i + 1);
        proof {
            assert(t.drop_last() =~= s);
            assert(t.last() == data@[pos + i]);
            lemma_from_be_bound(t);
            reveal_with_fuel(pow256, 9);
            assert(pow256(t.len()) <= pow256(8));
        }
        x = x * 256 + data[pos + i] as u64;
        i = i + 1;
    }
    x
}

} // verus!
