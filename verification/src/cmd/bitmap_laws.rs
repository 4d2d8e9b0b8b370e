//! What holds of bitmaps: what SETBIT writes GETBIT reads, and BITOP combines
//! its sources bit by bit.

use super::bitmap;
use super::bitmap::BitOp;
use super::laws;
use super::Moment;
use crate::cmd;
use crate::codec;
use crate::encoding;
use crate::error::ErrorView;
use crate::order;
use crate::protocol::RespView;
use crate::storage::{Cf, StoreView};
use crate::table;
use crate::table::Entries;
use crate::types;
use crate::types::{DataType, Metadata};
use vstd::prelude::*;

verus! {

/// The metadata that SETBIT finds or makes.
pub open spec fn setbit_meta(s: StoreView, ns: Seq<u8>, key: Seq<u8>, at: Moment) -> Metadata {
    match bitmap::bitmap_meta(s, ns, key, at.now_ms)->Ok_0 {
        Some(m) => m,
        None => types::fresh_metadata(DataType::Bitmap, at.version),
    }
}

/// GETBIT after SETBIT reads the bit that was set, and at every other offset
/// what it read before, zero for a bitmap that is made anew, with a version
/// behind all that are stored. `offset` and `other` are the texts of the offsets.
pub proof fn law_getbit_after_setbit(
    s: StoreView,
    ns: Seq<u8>,
    key: Seq<u8>,
    offset: Seq<u8>,
    value: Seq<u8>,
    other: Seq<u8>,
    at: Moment,
    last: u64,
)
    requires
        bitmap::setbit_outcome(s, ns, seq![key, offset, value], at).reply is Ok,
        bitmap::offset_in(other) is Ok,
        bitmap::offset_in(other) != bitmap::offset_in(offset),
        bitmap::bitmap_meta(s, ns, key, at.now_ms)->Ok_0 is None ==> laws::versions_upto(
            s,
            ns,
            key,
            last,
        ) && last < at.version,
    ensures
        ({
            let after = bitmap::setbit_outcome(s, ns, seq![key, offset, value], at).store;
            &&& bitmap::getbit_reply(after, ns, seq![key, offset], at.now_ms) == Ok::<
                _,
                ErrorView,
            >(RespView::Integer(bitmap::bit_in(value)->Ok_0 as i64))
            &&& bitmap::getbit_reply(after, ns, seq![key, other], at.now_ms)
                == bitmap::getbit_reply(s, ns, seq![key, other], at.now_ms)
        }),
{
    let a = seq![key, offset, value];
    assert(a[0] == key && a[1] == offset && a[2] == value);
    let m = setbit_meta(s, ns, key, at);
    let o = bitmap::setbit_outcome(s, ns, a, at);
    let n = bitmap::offset_in(offset)->Ok_0;
    let p = n as int / 8;
    let after = Metadata {
        size: if p + 1 > m.size {
            (p + 1) as u64
        } else {
            m.size
        },
        ..m
    };
    cmd::lemma_fresh_meta(DataType::Bitmap, at.version);
    if bitmap::bitmap_meta(s, ns, key, at.now_ms)->Ok_0 is Some {
        cmd::lemma_typed_meta_read(
            s,
            ns,
            key,
            at.now_ms,
            DataType::Bitmap,
            "invalid metadata encoding"@,
        );
    }
    cmd::lemma_typed_meta_written(
        o.store,
        ns,
        key,
        after,
        at.now_ms,
        DataType::Bitmap,
        "invalid metadata encoding"@,
    );
    let x = bitmap::offset_in(other)->Ok_0 as int;
    if bitmap::bitmap_meta(s, ns, key, at.now_ms)->Ok_0 is None {
        let index = x / 8 / 1024;
        assert(!s.subkey.contains_key(bitmap::fragment_key(key, at.version, index, ns)));
        lemma_no_bit((x % 8) as u8);
        assert(bitmap::bit_at(s.subkey, ns, key, at.version, x) == 0);
    }
    bitmap::law_set_bit_is_read_back(
        s.subkey,
        ns,
        key,
        m.version,
        n,
        bitmap::bit_in(value)->Ok_0,
        bitmap::offset_in(other)->Ok_0,
    );
    assert(seq![key, offset][0] == key && seq![key, offset][1] == offset);
    assert(seq![key, other][0] == key && seq![key, other][1] == other);
}

/// A bit of a source; zero where there is none.
pub open spec fn source_bit(
    e: Entries,
    ns: Seq<u8>,
    a: Seq<Seq<u8>>,
    ms: Seq<Option<Metadata>>,
    i: int,
    offset: int,
) -> u8 {
    bitmap::bit_of(bitmap::source_byte(e, ns, a, ms, i, offset / 8), (offset % 8) as u8)
}

/// How many of the first `n` sources have a bit.
pub open spec fn sources_with(
    e: Entries,
    ns: Seq<u8>,
    a: Seq<Seq<u8>>,
    ms: Seq<Option<Metadata>>,
    offset: int,
    n: nat,
) -> nat
    decreases n,
{
    if n == 0 {
        0
    } else {
        sources_with(e, ns, a, ms, offset, (n - 1) as nat) + source_bit(
            e,
            ns,
            a,
            ms,
            n - 1,
            offset,
        ) as nat
    }
}

/// The bit that an operation makes of `n` sources of which `count` have it:
/// all of them, any of them, an odd number of them, or not the only one.
pub open spec fn bit_made(op: BitOp, count: nat, n: nat) -> bool {
    match op {
        BitOp::And => count == n,
        BitOp::Or => count > 0,
        BitOp::Xor => count % 2 == 1,
        BitOp::Not => count == 0,
    }
}

pub(crate) proof fn lemma_bit(x: u8, i: u8)
    requires
        i < 8,
    ensures
        bitmap::bit_of(x, i) == 0 || bitmap::bit_of(x, i) == 1,
        bitmap::bit_of(!x, i) == 1 - bitmap::bit_of(x, i),
{
    assert((x >> i) & 1u8 == 0 || (x >> i) & 1u8 == 1) by (bit_vector)
        requires
            i < 8,
    ;
    assert((!x >> i) & 1u8 == 1 - ((x >> i) & 1u8)) by (bit_vector)
        requires
            i < 8,
    ;
}

proof fn lemma_combined_bit(op: BitOp, x: u8, y: u8, i: u8)
    requires
        i < 8,
        op != BitOp::Not,
    ensures
        ({
            let (b, c) = (bitmap::bit_of(x, i), bitmap::bit_of(y, i));
            bitmap::bit_of(bitmap::combined(op, x, y), i) == match op {
                BitOp::And => b * c,
                BitOp::Or => b + c - b * c,
                _ => b + c - 2 * b * c,
            }
        }),
{
    lemma_bit(x, i);
    lemma_bit(y, i);
    let (b, c) = (bitmap::bit_of(x, i), bitmap::bit_of(y, i));
    assert(((x & y) >> i) & 1u8 == ((x >> i) & 1u8) & ((y >> i) & 1u8)) by (bit_vector);
    assert(((x | y) >> i) & 1u8 == ((x >> i) & 1u8) | ((y >> i) & 1u8)) by (bit_vector);
    assert(((x ^ y) >> i) & 1u8 == ((x >> i) & 1u8) ^ ((y >> i) & 1u8)) by (bit_vector);
    assert((b & c == b * c) && (b | c == b + c - b * c) && (b ^ c == b + c - 2 * b * c))
        by (bit_vector)
        requires
            b == 0 || b == 1,
            c == 0 || c == 1,
    ;
}

proof fn lemma_folded_bit(
    op: BitOp,
    e: Entries,
    ns: Seq<u8>,
    a: Seq<Seq<u8>>,
    ms: Seq<Option<Metadata>>,
    offset: int,
    n: nat,
)
    requires
        0 <= offset,
        0 < n,
        op == BitOp::Not ==> n == 1,
    ensures
        ({
            let count = sources_with(e, ns, a, ms, offset, n);
            let b = bitmap::folded(op, e, ns, a, ms, offset / 8, n);
            &&& count <= n
            &&& bitmap::bit_of(b, (offset % 8) as u8) == if bit_made(op, count, n) {
                1u8
            } else {
                0u8
            }
        }),
    decreases n,
{
    let i = (offset % 8) as u8;
    let p = offset / 8;
    let y = bitmap::source_byte(e, ns, a, ms, n - 1, p);
    lemma_bit(y, i);
    assert(sources_with(e, ns, a, ms, offset, 0) == 0);
    if n > 1 {
        lemma_folded_bit(op, e, ns, a, ms, offset, (n - 1) as nat);
        let x = bitmap::folded(op, e, ns, a, ms, p, (n - 1) as nat);
        lemma_combined_bit(op, x, y, i);
        let (b, c) = (bitmap::bit_of(x, i), bitmap::bit_of(y, i));
        assert(b * c == 0 || b * c == 1) by (nonlinear_arith)
            requires
                b == 0 || b == 1,
                c == 0 || c == 1,
        ;
        if c == 0 {
            assert(b * c == 0) by (nonlinear_arith)
                requires
                    c == 0,
            ;
        } else {
            assert(b * c == b) by (nonlinear_arith)
                requires
                    c == 1,
            ;
        }
    } else {
        assert(sources_with(e, ns, a, ms, offset, 1) == source_bit(e, ns, a, ms, 0, offset));
    }
}

proof fn lemma_result_read(
    op: BitOp,
    e: Entries,
    ns: Seq<u8>,
    a: Seq<Seq<u8>>,
    ms: Seq<Option<Metadata>>,
    version: u64,
    n: nat,
    index: int,
)
    requires
        0 <= index < n <= 0x1_0000_0000_0000_0000,
    ensures
        bitmap::fragment(
            bitmap::result_entries(op, e, ns, a, ms, version, n),
            ns,
            a[1],
            version,
            index,
        ) == bitmap::result_fragment(op, e, ns, a, ms, index, ms.len()),
    decreases n,
{
    if index < n - 1 {
        lemma_result_read(op, e, ns, a, ms, version, (n - 1) as nat, index);
        let (x, y) = (codec::be(index as nat, 8), codec::be((n - 1) as nat, 8));
        encoding::lemma_subkey_injective(a[1], version, x, y, ns);
        codec::lemma_pow256_values();
        if x == y {
            codec::lemma_be_injective(index as nat, (n - 1) as nat, 8);
        }
    }
}

/// BITOP makes every bit of its result of the bits of the sources at the same
/// offset: AND if all of them have it, OR if any of them, XOR if an odd number
/// of them, NOT if the only one has not. The result is as long as the longest
/// source, and its length is replied.
pub proof fn law_bitop_combines_bits(
    s: StoreView,
    ns: Seq<u8>,
    a: Seq<Seq<u8>>,
    at: Moment,
    offset: int,
)
    requires
        bitmap::bitop_outcome(s, ns, a, at).reply is Ok,
        0 <= offset,
        ({
            let ms = bitmap::source_metas(s, ns, a, at.now_ms, (a.len() - 2) as nat)->Ok_0;
            offset < 8 * bitmap::longest(ms)
        }),
    ensures
        ({
            let o = bitmap::bitop_outcome(s, ns, a, at);
            let op = bitmap::operation_in(a[0])->0;
            let n = (a.len() - 2) as nat;
            let ms = bitmap::source_metas(s, ns, a, at.now_ms, n)->Ok_0;
            let count = sources_with(s.subkey, ns, a, ms, offset, n);
            &&& o.reply == Ok::<_, ErrorView>(cmd::count_reply(bitmap::longest(ms)))
            &&& bitmap::bit_at(o.store.subkey, ns, a[1], at.version, offset) == if bit_made(
                op,
                count,
                n,
            ) {
                1u8
            } else {
                0u8
            }
        }),
{
    let o = bitmap::bitop_outcome(s, ns, a, at);
    let op = bitmap::operation_in(a[0])->0;
    let n = (a.len() - 2) as nat;
    let ms = bitmap::source_metas(s, ns, a, at.now_ms, n)->Ok_0;
    lemma_sources(s, ns, a, at.now_ms, n);
    let size = bitmap::longest(ms);
    let fragments = ((size + 1023) / 1024) as nat;
    let p = offset / 8;
    let index = p / 1024;
    assert(0 <= index < fragments);
    lemma_result_read(op, s.subkey, ns, a, ms, at.version, fragments, index);
    lemma_folded_bit(op, s.subkey, ns, a, ms, offset, n);
    assert(1024 * index + p % 1024 == p);
    assert(p % 1024 < bitmap::fragment_len(size, index));
    assert(bitmap::byte_at(o.store.subkey, ns, a[1], at.version, p) == bitmap::folded(
        op,
        s.subkey,
        ns,
        a,
        ms,
        p,
        n,
    ));
}

proof fn lemma_no_fragment(
    op: BitOp,
    e: Entries,
    ns: Seq<u8>,
    a: Seq<Seq<u8>>,
    ms: Seq<Option<Metadata>>,
    version: u64,
    n: nat,
    index: int,
)
    requires
        n <= index < 0x1_0000_0000_0000_0000,
        !e.contains_key(bitmap::fragment_key(a[1], version, index, ns)),
    ensures
        !bitmap::result_entries(op, e, ns, a, ms, version, n).contains_key(
            bitmap::fragment_key(a[1], version, index, ns),
        ),
    decreases n,
{
    if n > 0 {
        lemma_no_fragment(op, e, ns, a, ms, version, (n - 1) as nat, index);
        let (x, y) = (codec::be(index as nat, 8), codec::be((n - 1) as nat, 8));
        encoding::lemma_subkey_injective(a[1], version, x, y, ns);
        codec::lemma_pow256_values();
        if x == y {
            codec::lemma_be_injective(index as nat, (n - 1) as nat, 8);
        }
    }
}

pub(crate) proof fn lemma_no_bit(i: u8)
    ensures
        bitmap::bit_of(0, i) == 0,
{
    assert((0u8 >> i) & 1u8 == 0) by (bit_vector);
}

/// GETBIT on the result of BITOP reads the bits that were made of the sources,
/// and zeros from the end of the longest source on, whatever the key of the
/// result held before: the version of the moment is behind all that are stored
/// for it.
pub proof fn law_getbit_after_bitop(
    s: StoreView,
    ns: Seq<u8>,
    a: Seq<Seq<u8>>,
    at: Moment,
    offset: Seq<u8>,
    last: u64,
)
    requires
        bitmap::bitop_outcome(s, ns, a, at).reply is Ok,
        bitmap::offset_in(offset) is Ok,
        laws::versions_upto(s, ns, a[1], last),
        last < at.version,
    ensures
        ({
            let o = bitmap::bitop_outcome(s, ns, a, at);
            let n = (a.len() - 2) as nat;
            let ms = bitmap::source_metas(s, ns, a, at.now_ms, n)->Ok_0;
            let x = bitmap::offset_in(offset)->Ok_0 as int;
            let count = sources_with(s.subkey, ns, a, ms, x, n);
            let set = x < 8 * bitmap::longest(ms) && bit_made(
                bitmap::operation_in(a[0])->0,
                count,
                n,
            );
            bitmap::getbit_reply(o.store, ns, seq![a[1], offset], at.now_ms) == Ok::<
                _,
                ErrorView,
            >(
                RespView::Integer(
                    if set {
                        1
                    } else {
                        0
                    },
                ),
            )
        }),
{
    let o = bitmap::bitop_outcome(s, ns, a, at);
    let op = bitmap::operation_in(a[0])->0;
    let n = (a.len() - 2) as nat;
    let ms = bitmap::source_metas(s, ns, a, at.now_ms, n)->Ok_0;
    let size = bitmap::longest(ms);
    let m = Metadata { size, ..types::fresh_metadata(DataType::Bitmap, at.version) };
    let x = bitmap::offset_in(offset)->Ok_0 as int;
    cmd::lemma_fresh_meta(DataType::Bitmap, at.version);
    cmd::lemma_typed_meta_written(
        o.store,
        ns,
        a[1],
        m,
        at.now_ms,
        DataType::Bitmap,
        "invalid metadata encoding"@,
    );
    let b = seq![a[1], offset];
    assert(b[0] == a[1] && b[1] == offset);
    if x < 8 * size {
        law_bitop_combines_bits(s, ns, a, at, x);
    } else {
        lemma_sources(s, ns, a, at.now_ms, n);
        let fragments = ((size + 1023) / 1024) as nat;
        let p = x / 8;
        let index = p / 1024;
        lemma_no_bit((x % 8) as u8);
        if index < fragments {
            lemma_result_read(op, s.subkey, ns, a, ms, at.version, fragments, index);
            assert(1024 * index + p % 1024 == p);
        } else {
            assert(!s.subkey.contains_key(bitmap::fragment_key(a[1], at.version, index, ns)));
            lemma_no_fragment(op, s.subkey, ns, a, ms, at.version, fragments, index);
        }
        assert(bitmap::byte_at(o.store.subkey, ns, a[1], at.version, p) == 0);
    }
}

proof fn lemma_others_kept(
    op: BitOp,
    e: Entries,
    ns: Seq<u8>,
    a: Seq<Seq<u8>>,
    ms: Seq<Option<Metadata>>,
    version: u64,
    n: nat,
    key: Seq<u8>,
    t: Seq<u8>,
)
    requires
        key != a[1],
        key.len() < 0x1_0000_0000,
        a[1].len() < 0x1_0000_0000,
    ensures
        ({
            let k = encoding::meta_key_of(key, ns) + t;
            table::lookup(bitmap::result_entries(op, e, ns, a, ms, version, n), k)
                == table::lookup(e, k)
        }),
    decreases n,
{
    if n > 0 {
        lemma_others_kept(op, e, ns, a, ms, version, (n - 1) as nat, key, t);
        let k = encoding::meta_key_of(key, ns) + t;
        let p = encoding::meta_key_of(a[1], ns);
        let tail = codec::be(version as nat, 8) + codec::be((n - 1) as nat, 8);
        let f = bitmap::fragment_key(a[1], version, n - 1, ns);
        assert(f =~= p + tail);
        if f == k {
            order::lemma_prefix_append(p, tail);
            laws::lemma_keys_apart(ns, key, t, a[1]);
        }
    }
}

/// BITOP leaves every key but that of its result as it is, its sources, too.
pub proof fn law_bitop_leaves_other_keys(
    s: StoreView,
    ns: Seq<u8>,
    a: Seq<Seq<u8>>,
    at: Moment,
    key: Seq<u8>,
    t: Seq<u8>,
    cf: Cf,
)
    requires
        a.len() >= 2,
        key != a[1],
        key.len() < 0x1_0000_0000,
        a[1].len() < 0x1_0000_0000,
    ensures
        ({
            let k = encoding::meta_key_of(key, ns) + t;
            table::lookup(bitmap::bitop_outcome(s, ns, a, at).store.at(cf), k) == table::lookup(
                s.at(cf),
                k,
            )
        }),
{
    let o = bitmap::bitop_outcome(s, ns, a, at);
    if o.reply is Ok {
        let op = bitmap::operation_in(a[0])->0;
        let ms = bitmap::source_metas(s, ns, a, at.now_ms, (a.len() - 2) as nat)->Ok_0;
        let fragments = ((bitmap::longest(ms) + 1023) / 1024) as nat;
        lemma_others_kept(op, s.subkey, ns, a, ms, at.version, fragments, key, t);
        let k = encoding::meta_key_of(key, ns) + t;
        let mk = encoding::meta_key_of(a[1], ns);
        if k == mk {
            order::lemma_prefix_append(mk, Seq::empty());
            assert(mk + Seq::<u8>::empty() =~= mk);
            laws::lemma_keys_apart(ns, key, t, a[1]);
        }
    }
}

proof fn lemma_sources(s: StoreView, ns: Seq<u8>, a: Seq<Seq<u8>>, now_ms: i64, n: nat)
    requires
        bitmap::source_metas(s, ns, a, now_ms, n) is Ok,
    ensures
        (bitmap::source_metas(s, ns, a, now_ms, n)->Ok_0).len() == n,
    decreases n,
{
    if n > 0 {
        lemma_sources(s, ns, a, now_ms, (n - 1) as nat);
    }
}

} // verus!
