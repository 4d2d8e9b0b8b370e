//! What holds of bitmaps, told by the bits that GETBIT replies: SETBIT changes
//! one of them, BITCOUNT counts them, and BITOP combines them.

use super::bitmap;
use super::bitmap_laws;
use super::laws;
use super::Moment;
use crate::cmd;
use crate::codec;
use crate::error::ErrorView;
use crate::protocol::RespView;
use crate::storage::StoreView;
use crate::table::Entries;
use crate::text;
use crate::types;
use crate::types::{DataType, Metadata};
use vstd::prelude::*;

verus! {

/// GETBIT replies 1 at an offset.
pub open spec fn bit_replied(
    s: StoreView,
    ns: Seq<u8>,
    key: Seq<u8>,
    offset: u64,
    now_ms: i64,
) -> bool {
    bitmap::getbit_reply(s, ns, seq![key, text::dec(offset as nat)], now_ms) == Ok::<_, ErrorView>(
        RespView::Integer(1),
    )
}

/// How many bytes the metadata of a key says that its bitmap has; none for a key
/// that is not there.
pub open spec fn bytes_of(s: StoreView, ns: Seq<u8>, key: Seq<u8>, now_ms: i64) -> int {
    match bitmap::bitmap_meta(s, ns, key, now_ms) {
        Ok(Some(m)) => m.size as int,
        _ => 0,
    }
}

/// A key holds a bitmap or nothing, and no bit behind the bytes that its metadata
/// counts is set.
pub open spec fn bitmap_ok(s: StoreView, ns: Seq<u8>, key: Seq<u8>, now_ms: i64) -> bool {
    &&& bitmap::bitmap_meta(s, ns, key, now_ms) is Ok
    &&& bytes_of(s, ns, key, now_ms) <= 0x2000_0000_0000_0000
    &&& forall|offset: u64| #[trigger]
        bit_replied(s, ns, key, offset, now_ms) ==> offset as int / 8 < bytes_of(s, ns, key, now_ms)
}

/// The offsets in the bytes from `first` to `last`, both included, at which
/// GETBIT replies 1.
pub open spec fn ones_replied(
    s: StoreView,
    ns: Seq<u8>,
    key: Seq<u8>,
    now_ms: i64,
    first: int,
    last: int,
) -> Set<u64> {
    Set::new(
        |offset: u64|
            first <= offset as int / 8 <= last && bit_replied(s, ns, key, offset, now_ms),
    )
}

/// What GETBIT replies at an offset that is written in decimal digits.
proof fn lemma_bit_replied(s: StoreView, ns: Seq<u8>, key: Seq<u8>, offset: u64, now_ms: i64)
    requires
        bitmap::bitmap_meta(s, ns, key, now_ms) is Ok,
    ensures
        ({
            let a = seq![key, text::dec(offset as nat)];
            let set = match bitmap::bitmap_meta(s, ns, key, now_ms)->Ok_0 {
                Some(m) => bitmap::bit_at(s.subkey, ns, key, m.version, offset as int) == 1,
                None => false,
            };
            &&& bitmap::offset_in(text::dec(offset as nat)) == Ok::<_, ErrorView>(offset)
            &&& bit_replied(s, ns, key, offset, now_ms) == set
            &&& bitmap::getbit_reply(s, ns, a, now_ms) == Ok::<_, ErrorView>(
                RespView::Integer(
                    if set {
                        1
                    } else {
                        0
                    },
                ),
            )
        }),
{
    text::law_decimal_round_trip(offset as nat, 0);
    let a = seq![key, text::dec(offset as nat)];
    assert(a[0] == key && a[1] == text::dec(offset as nat));
    match bitmap::bitmap_meta(s, ns, key, now_ms)->Ok_0 {
        Some(m) => {
            bitmap_laws::lemma_bit(
                bitmap::byte_at(s.subkey, ns, key, m.version, offset as int / 8),
                (offset % 8) as u8,
            );
        },
        None => {},
    }
}

/// How many of the bits from `from` up to and without `upto` are set.
spec fn bits_set(
    e: Entries,
    ns: Seq<u8>,
    key: Seq<u8>,
    version: u64,
    from: int,
    upto: int,
) -> nat
    decreases upto - from,
{
    if from >= upto {
        0
    } else {
        bits_set(e, ns, key, version, from, upto - 1) + bitmap::bit_at(
            e,
            ns,
            key,
            version,
            upto - 1,
        ) as nat
    }
}

proof fn lemma_byte(
    e: Entries,
    ns: Seq<u8>,
    key: Seq<u8>,
    version: u64,
    from: int,
    p: int,
    n: nat,
)
    requires
        0 <= from <= 8 * p,
        n <= 8,
    ensures
        bits_set(e, ns, key, version, from, 8 * p + n) == bits_set(
            e,
            ns,
            key,
            version,
            from,
            8 * p,
        ) + bitmap::ones(bitmap::byte_at(e, ns, key, version, p), n),
    decreases n,
{
    if n > 0 {
        lemma_byte(e, ns, key, version, from, p, (n - 1) as nat);
        let x = 8 * p + n - 1;
        assert(x / 8 == p && x % 8 == n - 1);
    }
}

proof fn lemma_bytes(
    e: Entries,
    ns: Seq<u8>,
    key: Seq<u8>,
    version: u64,
    lo: int,
    hi: int,
)
    requires
        0 <= lo <= hi,
    ensures
        bits_set(e, ns, key, version, 8 * lo, 8 * hi) == bitmap::ones_between(
            e,
            ns,
            key,
            version,
            lo,
            hi,
        ),
    decreases hi - lo,
{
    if lo < hi {
        lemma_bytes(e, ns, key, version, lo, hi - 1);
        lemma_byte(e, ns, key, version, 8 * lo, hi - 1, 8);
    }
}

proof fn lemma_set_of_bits(
    e: Entries,
    ns: Seq<u8>,
    key: Seq<u8>,
    version: u64,
    from: int,
    upto: int,
)
    requires
        0 <= from,
        upto <= 0x1_0000_0000_0000_0000,
    ensures
        ({
            let set = Set::new(
                |o: u64| from <= o < upto && bitmap::bit_at(e, ns, key, version, o as int) == 1,
            );
            set.finite() && set.len() == bits_set(e, ns, key, version, from, upto)
        }),
    decreases upto - from,
{
    let set = Set::new(
        |o: u64| from <= o < upto && bitmap::bit_at(e, ns, key, version, o as int) == 1,
    );
    if from >= upto {
        assert(set =~= Set::<u64>::empty());
    } else {
        lemma_set_of_bits(e, ns, key, version, from, upto - 1);
        let before = Set::new(
            |o: u64| from <= o < upto - 1 && bitmap::bit_at(e, ns, key, version, o as int) == 1,
        );
        let last = (upto - 1) as u64;
        bitmap_laws::lemma_bit(
            bitmap::byte_at(e, ns, key, version, last as int / 8),
            (last % 8) as u8,
        );
        if bitmap::bit_at(e, ns, key, version, last as int) == 1 {
            assert(set =~= before.insert(last));
        } else {
            assert(set =~= before);
        }
    }
}

/// The offsets at which GETBIT replies 1 in some bytes, counted.
proof fn lemma_ones_counted(
    s: StoreView,
    ns: Seq<u8>,
    key: Seq<u8>,
    now_ms: i64,
    m: Metadata,
    first: int,
    last: int,
)
    requires
        bitmap::bitmap_meta(s, ns, key, now_ms) == Ok::<_, ErrorView>(Some(m)),
        0 <= first,
        last < 0x2000_0000_0000_0000,
    ensures
        ones_replied(s, ns, key, now_ms, first, last).finite(),
        ones_replied(s, ns, key, now_ms, first, last).len() == bitmap::ones_between(
            s.subkey,
            ns,
            key,
            m.version,
            first,
            last + 1,
        ),
{
    let e = s.subkey;
    let (from, upto) = (8 * first, 8 * (last + 1));
    let set = Set::new(
        |o: u64| from <= o < upto && bitmap::bit_at(e, ns, key, m.version, o as int) == 1,
    );
    lemma_set_of_bits(e, ns, key, m.version, from, upto);
    assert forall|o: u64| ones_replied(s, ns, key, now_ms, first, last).contains(o)
        == set.contains(o) by {
        lemma_bit_replied(s, ns, key, o, now_ms);
    }
    assert(ones_replied(s, ns, key, now_ms, first, last) =~= set);
    if first <= last + 1 {
        lemma_bytes(e, ns, key, m.version, first, last + 1);
    }
}

/// A byte of a bitmap of `size` bytes: a negative number counts from the end, and
/// what lies outside stands for the nearest byte.
pub open spec fn byte_place(i: int, size: int) -> int {
    if i >= size {
        size - 1
    } else if i >= 0 {
        i
    } else if size + i >= 0 {
        size + i
    } else {
        0
    }
}

/// BITCOUNT of a key replies at how many offsets GETBIT replies 1, and with two
/// numbers of bytes at how many of the offsets in these bytes and between them.
#[verifier::rlimit(60)]
pub proof fn law_bitcount_counts_the_ones(
    s: StoreView,
    ns: Seq<u8>,
    key: Seq<u8>,
    start: Seq<u8>,
    end: Seq<u8>,
    now_ms: i64,
)
    requires
        bitmap_ok(s, ns, key, now_ms),
        text::i64_in(start) is Some,
        text::i64_in(end) is Some,
    ensures
        ({
            let size = bytes_of(s, ns, key, now_ms);
            let all = ones_replied(s, ns, key, now_ms, 0, 0x2000_0000_0000_0000);
            let first = byte_place(text::i64_in(start)->0 as int, size);
            let last = byte_place(text::i64_in(end)->0 as int, size);
            let some = ones_replied(s, ns, key, now_ms, first, last);
            &&& all.finite()
            &&& forall|offset: u64|
                all.contains(offset) == #[trigger] bit_replied(s, ns, key, offset, now_ms)
            &&& all.len() < 0x8000_0000_0000_0000 ==> bitmap::bitcount_reply(
                s,
                ns,
                seq![key],
                now_ms,
            ) == Ok::<_, ErrorView>(RespView::Integer(all.len() as i64))
            &&& some.finite()
            &&& some.len() < 0x8000_0000_0000_0000 ==> bitmap::bitcount_reply(
                s,
                ns,
                seq![key, start, end],
                now_ms,
            ) == Ok::<_, ErrorView>(RespView::Integer(some.len() as i64))
        }),
{
    let size = bytes_of(s, ns, key, now_ms);
    let all = ones_replied(s, ns, key, now_ms, 0, 0x2000_0000_0000_0000);
    let first = byte_place(text::i64_in(start)->0 as int, size);
    let last = byte_place(text::i64_in(end)->0 as int, size);
    let some = ones_replied(s, ns, key, now_ms, first, last);
    let a = seq![key];
    let b = seq![key, start, end];
    assert(a[0] == key && b[0] == key && b[1] == start && b[2] == end);
    if size == 0 {
        assert forall|o: u64| !bit_replied(s, ns, key, o, now_ms) by {}
        assert(all =~= Set::<u64>::empty());
        assert(some =~= Set::<u64>::empty());
        if bitmap::bitmap_meta(s, ns, key, now_ms)->Ok_0 is Some {
            let m = bitmap::bitmap_meta(s, ns, key, now_ms)->Ok_0->0;
            assert(codec::from_bits(m.size as nat) == 0);
        }
    } else {
        let m = bitmap::bitmap_meta(s, ns, key, now_ms)->Ok_0->0;
        assert(codec::from_bits(m.size as nat) == size);
        lemma_ones_counted(s, ns, key, now_ms, m, 0, size - 1);
        lemma_ones_counted(s, ns, key, now_ms, m, first, last);
        assert(all =~= ones_replied(s, ns, key, now_ms, 0, size - 1));
        lemma_counted(all.len());
        lemma_counted(some.len());
    }
}

proof fn lemma_counted(n: nat)
    ensures
        n < 0x8000_0000_0000_0000 ==> cmd::count_reply(cmd::grown(0, n)) == RespView::Integer(
            n as i64,
        ),
{
}

/// A bit as an argument writes it: the digit 1 or 0.
pub open spec fn bit_text(value: bool) -> Seq<u8> {
    if value {
        seq![49u8]
    } else {
        seq![48u8]
    }
}

/// A key holds a bitmap that is in order, or nothing, and then the version of the
/// moment is behind all that are stored for it.
pub open spec fn bitmap_ready(
    s: StoreView,
    ns: Seq<u8>,
    key: Seq<u8>,
    at: Moment,
    last: u64,
) -> bool {
    &&& bitmap_ok(s, ns, key, at.now_ms)
    &&& bitmap::bitmap_meta(s, ns, key, at.now_ms)->Ok_0 is None ==> laws::versions_upto(
        s,
        ns,
        key,
        last,
    ) && last < at.version
}

/// SETBIT replies what GETBIT replied before. GETBIT then replies the new bit at
/// that offset, and everywhere else what it replied before. The bitmap grows so
/// that it has the byte of the offset, and stays in order.
#[verifier::rlimit(60)]
pub proof fn law_setbit_changes_one_bit(
    s: StoreView,
    ns: Seq<u8>,
    key: Seq<u8>,
    offset: u64,
    value: bool,
    at: Moment,
    last: u64,
)
    requires
        bitmap_ready(s, ns, key, at, last),
    ensures
        ({
            let text = text::dec(offset as nat);
            let bit = bit_text(value);
            let o = bitmap::setbit_outcome(s, ns, seq![key, text, bit], at);
            let size = bytes_of(s, ns, key, at.now_ms);
            &&& o.reply == bitmap::getbit_reply(s, ns, seq![key, text], at.now_ms)
            &&& bit_replied(o.store, ns, key, offset, at.now_ms) == value
            &&& forall|other: u64|
                other != offset ==> #[trigger] bit_replied(o.store, ns, key, other, at.now_ms)
                    == bit_replied(s, ns, key, other, at.now_ms)
            &&& bitmap_ok(o.store, ns, key, at.now_ms)
            &&& bytes_of(o.store, ns, key, at.now_ms) == if size > offset as int / 8 {
                size
            } else {
                offset as int / 8 + 1
            }
        }),
{
    let text = text::dec(offset as nat);
    let bit = bit_text(value);
    let a = seq![key, text, bit];
    assert(a[0] == key && a[1] == text && a[2] == bit);
    assert(seq![48u8][0] != seq![49u8][0]);
    assert(bitmap::bit_in(bit) == Ok::<u8, ErrorView>(
        if value {
            1u8
        } else {
            0u8
        },
    ));
    lemma_bit_replied(s, ns, key, offset, at.now_ms);
    let o = bitmap::setbit_outcome(s, ns, a, at);
    lemma_setbit_meta(s, ns, key, offset, bit, at);
    lemma_bit_replied(o.store, ns, key, offset, at.now_ms);
    assert forall|other: u64| other != offset implies #[trigger] bit_replied(
        o.store,
        ns,
        key,
        other,
        at.now_ms,
    ) == bit_replied(s, ns, key, other, at.now_ms) by {
        lemma_bit_replied(s, ns, key, other, at.now_ms);
        bitmap_laws::law_getbit_after_setbit(
            s,
            ns,
            key,
            text,
            bit,
            text::dec(other as nat),
            at,
            last,
        );
    }
    let other: u64 = if offset == 0 {
        1
    } else {
        0
    };
    lemma_bit_replied(s, ns, key, other, at.now_ms);
    bitmap_laws::law_getbit_after_setbit(s, ns, key, text, bit, text::dec(other as nat), at, last);
    if bitmap::bitmap_meta(s, ns, key, at.now_ms)->Ok_0 is None {
        laws::law_later_versions_are_unused(s, ns, key, last, at.version);
        let index = offset as int / 8 / 1024;
        let sub = codec::be(index as nat, 8);
        assert(!s.subkey.contains_key(bitmap::fragment_key(key, at.version, index, ns)));
        bitmap_laws::lemma_no_bit((offset % 8) as u8);
        assert(bitmap::bit_at(s.subkey, ns, key, at.version, offset as int) == 0);
    } else {
        let m = bitmap::bitmap_meta(s, ns, key, at.now_ms)->Ok_0->0;
        bitmap_laws::lemma_bit(
            bitmap::byte_at(s.subkey, ns, key, m.version, offset as int / 8),
            (offset % 8) as u8,
        );
    }
    assert forall|x: u64| #[trigger] bit_replied(o.store, ns, key, x, at.now_ms) implies x as int / 8
        < bytes_of(o.store, ns, key, at.now_ms) by {
        if x != offset {
            assert(bit_replied(s, ns, key, x, at.now_ms));
        }
    }
}

proof fn lemma_setbit_meta(
    s: StoreView,
    ns: Seq<u8>,
    key: Seq<u8>,
    offset: u64,
    bit: Seq<u8>,
    at: Moment,
)
    requires
        bitmap::bitmap_meta(s, ns, key, at.now_ms) is Ok,
        bitmap::bit_in(bit) is Ok,
    ensures
        ({
            let a = seq![key, text::dec(offset as nat), bit];
            let o = bitmap::setbit_outcome(s, ns, a, at);
            let size = bytes_of(s, ns, key, at.now_ms);
            &&& o.reply is Ok
            &&& bitmap::bitmap_meta(o.store, ns, key, at.now_ms) is Ok
            &&& bitmap::bitmap_meta(o.store, ns, key, at.now_ms)->Ok_0 is Some
            &&& bytes_of(o.store, ns, key, at.now_ms) == if size > offset as int / 8 {
                size
            } else {
                offset as int / 8 + 1
            }
        }),
{
    text::law_decimal_round_trip(offset as nat, 0);
    let a = seq![key, text::dec(offset as nat), bit];
    assert(a[0] == key && a[1] == text::dec(offset as nat) && a[2] == bit);
    let m = bitmap_laws::setbit_meta(s, ns, key, at);
    let o = bitmap::setbit_outcome(s, ns, a, at);
    let p = offset as int / 8;
    let after = Metadata {
        size: if p + 1 > m.size {
            (p + 1) as u64
        } else {
            m.size
        },
        ..m
    };
    cmd::lemma_fresh_meta(DataType::Bitmap, at.version);
    if bitmap::bitmap_meta(s, ns, key, at.now_ms)->Ok_0 is Some {
        cmd::lemma_typed_meta_read(
            s,
            ns,
            key,
            at.now_ms,
            DataType::Bitmap,
            "invalid metadata encoding"@,
        );
    }
    cmd::lemma_typed_meta_written(
        o.store,
        ns,
        key,
        after,
        at.now_ms,
        DataType::Bitmap,
        "invalid metadata encoding"@,
    );
    assert(!types::expired(after.expire, at.now_ms));
}

/// SETBIT of a bit that was 0 to 1 raises what BITCOUNT replies by one, SETBIT of
/// a bit that was 1 to 0 lowers it by one, and otherwise it stays.
#[verifier::rlimit(60)]
pub proof fn law_bitcount_after_setbit(
    s: StoreView,
    ns: Seq<u8>,
    key: Seq<u8>,
    offset: u64,
    value: bool,
    at: Moment,
    last: u64,
)
    requires
        bitmap_ready(s, ns, key, at, last),
        ones_replied(s, ns, key, at.now_ms, 0, 0x2000_0000_0000_0000).len()
            < 0x7FFF_FFFF_FFFF_FFFF,
    ensures
        ({
            let text = text::dec(offset as nat);
            let bit = bit_text(value);
            let o = bitmap::setbit_outcome(s, ns, seq![key, text, bit], at);
            let was = bit_replied(s, ns, key, offset, at.now_ms);
            let before = bitmap::bitcount_reply(s, ns, seq![key], at.now_ms);
            let n = (before->Ok_0)->Integer_0;
            &&& before is Ok && before->Ok_0 is Integer
            &&& bitmap::bitcount_reply(o.store, ns, seq![key], at.now_ms) == Ok::<_, ErrorView>(
                RespView::Integer(
                    if value && !was {
                        (n + 1) as i64
                    } else if !value && was {
                        (n - 1) as i64
                    } else {
                        n
                    },
                ),
            )
        }),
{
    let text = text::dec(offset as nat);
    let bit = bit_text(value);
    let o = bitmap::setbit_outcome(s, ns, seq![key, text, bit], at);
    let zero = text::dec_signed(0);
    text::law_decimal_round_trip(0, 0);
    law_bitcount_counts_the_ones(s, ns, key, zero, zero, at.now_ms);
    law_setbit_changes_one_bit(s, ns, key, offset, value, at, last);
    law_bitcount_counts_the_ones(o.store, ns, key, zero, zero, at.now_ms);
    let all = ones_replied(s, ns, key, at.now_ms, 0, 0x2000_0000_0000_0000);
    let now = ones_replied(o.store, ns, key, at.now_ms, 0, 0x2000_0000_0000_0000);
    assert forall|x: u64| x != offset implies now.contains(x) == all.contains(x) by {
        assert(all.contains(x) == bit_replied(s, ns, key, x, at.now_ms));
        assert(now.contains(x) == bit_replied(o.store, ns, key, x, at.now_ms));
    }
    assert(now.contains(offset) == bit_replied(o.store, ns, key, offset, at.now_ms));
    assert(all.contains(offset) == bit_replied(s, ns, key, offset, at.now_ms));
    if value {
        assert(now =~= all.insert(offset));
    } else {
        assert(now =~= all.remove(offset));
    }
}

/// At how many of some keys GETBIT replies 1 at an offset.
pub open spec fn keys_with_bit(
    s: StoreView,
    ns: Seq<u8>,
    keys: Seq<Seq<u8>>,
    offset: u64,
    now_ms: i64,
) -> nat
    decreases keys.len(),
{
    if keys.len() == 0 {
        0
    } else {
        keys_with_bit(s, ns, keys.drop_last(), offset, now_ms) + if bit_replied(
            s,
            ns,
            keys.last(),
            offset,
            now_ms,
        ) {
            1nat
        } else {
            0nat
        }
    }
}

proof fn lemma_sources_counted(
    s: StoreView,
    ns: Seq<u8>,
    a: Seq<Seq<u8>>,
    ms: Seq<Option<Metadata>>,
    offset: u64,
    now_ms: i64,
    n: nat,
)
    requires
        n <= ms.len(),
        n + 2 <= a.len(),
        forall|i: int|
            0 <= i < n ==> bitmap::bitmap_meta(s, ns, a[i + 2], now_ms) == Ok::<_, ErrorView>(
                #[trigger] ms[i],
            ),
    ensures
        bitmap_laws::sources_with(s.subkey, ns, a, ms, offset as int, n) == keys_with_bit(
            s,
            ns,
            a.subrange(2, (2 + n) as int),
            offset,
            now_ms,
        ),
    decreases n,
{
    if n > 0 {
        lemma_sources_counted(s, ns, a, ms, offset, now_ms, (n - 1) as nat);
        let keys = a.subrange(2, (2 + n) as int);
        assert(keys.drop_last() =~= a.subrange(2, (1 + n) as int));
        assert(keys.last() == a[(n + 1) as int]);
        assert(bitmap::bitmap_meta(s, ns, a[n - 1 + 2], now_ms) == Ok::<_, ErrorView>(ms[n - 1]));
        lemma_bit_replied(s, ns, a[(n + 1) as int], offset, now_ms);
        bitmap_laws::lemma_no_bit((offset % 8) as u8);
        if ms[n - 1] is Some {
            bitmap_laws::lemma_bit(
                bitmap::byte_at(
                    s.subkey,
                    ns,
                    a[(n + 1) as int],
                    (ms[n - 1]->0).version,
                    offset as int / 8,
                ),
                (offset % 8) as u8,
            );
        }
    }
}

proof fn lemma_source_metas(s: StoreView, ns: Seq<u8>, a: Seq<Seq<u8>>, now_ms: i64, n: nat)
    requires
        n + 2 <= a.len(),
        bitmap::source_metas(s, ns, a, now_ms, n) is Ok,
    ensures
        ({
            let ms = bitmap::source_metas(s, ns, a, now_ms, n)->Ok_0;
            &&& ms.len() == n
            &&& forall|i: int|
                0 <= i < n ==> bitmap::bitmap_meta(s, ns, a[i + 2], now_ms) == Ok::<_, ErrorView>(
                    #[trigger] ms[i],
                )
        }),
    decreases n,
{
    if n > 0 {
        lemma_source_metas(s, ns, a, now_ms, (n - 1) as nat);
    }
}

#[verifier::rlimit(60)]
proof fn lemma_longest(
    s: StoreView,
    ns: Seq<u8>,
    a: Seq<Seq<u8>>,
    ms: Seq<Option<Metadata>>,
    now_ms: i64,
)
    requires
        ms.len() + 2 <= a.len(),
        forall|i: int|
            0 <= i < ms.len() ==> bitmap::bitmap_meta(s, ns, a[i + 2], now_ms) == Ok::<
                _,
                ErrorView,
            >(#[trigger] ms[i]),
    ensures
        forall|i: int|
            0 <= i < ms.len() ==> bytes_of(s, ns, #[trigger] a[i + 2], now_ms) <= bitmap::longest(
                ms,
            ),
        bitmap::longest(ms) == 0 || exists|i: int|
            0 <= i < ms.len() && bytes_of(s, ns, #[trigger] a[i + 2], now_ms) == bitmap::longest(
                ms,
            ),
    decreases ms.len(),
{
    if ms.len() > 0 {
        let before = ms.drop_last();
        assert forall|i: int| 0 <= i < before.len() implies bitmap::bitmap_meta(
            s,
            ns,
            a[i + 2],
            now_ms,
        ) == Ok::<_, ErrorView>(#[trigger] before[i]) by {
            assert(before[i] == ms[i]);
        }
        lemma_longest(s, ns, a, before, now_ms);
        let n = ms.len() - 1;
        assert(bitmap::bitmap_meta(s, ns, a[n + 2], now_ms) == Ok::<_, ErrorView>(ms[n]));
        assert(bytes_of(s, ns, a[n + 2], now_ms) == match ms[n] {
            Some(m) => m.size as int,
            None => 0,
        });
        assert forall|i: int| 0 <= i < ms.len() implies bytes_of(s, ns, #[trigger] a[i + 2], now_ms)
            <= bitmap::longest(ms) by {
            if i < n {
                assert(bytes_of(s, ns, a[i + 2], now_ms) <= bitmap::longest(before));
            }
        }
        if bitmap::longest(ms) == bitmap::longest(before) && bitmap::longest(before) != 0 {
            let i = choose|i: int|
                0 <= i < before.len() && bytes_of(s, ns, #[trigger] a[i + 2], now_ms)
                    == bitmap::longest(before);
            assert(bytes_of(s, ns, a[i + 2], now_ms) == bitmap::longest(ms));
        }
    }
}

/// BITOP makes the bits of its result of those that GETBIT replies for its
/// sources at the same offset. AND sets a bit if all sources have it, OR if any
/// of them has it, XOR if an odd number of them have it, and NOT, of its only
/// source, if that has it not and the bit lies in its bytes. The length of the
/// result is that of the longest source, and it is replied. The result is in
/// order, whatever its key held before.
#[verifier::rlimit(60)]
pub proof fn law_bitop(
    s: StoreView,
    ns: Seq<u8>,
    op: Seq<u8>,
    dest: Seq<u8>,
    keys: Seq<Seq<u8>>,
    at: Moment,
    last: u64,
)
    requires
        bitmap::bitop_outcome(s, ns, seq![op, dest] + keys, at).reply is Ok,
        forall|i: int| 0 <= i < keys.len() ==> bitmap_ok(s, ns, #[trigger] keys[i], at.now_ms),
        laws::versions_upto(s, ns, dest, last),
        last < at.version,
    ensures
        ({
            let o = bitmap::bitop_outcome(s, ns, seq![op, dest] + keys, at);
            let size = bytes_of(o.store, ns, dest, at.now_ms);
            &&& keys.len() > 0
            &&& text::is_word(op, "NOT"@) ==> keys.len() == 1
            &&& o.reply == Ok::<_, ErrorView>(RespView::Integer(size as i64))
            &&& forall|i: int|
                0 <= i < keys.len() ==> bytes_of(s, ns, #[trigger] keys[i], at.now_ms) <= size
            &&& size == 0 || exists|i: int|
                0 <= i < keys.len() && bytes_of(s, ns, #[trigger] keys[i], at.now_ms) == size
            &&& bitmap_ok(o.store, ns, dest, at.now_ms)
            &&& forall|offset: u64|
                {
                    let n = keys_with_bit(s, ns, keys, offset, at.now_ms);
                    #[trigger] bit_replied(o.store, ns, dest, offset, at.now_ms) == if text::is_word(
                        op,
                        "AND"@,
                    ) {
                        n == keys.len()
                    } else if text::is_word(op, "OR"@) {
                        n > 0
                    } else if text::is_word(op, "XOR"@) {
                        n % 2 == 1
                    } else {
                        n == 0 && offset as int / 8 < size
                    }
                }
        }),
{
    let a = seq![op, dest] + keys;
    let n = keys.len();
    let now_ms = at.now_ms;
    assert(a[0] == op && a[1] == dest);
    assert(a.subrange(2, (2 + n) as int) =~= keys);
    let o = bitmap::bitop_outcome(s, ns, a, at);
    let ms = bitmap::source_metas(s, ns, a, now_ms, n)->Ok_0;
    assert((a.len() - 2) as nat == n);
    lemma_source_metas(s, ns, a, now_ms, n);
    lemma_longest(s, ns, a, ms, now_ms);
    let size = bitmap::longest(ms);
    assert forall|i: int| 0 <= i < n implies bytes_of(s, ns, #[trigger] keys[i], now_ms) <= size by {
        assert(a[i + 2] == keys[i]);
        assert(bytes_of(s, ns, a[i + 2], now_ms) <= size);
    }
    if size != 0 {
        let i = choose|i: int|
            0 <= i < ms.len() && bytes_of(s, ns, #[trigger] a[i + 2], now_ms) == size;
        assert(a[i + 2] == keys[i]);
        assert(bytes_of(s, ns, keys[i], now_ms) == size);
        assert(bitmap_ok(s, ns, keys[i], now_ms));
    }
    let m = Metadata { size, ..types::fresh_metadata(DataType::Bitmap, at.version) };
    cmd::lemma_fresh_meta(DataType::Bitmap, at.version);
    cmd::lemma_typed_meta_written(
        o.store,
        ns,
        dest,
        m,
        now_ms,
        DataType::Bitmap,
        "invalid metadata encoding"@,
    );
    assert(codec::from_bits(size as nat) == size);
    reveal_strlit("AND");
    reveal_strlit("OR");
    reveal_strlit("XOR");
    reveal_strlit("NOT");
    assert forall|offset: u64| {
        let count = keys_with_bit(s, ns, keys, offset, now_ms);
        #[trigger] bit_replied(o.store, ns, dest, offset, now_ms) == (offset as int / 8 < size
            && bitmap_laws::bit_made(bitmap::operation_in(op)->0, count, n)) && (offset as int / 8
            >= size ==> count == 0)
    } by {
        lemma_bit_replied(o.store, ns, dest, offset, now_ms);
        bitmap_laws::law_getbit_after_bitop(s, ns, a, at, text::dec(offset as nat), last);
        lemma_sources_counted(s, ns, a, ms, offset, now_ms, n);
        if offset as int / 8 >= size {
            lemma_none_with_bit(s, ns, keys, offset, now_ms, size as int);
        }
    }
    lemma_operation(op);
}

proof fn lemma_none_with_bit(
    s: StoreView,
    ns: Seq<u8>,
    keys: Seq<Seq<u8>>,
    offset: u64,
    now_ms: i64,
    size: int,
)
    requires
        offset as int / 8 >= size,
        forall|i: int|
            0 <= i < keys.len() ==> bitmap_ok(s, ns, #[trigger] keys[i], now_ms) && bytes_of(
                s,
                ns,
                keys[i],
                now_ms,
            ) <= size,
    ensures
        keys_with_bit(s, ns, keys, offset, now_ms) == 0,
    decreases keys.len(),
{
    if keys.len() > 0 {
        let before = keys.drop_last();
        assert forall|i: int| 0 <= i < before.len() implies bitmap_ok(
            s,
            ns,
            #[trigger] before[i],
            now_ms,
        ) && bytes_of(s, ns, before[i], now_ms) <= size by {
            assert(before[i] == keys[i]);
        }
        lemma_none_with_bit(s, ns, before, offset, now_ms, size);
        assert(keys.last() == keys[keys.len() - 1]);
        assert(!bit_replied(s, ns, keys.last(), offset, now_ms));
    }
}

/// No word names two operations.
proof fn lemma_operation(op: Seq<u8>)
    requires
        bitmap::operation_in(op) is Some,
    ensures
        text::is_word(op, "AND"@) ==> bitmap::operation_in(op) == Some(bitmap::BitOp::And),
        !text::is_word(op, "AND"@) && text::is_word(op, "OR"@) ==> bitmap::operation_in(op) == Some(
            bitmap::BitOp::Or,
        ),
        !text::is_word(op, "AND"@) && !text::is_word(op, "OR"@) && text::is_word(op, "XOR"@)
            ==> bitmap::operation_in(op) == Some(bitmap::BitOp::Xor),
        text::is_word(op, "NOT"@) ==> bitmap::operation_in(op) == Some(bitmap::BitOp::Not),
{
    reveal_strlit("AND");
    reveal_strlit("OR");
    reveal_strlit("XOR");
    reveal_strlit("NOT");
    if text::is_word(op, "NOT"@) {
        let c = text::upper(op[0]) as int;
        assert(c == 'N' as int);
    }
}

} // verus!
