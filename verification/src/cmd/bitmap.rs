//! Bitmap commands. A bitmap is cut into fragments, which are subkeys of its
//! key; the bits of a byte count from the lowest.

use super::{
    count_value, expect_arg_count, expect_min_arg_count, CommandContext, Moment, Outcome,
};
use crate::cmd;
use crate::codec;
use crate::encoding;
use crate::error;
use crate::error::{ErrorView, KvdbError, KvdbResult};
use crate::protocol::{RespValue, RespView};
use crate::storage;
use crate::storage::{Cf, StoreView, WriteBatch};
use crate::table;
use crate::table::Entries;
use crate::text;
use crate::types;
use crate::types::{DataType, Metadata};
use vstd::prelude::*;

verus! {

/// The bytes of a whole fragment.
pub const FRAGMENT_BYTES: usize = 1024;

/// The metadata of a bitmap.
pub open spec fn bitmap_meta(s: StoreView, ns: Seq<u8>, key: Seq<u8>, now_ms: i64) -> Result<
    Option<Metadata>,
    ErrorView,
> {
    cmd::typed_meta(s, ns, key, now_ms, DataType::Bitmap, "invalid metadata encoding"@)
}

fn read_bitmap_meta(ctx: &CommandContext, user_key: &[u8], now_ms: i64) -> (r: KvdbResult<
    Option<Metadata>,
>)
    ensures
        cmd::meta_view(r) == bitmap_meta(ctx.storage@, ctx.namespace@, user_key@, now_ms),
{
    ctx.load_typed(user_key, now_ms, DataType::Bitmap, "invalid metadata encoding")
}

/// The subkey of a fragment.
pub open spec fn fragment_key(key: Seq<u8>, version: u64, index: int, ns: Seq<u8>) -> Seq<u8> {
    encoding::subkey_of(key, version, codec::be(index as nat, 8), ns)
}

/// A fragment; an empty one where there is none.
pub open spec fn fragment(
    e: Entries,
    ns: Seq<u8>,
    key: Seq<u8>,
    version: u64,
    index: int,
) -> Seq<u8> {
    match table::lookup(e, fragment_key(key, version, index, ns)) {
        Some(f) => f,
        None => Seq::empty(),
    }
}

/// A byte of a fragment; zero behind its end.
pub open spec fn byte_in(f: Seq<u8>, i: int) -> u8 {
    if i < f.len() {
        f[i]
    } else {
        0
    }
}

/// A byte of a bitmap.
pub open spec fn byte_at(e: Entries, ns: Seq<u8>, key: Seq<u8>, version: u64, p: int) -> u8 {
    byte_in(fragment(e, ns, key, version, p / 1024), p % 1024)
}

/// A bit of a byte.
pub open spec fn bit_of(b: u8, i: u8) -> u8 {
    (b >> i) & 1u8
}

/// A byte with one of its bits set.
pub open spec fn with_bit(b: u8, i: u8, v: u8) -> u8 {
    if v == 1 {
        b | (1u8 << i)
    } else {
        b & !(1u8 << i)
    }
}

/// A bit of a bitmap.
pub open spec fn bit_at(e: Entries, ns: Seq<u8>, key: Seq<u8>, version: u64, offset: int) -> u8 {
    bit_of(byte_at(e, ns, key, version, offset / 8), (offset % 8) as u8)
}

fn read_fragment(ctx: &CommandContext, user_key: &[u8], version: u64, index: u64) -> (f: Vec<u8>)
    ensures
        f@ == fragment(ctx.storage@.subkey, ctx.namespace@, user_key@, version, index as int),
{
    let sk = key_of_fragment(ctx, user_key, version, index);
    match ctx.storage.get_in(Cf::Subkey, &sk) {
        Some(f) => f,
        None => {
            let f: Vec<u8> = Vec::new();
            proof {
                assert(f@ =~= Seq::<u8>::empty());
            }
            f
        },
    }
}

fn key_of_fragment(ctx: &CommandContext, user_key: &[u8], version: u64, index: u64) -> (k: Vec<u8>)
    ensures
        k@ == fragment_key(user_key@, version, index as int, ctx.namespace@),
{
    let mut sub: Vec<u8> = Vec::new();
    codec::push_be(&mut sub, index, 8);
    proof {
        assert(sub@ =~= codec::be(index as nat, 8));
    }
    ctx.sub_key(user_key, version, &sub)
}

/// The offset that an argument writes.
pub open spec fn offset_in(a: Seq<u8>) -> Result<u64, ErrorView> {
    match text::u64_in(a) {
        Some(n) => Ok(n),
        None => Err(ErrorView::Command("bit offset is not an integer or out of range"@)),
    }
}

/// Reads an offset.
pub fn parse_offset(data: &[u8]) -> (r: KvdbResult<u64>)
    ensures
        match r {
            Ok(n) => offset_in(data@) == Ok::<u64, ErrorView>(n),
            Err(e) => offset_in(data@) == Err::<u64, ErrorView>(e@),
        },
{
    match text::parse_u64(data) {
        Some(n) => Ok(n),
        None => Err(error::command_error("bit offset is not an integer or out of range")),
    }
}

/// The bit that an argument writes.
pub open spec fn bit_in(a: Seq<u8>) -> Result<u8, ErrorView> {
    if a == seq![48u8] {
        Ok(0)
    } else if a == seq![49u8] {
        Ok(1)
    } else {
        Err(ErrorView::Command("bit is not an integer or out of range"@))
    }
}

/// Reads a bit.
pub fn parse_bit(data: &[u8]) -> (r: KvdbResult<u8>)
    ensures
        match r {
            Ok(n) => bit_in(data@) == Ok::<u8, ErrorView>(n),
            Err(e) => bit_in(data@) == Err::<u8, ErrorView>(e@),
        },
{
    if data.len() == 1 && data[0] == 48 {
        proof {
            assert(data@ =~= seq![48u8]);
        }
        Ok(0)
    } else if data.len() == 1 && data[0] == 49 {
        proof {
            assert(data@ =~= seq![49u8]);
            assert(data@[0] != seq![48u8][0]);
        }
        Ok(1)
    } else {
        proof {
            assert(data@ == seq![48u8] ==> data@[0] == 48);
            assert(data@ == seq![49u8] ==> data@[0] == 49);
        }
        Err(error::command_error("bit is not an integer or out of range"))
    }
}

/// A fragment with zeros behind it, so that it has at least `n` bytes.
pub open spec fn padded(f: Seq<u8>, n: int) -> Seq<u8> {
    Seq::new(
        if f.len() < n {
            n as nat
        } else {
            f.len()
        },
        |i: int| byte_in(f, i),
    )
}

/// A fragment with one of its bits set. It grows if it must.
pub open spec fn fragment_with_bit(f: Seq<u8>, byte: int, bit: u8, v: u8) -> Seq<u8> {
    padded(f, byte + 1).update(byte, with_bit(byte_in(f, byte), bit, v))
}

/// SETBIT key offset value: sets the bit and replies the one it had. The size
/// counts the bytes up to the last one that was ever written to.
pub open spec fn setbit_outcome(
    s: StoreView,
    ns: Seq<u8>,
    a: Seq<Seq<u8>>,
    at: Moment,
) -> Outcome {
    if a.len() != 3 {
        cmd::unchanged(Err(cmd::wrong_args("SETBIT"@)), s)
    } else {
        match (offset_in(a[1]), bit_in(a[2])) {
            (Err(e), _) => cmd::unchanged(Err(e), s),
            (Ok(_), Err(e)) => cmd::unchanged(Err(e), s),
            (Ok(offset), Ok(value)) => match bitmap_meta(s, ns, a[0], at.now_ms) {
                Err(e) => cmd::unchanged(Err(e), s),
                Ok(found) => {
                    let m = match found {
                        Some(m) => m,
                        None => types::fresh_metadata(DataType::Bitmap, at.version),
                    };
                    let p = offset as int / 8;
                    let f = fragment(s.subkey, ns, a[0], m.version, p / 1024);
                    Outcome {
                        reply: Ok(
                            RespView::Integer(
                                bit_at(s.subkey, ns, a[0], m.version, offset as int) as i64,
                            ),
                        ),
                        store: StoreView {
                            subkey: s.subkey.insert(
                                fragment_key(a[0], m.version, p / 1024, ns),
                                fragment_with_bit(f, p % 1024, (offset as int % 8) as u8, value),
                            ),
                            metadata: s.metadata.insert(
                                encoding::meta_key_of(a[0], ns),
                                encoding::metadata_bytes(
                                    (Metadata {
                                        size: if p + 1 > m.size {
                                            (p + 1) as u64
                                        } else {
                                            m.size
                                        },
                                        ..m
                                    }),
                                ),
                            ),
                            ..s
                        },
                    }
                },
            },
        }
    }
}

pub fn setbit(ctx: &mut CommandContext, args: &[Vec<u8>], at: Moment) -> (r: KvdbResult<RespValue>)
    ensures
        cmd::outcome(r, final(ctx).storage@) == setbit_outcome(
            old(ctx).storage@,
            old(ctx).namespace@,
            encoding::byte_seqs(args@),
            at,
        ),
        final(ctx).kept(*old(ctx)),
{
    proof {
        ctx.storage.lemma_follows_self();
    }
    match expect_arg_count("SETBIT", args, 3) {
        Ok(_) => {},
        Err(e) => return Err(e),
    }
    let offset: u64 = match parse_offset(&args[1]) {
        Ok(n) => n,
        Err(e) => return Err(e),
    };
    let value: u8 = match parse_bit(&args[2]) {
        Ok(v) => v,
        Err(e) => return Err(e),
    };
    let mut meta = match read_bitmap_meta(ctx, &args[0], at.now_ms) {
        Ok(Some(m)) => m,
        Ok(None) => Metadata::new(DataType::Bitmap, at.version),
        Err(e) => return Err(e),
    };
    let pos: u64 = offset / 8;
    let index: u64 = pos / 1024;
    let at_byte: usize = (pos % 1024) as usize;
    let bit: u8 = (offset % 8) as u8;
    let mut frag = read_fragment(ctx, &args[0], meta.version, index);
    let ghost f = frag@;
    while frag.len() <= at_byte
        invariant
            at_byte < 1024,
            frag@.len() >= f.len(),
            frag@ =~= padded(f, frag@.len() as int),
            frag@.len() > f.len() ==> frag@.len() <= at_byte + 1,
        decreases at_byte + 1 - frag.len(),
    {
        frag.push(0);
    }
    proof {
        assert(frag@ =~= padded(f, at_byte + 1));
    }
    let byte: u8 = frag[at_byte];
    let old_bit: u8 = (byte >> bit) & 1;
    if value == 1 {
        frag.set(at_byte, byte | (1u8 << bit));
    } else {
        frag.set(at_byte, byte & !(1u8 << bit));
    }
    if pos + 1 > meta.size {
        meta.size = pos + 1;
    }
    let mut batch = WriteBatch::new();
    let mk = ctx.meta_key(&args[0]);
    let mv = encoding::encode_metadata(&meta);
    batch.put(Cf::Metadata, &mk, &mv);
    let sk = key_of_fragment(ctx, &args[0], meta.version, index);
    batch.put(Cf::Subkey, &sk, &frag);
    ctx.storage.write(batch);
    Ok(RespValue::Integer(old_bit as i64))
}

/// GETBIT key offset.
pub open spec fn getbit_reply(s: StoreView, ns: Seq<u8>, a: Seq<Seq<u8>>, now_ms: i64) -> Result<
    RespView,
    ErrorView,
> {
    if a.len() != 2 {
        Err(cmd::wrong_args("GETBIT"@))
    } else {
        match offset_in(a[1]) {
            Err(e) => Err(e),
            Ok(offset) => match bitmap_meta(s, ns, a[0], now_ms) {
                Err(e) => Err(e),
                Ok(None) => Ok(RespView::Integer(0)),
                Ok(Some(m)) => Ok(
                    RespView::Integer(
                        bit_at(s.subkey, ns, a[0], m.version, offset as int) as i64,
                    ),
                ),
            },
        }
    }
}

pub fn getbit(ctx: &CommandContext, args: &[Vec<u8>], now_ms: i64) -> (r: KvdbResult<RespValue>)
    ensures
        cmd::reply_view(r) == getbit_reply(
            ctx.storage@,
            ctx.namespace@,
            encoding::byte_seqs(args@),
            now_ms,
        ),
{
    match expect_arg_count("GETBIT", args, 2) {
        Ok(_) => {},
        Err(e) => return Err(e),
    }
    let offset: u64 = match parse_offset(&args[1]) {
        Ok(n) => n,
        Err(e) => return Err(e),
    };
    let meta = match read_bitmap_meta(ctx, &args[0], now_ms) {
        Ok(Some(m)) => m,
        Ok(None) => return Ok(RespValue::Integer(0)),
        Err(e) => return Err(e),
    };
    let pos: u64 = offset / 8;
    let at_byte: usize = (pos % 1024) as usize;
    let bit: u8 = (offset % 8) as u8;
    let frag = read_fragment(ctx, &args[0], meta.version, pos / 1024);
    if at_byte >= frag.len() {
        proof {
            assert(bit < 8 ==> (0u8 >> bit) & 1u8 == 0) by (bit_vector);
        }
        return Ok(RespValue::Integer(0));
    }
    let byte: u8 = frag[at_byte];
    let b: u8 = (byte >> bit) & 1;
    Ok(RespValue::Integer(b as i64))
}

/// What GETBIT reads after SETBIT: the bit that was set, and everywhere else
/// what was there.
pub proof fn law_set_bit_is_read_back(
    e: Entries,
    ns: Seq<u8>,
    key: Seq<u8>,
    version: u64,
    offset: u64,
    value: u8,
    other: u64,
)
    requires
        value <= 1,
    ensures
        ({
            let p = offset as int / 8;
            let after = e.insert(
                fragment_key(key, version, p / 1024, ns),
                fragment_with_bit(
                    fragment(e, ns, key, version, p / 1024),
                    p % 1024,
                    (offset as int % 8) as u8,
                    value,
                ),
            );
            &&& bit_at(after, ns, key, version, offset as int) == value
            &&& other != offset ==> bit_at(after, ns, key, version, other as int) == bit_at(
                e,
                ns,
                key,
                version,
                other as int,
            )
        }),
{
    let p = offset as int / 8;
    let q = other as int / 8;
    let f = fragment(e, ns, key, version, p / 1024);
    let i = (offset as int % 8) as u8;
    let j = (other as int % 8) as u8;
    let b = byte_in(f, p % 1024);
    codec::lemma_pow256_values();
    if codec::be((p / 1024) as nat, 8) == codec::be((q / 1024) as nat, 8) {
        codec::lemma_be_injective((p / 1024) as nat, (q / 1024) as nat, 8);
    }
    encoding::lemma_subkey_injective(
        key,
        version,
        codec::be((p / 1024) as nat, 8),
        codec::be((q / 1024) as nat, 8),
        ns,
    );
    assert(i < 8 ==> ((b | (1u8 << i)) >> i) & 1u8 == 1u8) by (bit_vector);
    assert(i < 8 ==> ((b & !(1u8 << i)) >> i) & 1u8 == 0u8) by (bit_vector);
    assert(i < 8 && j < 8 && i != j ==> ((b | (1u8 << i)) >> j) & 1u8 == (b >> j) & 1u8)
        by (bit_vector);
    assert(i < 8 && j < 8 && i != j ==> ((b & !(1u8 << i)) >> j) & 1u8 == (b >> j) & 1u8)
        by (bit_vector);
}

/// The number of ones among the lowest `n` bits of a byte.
pub open spec fn ones(b: u8, n: nat) -> nat
    decreases n,
{
    if n == 0 {
        0
    } else {
        ones(b, (n - 1) as nat) + bit_of(b, (n - 1) as u8) as nat
    }
}

/// The number of ones in the bytes from `lo` up to and without `hi`.
pub open spec fn ones_between(
    e: Entries,
    ns: Seq<u8>,
    key: Seq<u8>,
    version: u64,
    lo: int,
    hi: int,
) -> nat
    decreases hi - lo,
{
    if lo >= hi {
        0
    } else {
        ones_between(e, ns, key, version, lo, hi - 1) + ones(byte_at(e, ns, key, version, hi - 1), 8)
    }
}

proof fn lemma_ones_bound(b: u8, n: nat)
    ensures
        ones(b, n) <= n,
        b == 0 && n <= 8 ==> ones(b, n) == 0,
    decreases n,
{
    if n > 0 {
        let i = (n - 1) as u8;
        assert((b >> i) & 1u8 <= 1u8) by (bit_vector);
        assert(i < 8 ==> (0u8 >> i) & 1u8 == 0) by (bit_vector);
        lemma_ones_bound(b, (n - 1) as nat);
    }
}

/// Counts the ones of a byte.
fn count_ones(b: u8) -> (n: u64)
    ensures
        n == ones(b, 8),
        n <= 8,
{
    let mut n: u64 = 0;
    let mut i: u8 = 0;
    while i < 8
        invariant
            i <= 8,
            n == ones(b, i as nat),
            n <= i,
        decreases 8 - i,
    {
        proof {
            assert((b >> i) & 1u8 <= 1u8) by (bit_vector);
        }
        n = n + ((b >> i) & 1) as u64;
        i = i + 1;
    }
    n
}

/// An index into `size` bytes: a negative one counts from the end, and any is
/// brought into the bytes.
pub open spec fn normalized(idx: int, size: int) -> int {
    let i = if idx < 0 {
        size + idx
    } else {
        idx
    };
    let i = if i < 0 {
        0
    } else {
        i
    };
    if i >= size {
        size - 1
    } else {
        i
    }
}

/// Brings an index into the bytes.
pub fn normalize_index(idx: i64, size: i64) -> (r: u64)
    requires
        size > 0,
    ensures
        r == normalized(idx as int, size as int),
        r < size,
{
    let mut i: i64 = if idx < 0 {
        size + idx
    } else {
        idx
    };
    if i < 0 {
        i = 0;
    }
    if i >= size {
        i = size - 1;
    }
    i as u64
}

/// BITCOUNT key [start end]: the ones in a range of bytes, by default in all
/// of them. Only a size that fits a signed number is a size.
pub open spec fn bitcount_reply(s: StoreView, ns: Seq<u8>, a: Seq<Seq<u8>>, now_ms: i64) -> Result<
    RespView,
    ErrorView,
> {
    if a.len() != 1 && a.len() != 3 {
        Err(cmd::wrong_args("BITCOUNT"@))
    } else if a.len() == 3 && (text::i64_in(a[1]) is None || text::i64_in(a[2]) is None) {
        Err(ErrorView::NotInteger)
    } else {
        let start = if a.len() == 1 {
            0
        } else {
            text::i64_in(a[1])->0
        };
        let end = if a.len() == 1 {
            -1i64
        } else {
            text::i64_in(a[2])->0
        };
        match bitmap_meta(s, ns, a[0], now_ms) {
            Err(e) => Err(e),
            Ok(None) => Ok(RespView::Integer(0)),
            Ok(Some(m)) => {
                let size = codec::from_bits(m.size as nat);
                if size <= 0 {
                    Ok(RespView::Integer(0))
                } else {
                    Ok(
                        cmd::count_reply(
                            cmd::grown(
                                0,
                                ones_between(
                                    s.subkey,
                                    ns,
                                    a[0],
                                    m.version,
                                    normalized(start as int, size),
                                    normalized(end as int, size) + 1,
                                ),
                            ),
                        ),
                    )
                }
            },
        }
    }
}

/// Zero bytes add nothing.
proof fn lemma_zero_run(
    e: Entries,
    ns: Seq<u8>,
    key: Seq<u8>,
    version: u64,
    lo: int,
    mid: int,
    hi: int,
)
    requires
        lo <= mid <= hi,
        forall|p: int| mid <= p < hi ==> #[trigger] byte_at(e, ns, key, version, p) == 0,
    ensures
        ones_between(e, ns, key, version, lo, hi) == ones_between(e, ns, key, version, lo, mid),
    decreases hi - mid,
{
    if mid < hi {
        lemma_zero_run(e, ns, key, version, lo, mid, hi - 1);
        lemma_ones_bound(byte_at(e, ns, key, version, hi - 1), 8);
    }
}

/// Counts the ones of the bytes `start` to `end`.
fn count_range(ctx: &CommandContext, user_key: &[u8], version: u64, start: u64, end: u64) -> (n: u64)
    requires
        start <= end < 0x8000_0000_0000_0000,
    ensures
        n == cmd::grown(
            0,
            ones_between(
                ctx.storage@.subkey,
                ctx.namespace@,
                user_key@,
                version,
                start as int,
                end + 1,
            ),
        ),
{
    let ghost e = ctx.storage@.subkey;
    let ghost ns = ctx.namespace@;
    let ghost key = user_key@;
    let end_frag: u64 = end / 1024;
    let mut index: u64 = start / 1024;
    let mut count: u64 = 0;
    let ghost mut done: int = start as int;
    while index <= end_frag
        invariant
            start <= end < 0x8000_0000_0000_0000,
            end_frag == end / 1024,
            start / 1024 <= index <= end_frag + 1,
            e == ctx.storage@.subkey,
            ns == ctx.namespace@,
            key == user_key@,
            start <= done <= end + 1,
            index == start / 1024 ==> done == start,
            index > start / 1024 ==> done == (if 1024 * index > end + 1 {
                end + 1
            } else {
                1024 * index
            }),
            count == cmd::grown(0, ones_between(e, ns, key, version, start as int, done)),
        decreases end_frag + 1 - index,
    {
        let frag = read_fragment(ctx, user_key, version, index);
        let base: u64 = index * 1024;
        let from: u64 = if start > base {
            start - base
        } else {
            0
        };
        let mut upto: u64 = if end - base < 1023 {
            end - base + 1
        } else {
            1024
        };
        let ghost stop = base + upto;
        if (frag.len() as u64) < upto {
            upto = frag.len() as u64;
        }
        let mut j: u64 = from;
        while j < upto
            invariant
                base == index * 1024,
                upto <= 1024,
                upto <= frag@.len(),
                from <= j,
                j > from ==> j <= upto,
                e == ctx.storage@.subkey,
                ns == ctx.namespace@,
                key == user_key@,
                frag@ == fragment(e, ns, key, version, index as int),
                start <= base + from,
                base + 1024 < u64::MAX,
                count == cmd::grown(0, ones_between(e, ns, key, version, start as int, base + j)),
            decreases upto - j,
        {
            let ones_here: u64 = count_ones(frag[j as usize]);
            proof {
                assert((base + j) / 1024 == index as int);
                assert((base + j) % 1024 == j as int);
                assert(byte_at(e, ns, key, version, base + j) == frag@[j as int]);
            }
            count = count.wrapping_add(ones_here);
            j = j + 1;
        }
        proof {
            let mid = base + j;
            assert forall|p: int| mid <= p < stop implies #[trigger] byte_at(
                e,
                ns,
                key,
                version,
                p,
            ) == 0 by {
                assert(p / 1024 == index as int);
                assert(p % 1024 == p - base);
            }
            lemma_zero_run(e, ns, key, version, start as int, mid, stop);
            done = stop;
        }
        index = index + 1;
    }
    count
}

pub fn bitcount(ctx: &CommandContext, args: &[Vec<u8>], now_ms: i64) -> (r: KvdbResult<RespValue>)
    ensures
        cmd::reply_view(r) == bitcount_reply(
            ctx.storage@,
            ctx.namespace@,
            encoding::byte_seqs(args@),
            now_ms,
        ),
{
    if args.len() != 1 && args.len() != 3 {
        return Err(KvdbError::WrongArgCount("BITCOUNT"));
    }
    let mut start: i64 = 0;
    let mut end: i64 = -1;
    if args.len() == 3 {
        start = match text::parse_i64(&args[1]) {
            Some(n) => n,
            None => return Err(KvdbError::NotInteger),
        };
        end = match text::parse_i64(&args[2]) {
            Some(n) => n,
            None => return Err(KvdbError::NotInteger),
        };
    }
    let meta = match read_bitmap_meta(ctx, &args[0], now_ms) {
        Ok(Some(m)) => m,
        Ok(None) => return Ok(RespValue::Integer(0)),
        Err(e) => return Err(e),
    };
    let size: i64 = codec::signed_of(meta.size);
    if size <= 0 {
        return Ok(RespValue::Integer(0));
    }
    let first: u64 = normalize_index(start, size);
    let last: u64 = normalize_index(end, size);
    if first > last {
        return Ok(count_value(0));
    }
    Ok(count_value(count_range(ctx, &args[0], meta.version, first, last)))
}

/// A bitwise operation.
#[derive(Debug, Clone, Copy, PartialEq, Eq, Structural)]
pub enum BitOp {
    And,
    Or,
    Xor,
    Not,
}

/// The operation that an argument names.
pub open spec fn operation_in(a: Seq<u8>) -> Option<BitOp> {
    if text::is_word(a, "AND"@) {
        Some(BitOp::And)
    } else if text::is_word(a, "OR"@) {
        Some(BitOp::Or)
    } else if text::is_word(a, "XOR"@) {
        Some(BitOp::Xor)
    } else if text::is_word(a, "NOT"@) {
        Some(BitOp::Not)
    } else {
        None
    }
}

/// Reads the name of an operation.
pub fn parse_operation(data: &[u8]) -> (r: KvdbResult<BitOp>)
    ensures
        match r {
            Ok(op) => operation_in(data@) == Some(op),
            Err(e) => operation_in(data@) is None && e@ == ErrorView::Command("syntax error"@),
        },
{
    if text::matches_word(data, "AND") {
        Ok(BitOp::And)
    } else if text::matches_word(data, "OR") {
        Ok(BitOp::Or)
    } else if text::matches_word(data, "XOR") {
        Ok(BitOp::Xor)
    } else if text::matches_word(data, "NOT") {
        Ok(BitOp::Not)
    } else {
        Err(error::command_error("syntax error"))
    }
}

/// Two bytes combined. The negation takes the first one alone.
pub open spec fn combined(op: BitOp, x: u8, y: u8) -> u8 {
    match op {
        BitOp::And => x & y,
        BitOp::Or => x | y,
        BitOp::Xor => x ^ y,
        BitOp::Not => !x,
    }
}

/// The metadata of the first `n` sources, or the first error.
pub open spec fn source_metas(
    s: StoreView,
    ns: Seq<u8>,
    a: Seq<Seq<u8>>,
    now_ms: i64,
    n: nat,
) -> Result<Seq<Option<Metadata>>, ErrorView>
    decreases n,
{
    if n == 0 {
        Ok(Seq::empty())
    } else {
        match source_metas(s, ns, a, now_ms, (n - 1) as nat) {
            Err(e) => Err(e),
            Ok(before) => match bitmap_meta(s, ns, a[(n + 1) as int], now_ms) {
                Err(e) => Err(e),
                Ok(m) => Ok(before.push(m)),
            },
        }
    }
}

/// The size of the longest source.
pub open spec fn longest(ms: Seq<Option<Metadata>>) -> u64
    decreases ms.len(),
{
    if ms.len() == 0 {
        0
    } else {
        match ms.last() {
            Some(m) => if m.size > longest(ms.drop_last()) {
                m.size
            } else {
                longest(ms.drop_last())
            },
            None => longest(ms.drop_last()),
        }
    }
}

/// A byte of a source; zero where there is none.
pub open spec fn source_byte(
    e: Entries,
    ns: Seq<u8>,
    a: Seq<Seq<u8>>,
    ms: Seq<Option<Metadata>>,
    i: int,
    p: int,
) -> u8 {
    match ms[i] {
        Some(m) => byte_at(e, ns, a[i + 2], m.version, p),
        None => 0,
    }
}

/// A byte of the first `n` sources, combined one after another.
pub open spec fn folded(
    op: BitOp,
    e: Entries,
    ns: Seq<u8>,
    a: Seq<Seq<u8>>,
    ms: Seq<Option<Metadata>>,
    p: int,
    n: nat,
) -> u8
    decreases n,
{
    if n == 0 {
        0
    } else if n == 1 {
        if op == BitOp::Not {
            !source_byte(e, ns, a, ms, 0, p)
        } else {
            source_byte(e, ns, a, ms, 0, p)
        }
    } else {
        combined(
            op,
            folded(op, e, ns, a, ms, p, (n - 1) as nat),
            source_byte(e, ns, a, ms, n - 1, p),
        )
    }
}

/// The length of a fragment of a bitmap of the given size.
pub open spec fn fragment_len(size: u64, index: int) -> int {
    if size - 1024 * index < 1024 {
        size - 1024 * index
    } else {
        1024
    }
}

/// A fragment of the result.
pub open spec fn result_fragment(
    op: BitOp,
    e: Entries,
    ns: Seq<u8>,
    a: Seq<Seq<u8>>,
    ms: Seq<Option<Metadata>>,
    index: int,
    n: nat,
) -> Seq<u8> {
    Seq::new(
        fragment_len(longest(ms), index) as nat,
        |j: int| folded(op, e, ns, a, ms, 1024 * index + j, n),
    )
}

/// The entries with the first `n` fragments of the result.
pub open spec fn result_entries(
    op: BitOp,
    e: Entries,
    ns: Seq<u8>,
    a: Seq<Seq<u8>>,
    ms: Seq<Option<Metadata>>,
    version: u64,
    n: nat,
) -> Entries
    decreases n,
{
    if n == 0 {
        e
    } else {
        result_entries(op, e, ns, a, ms, version, (n - 1) as nat).insert(
            fragment_key(a[1], version, n - 1, ns),
            result_fragment(op, e, ns, a, ms, n - 1, ms.len()),
        )
    }
}

/// BITOP operation destkey key [key ...]: combines the sources byte by byte
/// into a new bitmap, as long as the longest of them, and replies its size.
/// Shorter and missing sources count as zeros.
pub open spec fn bitop_outcome(s: StoreView, ns: Seq<u8>, a: Seq<Seq<u8>>, at: Moment) -> Outcome {
    if a.len() < 3 {
        cmd::unchanged(Err(cmd::wrong_args("BITOP"@)), s)
    } else {
        match operation_in(a[0]) {
            None => cmd::unchanged(Err(ErrorView::Command("syntax error"@)), s),
            Some(op) => if op == BitOp::Not && a.len() != 3 {
                cmd::unchanged(
                    Err(
                        ErrorView::Command(
                            "BITOP NOT must be called with a single source key"@,
                        ),
                    ),
                    s,
                )
            } else {
                match source_metas(s, ns, a, at.now_ms, (a.len() - 2) as nat) {
                    Err(e) => cmd::unchanged(Err(e), s),
                    Ok(ms) => {
                        let size = longest(ms);
                        let fragments = ((size + 1023) / 1024) as nat;
                        Outcome {
                            reply: Ok(cmd::count_reply(size)),
                            store: StoreView {
                                subkey: result_entries(
                                    op,
                                    s.subkey,
                                    ns,
                                    a,
                                    ms,
                                    at.version,
                                    fragments,
                                ),
                                metadata: s.metadata.insert(
                                    encoding::meta_key_of(a[1], ns),
                                    encoding::metadata_bytes(
                                        (Metadata {
                                            size,
                                            ..types::fresh_metadata(DataType::Bitmap, at.version)
                                        }),
                                    ),
                                ),
                                ..s
                            },
                        }
                    },
                }
            },
        }
    }
}

proof fn lemma_source_error(
    s: StoreView,
    ns: Seq<u8>,
    a: Seq<Seq<u8>>,
    now_ms: i64,
    n: nat,
    m: nat,
)
    requires
        n <= m,
        source_metas(s, ns, a, now_ms, n) is Err,
    ensures
        source_metas(s, ns, a, now_ms, m) == source_metas(s, ns, a, now_ms, n),
    decreases m,
{
    if n < m {
        lemma_source_error(s, ns, a, now_ms, n, (m - 1) as nat);
    }
}

/// Combines one fragment of all the sources.
fn combine_fragment(
    ctx: &CommandContext,
    op: BitOp,
    args: &[Vec<u8>],
    metas: &Vec<Option<Metadata>>,
    index: u64,
    size: u64,
) -> (f: Vec<u8>)
    requires
        args@.len() >= 3,
        metas@.len() == args@.len() - 2,
        op == BitOp::Not ==> args@.len() == 3,
        size == longest(metas@),
        1024 * index < size,
    ensures
        f@ == result_fragment(
            op,
            ctx.storage@.subkey,
            ctx.namespace@,
            encoding::byte_seqs(args@),
            metas@,
            index as int,
            metas@.len(),
        ),
{
    let ghost e = ctx.storage@.subkey;
    let ghost ns = ctx.namespace@;
    let ghost a = encoding::byte_seqs(args@);
    let ghost ms = metas@;
    let base: u64 = index * 1024;
    let len: usize = if size - base < 1024 {
        (size - base) as usize
    } else {
        1024
    };
    let mut result: Vec<u8> = Vec::new();
    while result.len() < len
        invariant
            result@.len() <= len,
            forall|j: int| 0 <= j < result@.len() ==> result@[j] == 0,
        decreases len - result.len(),
    {
        result.push(0);
    }
    let mut i: usize = 0;
    proof {
        assert(result@ =~= result_fragment(op, e, ns, a, ms, index as int, 0));
    }
    while i < metas.len()
        invariant
            i <= metas@.len(),
            metas@.len() == args@.len() - 2,
            op == BitOp::Not ==> metas@.len() == 1,
            e == ctx.storage@.subkey,
            ns == ctx.namespace@,
            a == encoding::byte_seqs(args@),
            ms == metas@,
            len == fragment_len(longest(ms), index as int),
            len <= 1024,
            base == index * 1024,
            result@ =~= result_fragment(op, e, ns, a, ms, index as int, i as nat),
        decreases metas.len() - i,
    {
        proof {
            assert(args.len() == args@.len());
            assert(a[i + 2] == args@[i + 2]@);
        }
        let frag = match &metas[i] {
            Some(m) => read_fragment(ctx, &args[i + 2], m.version, index),
            None => Vec::new(),
        };
        let ghost before = result@;
        let mut j: usize = 0;
        while j < len
            invariant
                j <= len <= 1024,
                i < metas@.len(),
                op == BitOp::Not ==> metas@.len() == 1,
                ms == metas@,
                base == index * 1024,
                len == fragment_len(longest(ms), index as int),
                before == result_fragment(op, e, ns, a, ms, index as int, i as nat),
                frag@ == (match ms[i as int] {
                    Some(m) => fragment(e, ns, a[i + 2], m.version, index as int),
                    None => Seq::empty(),
                }),
                result@.len() == len,
                forall|x: int|
                    0 <= x < j ==> #[trigger] result@[x] == folded(
                        op,
                        e,
                        ns,
                        a,
                        ms,
                        1024 * index + x,
                        (i + 1) as nat,
                    ),
                forall|x: int| j <= x < len ==> #[trigger] result@[x] == before[x],
            decreases len - j,
        {
            let b: u8 = if j < frag.len() {
                frag[j]
            } else {
                0
            };
            proof {
                assert((1024 * index + j) / 1024 == index as int);
                assert((1024 * index + j) % 1024 == j as int);
                assert(b == source_byte(e, ns, a, ms, i as int, 1024 * index + j));
                assert(result@[j as int] == before[j as int]);
            }
            let x: u8 = result[j];
            let y: u8 = match op {
                BitOp::Not => !b,
                BitOp::And => if i == 0 {
                    b
                } else {
                    x & b
                },
                BitOp::Or => if i == 0 {
                    b
                } else {
                    x | b
                },
                BitOp::Xor => if i == 0 {
                    b
                } else {
                    x ^ b
                },
            };
            result.set(j, y);
            j = j + 1;
        }
        i = i + 1;
    }
    result
}

pub fn bitop(ctx: &mut CommandContext, args: &[Vec<u8>], at: Moment) -> (r: KvdbResult<RespValue>)
    ensures
        cmd::outcome(r, final(ctx).storage@) == bitop_outcome(
            old(ctx).storage@,
            old(ctx).namespace@,
            encoding::byte_seqs(args@),
            at,
        ),
        final(ctx).kept(*old(ctx)),
{
    proof {
        ctx.storage.lemma_follows_self();
    }
    match expect_min_arg_count("BITOP", args, 3) {
        Ok(_) => {},
        Err(e) => return Err(e),
    }
    let op = match parse_operation(&args[0]) {
        Ok(op) => op,
        Err(e) => return Err(e),
    };
    if op == BitOp::Not && args.len() != 3 {
        return Err(error::command_error("BITOP NOT must be called with a single source key"));
    }
    let ghost a = encoding::byte_seqs(args@);
    let ghost s = ctx.storage@;
    let ghost ns = ctx.namespace@;
    let mut metas: Vec<Option<Metadata>> = Vec::new();
    let mut size: u64 = 0;
    let mut i: usize = 2;
    proof {
        assert(metas@ =~= Seq::<Option<Metadata>>::empty());
    }
    while i < args.len()
        invariant
            2 <= i <= args@.len(),
            a == encoding::byte_seqs(args@),
            *ctx == *old(ctx),
            s == ctx.storage@,
            ns == ctx.namespace@,
            a.len() >= 3,
            operation_in(a[0]) == Some(op),
            op == BitOp::Not ==> a.len() == 3,
            metas@.len() == i - 2,
            source_metas(s, ns, a, at.now_ms, (i - 2) as nat) == Ok::<_, ErrorView>(metas@),
            size == longest(metas@),
        decreases args.len() - i,
    {
        proof {
            assert(a[i as int] == args@[i as int]@);
        }
        match read_bitmap_meta(ctx, &args[i], at.now_ms) {
            Ok(found) => {
                let ghost before = metas@;
                match &found {
                    Some(m) => if m.size > size {
                        size = m.size;
                    },
                    None => {},
                }
                metas.push(found);
                proof {
                    assert(metas@.drop_last() =~= before);
                }
            },
            Err(e) => {
                proof {
                    lemma_source_error(s, ns, a, at.now_ms, (i - 1) as nat, (a.len() - 2) as nat);
                    ctx.storage.lemma_follows_self();
                }
                return Err(e);
            },
        }
        i = i + 1;
    }
    let ghost ms = metas@;
    let mut dest = Metadata::new(DataType::Bitmap, at.version);
    dest.size = size;
    let mut batch = WriteBatch::new();
    let fragments: u64 = if size % 1024 == 0 {
        size / 1024
    } else {
        size / 1024 + 1
    };
    let mut index: u64 = 0;
    while index < fragments
        invariant
            index <= fragments,
            fragments == (size + 1023) / 1024,
            a == encoding::byte_seqs(args@),
            *ctx == *old(ctx),
            s == ctx.storage@,
            ns == ctx.namespace@,
            args@.len() >= 3,
            op == BitOp::Not ==> args@.len() == 3,
            metas@.len() == args@.len() - 2,
            ms == metas@,
            size == longest(ms),
            storage::applied(s, batch@) == (StoreView {
                subkey: result_entries(op, s.subkey, ns, a, ms, at.version, index as nat),
                ..s
            }),
        decreases fragments - index,
    {
        let frag = combine_fragment(ctx, op, args, &metas, index, size);
        let sk = key_of_fragment(ctx, &args[1], at.version, index);
        proof {
            assert(a[1] == args@[1]@);
        }
        batch.put(Cf::Subkey, &sk, &frag);
        index = index + 1;
    }
    let mk = ctx.meta_key(&args[1]);
    let mv = encoding::encode_metadata(&dest);
    batch.put(Cf::Metadata, &mk, &mv);
    ctx.storage.write(batch);
    Ok(count_value(size))
}

} // verus!
