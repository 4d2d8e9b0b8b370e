//! List commands. The elements of a list are subkeys of its key, numbered
//! from `head` to `tail`; their numbers are written so that they stand in
//! order.

use super::laws;
use super::{
    array, count_value, empty_array, expect_arg_count, expect_min_arg_count, push_reply,
    CommandContext, Moment, Outcome,
};
use crate::cmd;
use crate::codec;
use crate::encoding;
use crate::error;
use crate::error::{ErrorView, KvdbError, KvdbResult};
use crate::order;
use crate::protocol;
use crate::protocol::{RespValue, RespView};
use crate::storage;
use crate::storage::{Cf, StoreView, WriteBatch};
use crate::table;
use crate::table::Entries;
use crate::text;
use crate::types;
use crate::types::{DataType, Metadata};
use vstd::prelude::*;

verus! {

/// Entries read at a time.
pub const LIST_PAGE_SIZE: usize = 1024;

/// The metadata of a list.
pub open spec fn list_meta(s: StoreView, ns: Seq<u8>, key: Seq<u8>, now_ms: i64) -> Result<
    Option<Metadata>,
    ErrorView,
> {
    cmd::typed_meta(s, ns, key, now_ms, DataType::List, "invalid list metadata"@)
}

fn load_list_meta(ctx: &CommandContext, user_key: &[u8], now_ms: i64) -> (r: KvdbResult<
    Option<Metadata>,
>)
    ensures
        cmd::meta_view(r) == list_meta(ctx.storage@, ctx.namespace@, user_key@, now_ms),
{
    ctx.load_typed(user_key, now_ms, DataType::List, "invalid list metadata")
}

/// A number brought into the range of 64 bits, modulo their number of values.
#[verifier::opaque]
pub open spec fn wrapped(x: int) -> i64 {
    ((x + 0x8000_0000_0000_0000) % 0x1_0000_0000_0000_0000 - 0x8000_0000_0000_0000) as i64
}

/// A number in range stays as it is, and wrapping may be left to the last of
/// several steps.
pub proof fn lemma_wrapped(x: int, d: int)
    ensures
        i64::MIN <= x <= i64::MAX ==> wrapped(x) == x,
        wrapped(wrapped(x) + d) == wrapped(x + d),
{
    reveal(wrapped);
}

/// Moves a number, wrapping around.
fn moved_by(x: i64, d: i64) -> (r: i64)
    ensures
        r == wrapped(x + d),
{
    proof {
        reveal(wrapped);
    }
    x.wrapping_add(d)
}

/// The bytes of an element's number: shifted into the unsigned range, so that
/// they are ordered as the numbers are.
pub open spec fn index_bytes(i: int) -> Seq<u8> {
    codec::be((i + 0x8000_0000_0000_0000) as nat, 8)
}

/// The number that eight bytes hold.
pub open spec fn index_in(b: Seq<u8>) -> int {
    codec::from_be(b) - 0x8000_0000_0000_0000
}

/// An element's number survives the trip through its bytes, and the bytes of
/// two numbers are ordered as the numbers are.
pub proof fn law_index_bytes(i: i64, j: i64)
    ensures
        index_bytes(i as int).len() == 8,
        index_in(index_bytes(i as int)) == i,
        order::lt(index_bytes(i as int), index_bytes(j as int)) == (i < j),
{
    codec::lemma_pow256_values();
    codec::lemma_be_round_trip((i + 0x8000_0000_0000_0000) as nat, 8);
    codec::lemma_be_order(
        (i + 0x8000_0000_0000_0000) as nat,
        (j + 0x8000_0000_0000_0000) as nat,
        8,
    );
}

/// Writes an element's number.
pub fn encode_index(i: i64) -> (v: Vec<u8>)
    ensures
        v@ == index_bytes(i as int),
{
    let shifted: u64 = if i >= 0 {
        i as u64 + 0x8000_0000_0000_0000
    } else {
        let m: i64 = -(i + 1);
        0x7FFF_FFFF_FFFF_FFFF - (m as u64)
    };
    let mut v: Vec<u8> = Vec::new();
    codec::push_be(&mut v, shifted, 8);
    proof {
        assert(v@ =~= index_bytes(i as int));
    }
    v
}

/// Reads an element's number from its first eight bytes.
pub fn decode_index(b: &[u8]) -> (r: KvdbResult<i64>)
    ensures
        match r {
            Ok(i) => b@.len() >= 8 && i == index_in(b@.take(8)),
            Err(e) => b@.len() < 8 && e@ == bad_index(),
        },
{
    if b.len() < 8 {
        return Err(error::protocol_error("invalid list index bytes"));
    }
    let c: u64 = codec::read_be(b, 0, 8);
    proof {
        assert(b@.subrange(0, 8) =~= b@.take(8));
    }
    if c >= 0x8000_0000_0000_0000 {
        Ok((c - 0x8000_0000_0000_0000) as i64)
    } else {
        let m: u64 = 0x7FFF_FFFF_FFFF_FFFF - c;
        Ok(-(m as i64) - 1)
    }
}

/// The error for an element's number that is too short.
pub open spec fn bad_index() -> ErrorView {
    ErrorView::Protocol("invalid list index bytes"@)
}

/// The subkey of the element with a number.
pub open spec fn element_key(key: Seq<u8>, version: u64, i: int, ns: Seq<u8>) -> Seq<u8> {
    encoding::subkey_of(key, version, index_bytes(i), ns)
}

/// The number that the `n`th pushed element gets.
pub open spec fn pushed_index(m: Metadata, left: bool, n: int) -> i64 {
    if left {
        wrapped(m.head - n)
    } else {
        wrapped(m.tail + n)
    }
}

/// The entries after the first `n` elements among the arguments were pushed.
pub open spec fn pushed(
    e: Entries,
    ns: Seq<u8>,
    m: Metadata,
    a: Seq<Seq<u8>>,
    left: bool,
    n: nat,
) -> Entries
    decreases n,
{
    if n == 0 {
        e
    } else {
        pushed(e, ns, m, a, left, (n - 1) as nat).insert(
            element_key(a[0], m.version, pushed_index(m, left, n as int) as int, ns),
            a[n as int],
        )
    }
}

/// The name of a push command.
pub open spec fn push_name(left: bool) -> Seq<char> {
    if left {
        "LPUSH"@
    } else {
        "RPUSH"@
    }
}

/// LPUSH and RPUSH key element [element ...]: puts the elements one by one at
/// the front or at the back and replies the new length.
pub open spec fn push_outcome(
    s: StoreView,
    ns: Seq<u8>,
    a: Seq<Seq<u8>>,
    at: Moment,
    left: bool,
) -> Outcome {
    if a.len() < 2 {
        cmd::unchanged(Err(cmd::wrong_args(push_name(left))), s)
    } else {
        match list_meta(s, ns, a[0], at.now_ms) {
            Err(e) => cmd::unchanged(Err(e), s),
            Ok(found) => {
                let m = match found {
                    Some(m) => m,
                    None => types::fresh_metadata(DataType::List, at.version),
                };
                let n = (a.len() - 1) as nat;
                let size = cmd::grown(m.size, n);
                Outcome {
                    reply: Ok(cmd::count_reply(size)),
                    store: StoreView {
                        subkey: pushed(s.subkey, ns, m, a, left, n),
                        metadata: s.metadata.insert(
                            encoding::meta_key_of(a[0], ns),
                            encoding::metadata_bytes(
                                (Metadata {
                                    size,
                                    head: if left {
                                        wrapped(m.head - n)
                                    } else {
                                        m.head
                                    },
                                    tail: if left {
                                        m.tail
                                    } else {
                                        wrapped(m.tail + n)
                                    },
                                    ..m
                                }),
                            ),
                        ),
                        ..s
                    },
                }
            },
        }
    }
}

fn push(ctx: &mut CommandContext, name: &'static str, args: &[Vec<u8>], at: Moment, left: bool) -> (r:
    KvdbResult<RespValue>)
    requires
        name@ == push_name(left),
    ensures
        cmd::outcome(r, final(ctx).storage@) == push_outcome(
            old(ctx).storage@,
            old(ctx).namespace@,
            encoding::byte_seqs(args@),
            at,
            left,
        ),
        final(ctx).kept(*old(ctx)),
{
    proof {
        ctx.storage.lemma_follows_self();
    }
    match expect_min_arg_count(name, args, 2) {
        Ok(_) => {},
        Err(e) => return Err(e),
    }
    let mut meta = match load_list_meta(ctx, &args[0], at.now_ms) {
        Ok(Some(m)) => m,
        Ok(None) => Metadata::new(DataType::List, at.version),
        Err(e) => return Err(e),
    };
    let ghost a = encoding::byte_seqs(args@);
    let ghost s = ctx.storage@;
    let ghost ns = ctx.namespace@;
    let ghost first = meta;
    let mut batch = WriteBatch::new();
    let mut i: usize = 1;
    proof {
        lemma_wrapped(first.head as int, 0);
        lemma_wrapped(first.tail as int, 0);
    }
    while i < args.len()
        invariant
            1 <= i <= args@.len(),
            a == encoding::byte_seqs(args@),
            *ctx == *old(ctx),
            s == ctx.storage@,
            ns == ctx.namespace@,
            meta == (Metadata {
                size: cmd::grown(first.size, (i - 1) as nat),
                head: if left {
                    wrapped(first.head - (i - 1))
                } else {
                    first.head
                },
                tail: if left {
                    first.tail
                } else {
                    wrapped(first.tail + (i - 1))
                },
                ..first
            }),
            storage::applied(s, batch@) == (StoreView {
                subkey: pushed(s.subkey, ns, first, a, left, (i - 1) as nat),
                ..s
            }),
        decreases args.len() - i,
    {
        proof {
            assert(a[i as int] == args@[i as int]@);
            assert(a[0] == args@[0]@);
            lemma_wrapped(first.head - (i - 1), -1);
            lemma_wrapped(first.tail + (i - 1), 1);
        }
        let index: i64 = if left {
            meta.head = moved_by(meta.head, -1);
            meta.head
        } else {
            meta.tail = moved_by(meta.tail, 1);
            meta.tail
        };
        proof {
            assert(index == pushed_index(first, left, i as int));
        }
        let sub = encode_index(index);
        let sk = ctx.sub_key(&args[0], meta.version, &sub);
        batch.put(Cf::Subkey, &sk, &args[i]);
        meta.size = meta.size.wrapping_add(1);
        i = i + 1;
    }
    let mk = ctx.meta_key(&args[0]);
    let mv = encoding::encode_metadata(&meta);
    batch.put(Cf::Metadata, &mk, &mv);
    ctx.storage.write(batch);
    Ok(count_value(meta.size))
}

pub fn lpush(ctx: &mut CommandContext, args: &[Vec<u8>], at: Moment) -> (r: KvdbResult<RespValue>)
    ensures
        cmd::outcome(r, final(ctx).storage@) == push_outcome(
            old(ctx).storage@,
            old(ctx).namespace@,
            encoding::byte_seqs(args@),
            at,
            true,
        ),
        final(ctx).kept(*old(ctx)),
{
    push(ctx, "LPUSH", args, at, true)
}

pub fn rpush(ctx: &mut CommandContext, args: &[Vec<u8>], at: Moment) -> (r: KvdbResult<RespValue>)
    ensures
        cmd::outcome(r, final(ctx).storage@) == push_outcome(
            old(ctx).storage@,
            old(ctx).namespace@,
            encoding::byte_seqs(args@),
            at,
            false,
        ),
        final(ctx).kept(*old(ctx)),
{
    push(ctx, "RPUSH", args, at, false)
}

/// The number of the `j`th element from the end that is popped, counted from
/// 0.
pub open spec fn popped_index(m: Metadata, left: bool, j: int) -> i64 {
    if left {
        wrapped(m.head + j)
    } else {
        wrapped(m.tail - j)
    }
}

/// The subkey of the `j`th element from the end that is popped.
pub open spec fn popped_key(m: Metadata, key: Seq<u8>, ns: Seq<u8>, left: bool, j: int) -> Seq<u8> {
    element_key(key, m.version, popped_index(m, left, j) as int, ns)
}

/// The first `n` popped elements, those that are there.
pub open spec fn popped_values(
    e: Entries,
    m: Metadata,
    key: Seq<u8>,
    ns: Seq<u8>,
    left: bool,
    n: nat,
) -> Seq<RespView>
    decreases n,
{
    if n == 0 {
        Seq::empty()
    } else {
        let before = popped_values(e, m, key, ns, left, (n - 1) as nat);
        match table::lookup(e, popped_key(m, key, ns, left, n - 1)) {
            Some(v) => before.push(cmd::bulk(Some(v))),
            None => before,
        }
    }
}

/// The entries without the first `n` popped elements.
pub open spec fn popped_entries(
    e: Entries,
    m: Metadata,
    key: Seq<u8>,
    ns: Seq<u8>,
    left: bool,
    n: nat,
) -> Entries
    decreases n,
{
    if n == 0 {
        e
    } else {
        popped_entries(e, m, key, ns, left, (n - 1) as nat).remove(
            popped_key(m, key, ns, left, n - 1),
        )
    }
}

/// The metadata after `n` elements were popped. An emptied list starts over.
pub open spec fn popped_meta(m: Metadata, left: bool, n: nat) -> Metadata {
    let size = (m.size - n) as u64;
    if size == 0 {
        Metadata { size: 0, head: 0, tail: -1i64, ..m }
    } else {
        Metadata {
            size,
            head: if left {
                wrapped(m.head + n)
            } else {
                m.head
            },
            tail: if left {
                m.tail
            } else {
                wrapped(m.tail - n)
            },
            ..m
        }
    }
}

/// The store after `n` elements were popped.
pub open spec fn popped_store(
    s: StoreView,
    ns: Seq<u8>,
    key: Seq<u8>,
    m: Metadata,
    left: bool,
    n: nat,
) -> StoreView {
    StoreView {
        subkey: popped_entries(s.subkey, m, key, ns, left, n),
        metadata: s.metadata.insert(
            encoding::meta_key_of(key, ns),
            encoding::metadata_bytes(popped_meta(m, left, n)),
        ),
        ..s
    }
}

/// The name of a pop command.
pub open spec fn pop_name(left: bool) -> Seq<char> {
    if left {
        "LPOP"@
    } else {
        "RPOP"@
    }
}

/// LPOP and RPOP key [count]: takes an element, or up to `count` of them, from
/// the front or from the back.
pub open spec fn pop_outcome(
    s: StoreView,
    ns: Seq<u8>,
    a: Seq<Seq<u8>>,
    now_ms: i64,
    left: bool,
) -> Outcome {
    if a.len() != 1 && a.len() != 2 {
        cmd::unchanged(Err(cmd::wrong_args(pop_name(left))), s)
    } else if a.len() == 1 {
        match list_meta(s, ns, a[0], now_ms) {
            Err(e) => cmd::unchanged(Err(e), s),
            Ok(None) => cmd::unchanged(Ok(cmd::bulk(None)), s),
            Ok(Some(m)) => if m.size == 0 {
                cmd::unchanged(Ok(cmd::bulk(None)), s)
            } else {
                Outcome {
                    reply: Ok(
                        cmd::bulk(table::lookup(s.subkey, popped_key(m, a[0], ns, left, 0))),
                    ),
                    store: popped_store(s, ns, a[0], m, left, 1),
                }
            },
        }
    } else {
        match text::usize_in(a[1]) {
            None => cmd::unchanged(Err(ErrorView::NotInteger), s),
            Some(count) => if count == 0 {
                cmd::unchanged(Ok(cmd::no_items()), s)
            } else {
                match list_meta(s, ns, a[0], now_ms) {
                    Err(e) => cmd::unchanged(Err(e), s),
                    Ok(None) => cmd::unchanged(Ok(cmd::no_items()), s),
                    Ok(Some(m)) => if m.size == 0 {
                        cmd::unchanged(Ok(cmd::no_items()), s)
                    } else {
                        let n = if (count as nat) < (m.size as nat) {
                            count as nat
                        } else {
                            m.size as nat
                        };
                        Outcome {
                            reply: Ok(
                                RespView::Array(
                                    popped_values(s.subkey, m, a[0], ns, left, n),
                                ),
                            ),
                            store: popped_store(s, ns, a[0], m, left, n),
                        }
                    },
                }
            },
        }
    }
}

proof fn lemma_popped_subset(
    e: Entries,
    m: Metadata,
    key: Seq<u8>,
    ns: Seq<u8>,
    left: bool,
    n: nat,
)
    ensures
        forall|k: Seq<u8>| #[trigger]
            popped_entries(e, m, key, ns, left, n).contains_key(k) ==> e.contains_key(k),
    decreases n,
{
    if n > 0 {
        lemma_popped_subset(e, m, key, ns, left, (n - 1) as nat);
        assert forall|k: Seq<u8>| #[trigger]
            popped_entries(e, m, key, ns, left, n).contains_key(k) implies e.contains_key(k) by {
            assert(popped_entries(e, m, key, ns, left, (n - 1) as nat).contains_key(k));
        }
    }
}

fn take_elements(ctx: &mut CommandContext, user_key: &[u8], meta: &Metadata, left: bool, n: u64) -> (r:
    Vec<RespValue>)
    requires
        n <= meta.size,
    ensures
        protocol::views(r@) == popped_values(
            old(ctx).storage@.subkey,
            *meta,
            user_key@,
            old(ctx).namespace@,
            left,
            n as nat,
        ),
        final(ctx).storage@ == popped_store(
            old(ctx).storage@,
            old(ctx).namespace@,
            user_key@,
            *meta,
            left,
            n as nat,
        ),
        final(ctx).kept(*old(ctx)),
{
    let ghost s = ctx.storage@;
    let ghost ns = ctx.namespace@;
    let ghost e = s.subkey;
    let mut moved = *meta;
    let mut result: Vec<RespValue> = Vec::new();
    let mut batch = WriteBatch::new();
    let mut j: u64 = 0;
    proof {
        assert(protocol::views(result@) =~= Seq::<RespView>::empty());
        lemma_wrapped(meta.head as int, 0);
        lemma_wrapped(meta.tail as int, 0);
    }
    while j < n
        invariant
            j <= n <= meta.size,
            *ctx == *old(ctx),
            s == ctx.storage@,
            ns == ctx.namespace@,
            e == s.subkey,
            moved == (Metadata {
                size: (meta.size - j) as u64,
                head: if left {
                    wrapped(meta.head + j)
                } else {
                    meta.head
                },
                tail: if left {
                    meta.tail
                } else {
                    wrapped(meta.tail - j)
                },
                ..*meta
            }),
            protocol::views(result@) == popped_values(e, *meta, user_key@, ns, left, j as nat),
            storage::applied(s, batch@) == (StoreView {
                subkey: popped_entries(e, *meta, user_key@, ns, left, j as nat),
                ..s
            }),
        decreases n - j,
    {
        let index: i64 = if left {
            moved.head
        } else {
            moved.tail
        };
        let sub = encode_index(index);
        let sk = ctx.sub_key(user_key, moved.version, &sub);
        proof {
            assert(sk@ == popped_key(*meta, user_key@, ns, left, j as int));
            lemma_popped_subset(e, *meta, user_key@, ns, left, j as nat);
            lemma_wrapped(meta.head + j, 1);
            lemma_wrapped(meta.tail - j, -1);
        }
        match ctx.storage.get_in(Cf::Subkey, &sk) {
            Some(v) => {
                push_reply(&mut result, RespValue::BulkString(Some(v)));
                batch.delete(Cf::Subkey, &sk);
            },
            None => {
                proof {
                    let before = popped_entries(e, *meta, user_key@, ns, left, j as nat);
                    assert(before.remove(sk@) =~= before);
                }
            },
        }
        if left {
            moved.head = moved_by(moved.head, 1);
        } else {
            moved.tail = moved_by(moved.tail, -1);
        }
        moved.size = moved.size - 1;
        j = j + 1;
    }
    if moved.size == 0 {
        moved.head = 0;
        moved.tail = -1;
    }
    let mk = ctx.meta_key(user_key);
    let mv = encoding::encode_metadata(&moved);
    batch.put(Cf::Metadata, &mk, &mv);
    ctx.storage.write(batch);
    result
}

fn pop(ctx: &mut CommandContext, name: &'static str, args: &[Vec<u8>], now_ms: i64, left: bool) -> (r:
    KvdbResult<RespValue>)
    requires
        name@ == pop_name(left),
    ensures
        cmd::outcome(r, final(ctx).storage@) == pop_outcome(
            old(ctx).storage@,
            old(ctx).namespace@,
            encoding::byte_seqs(args@),
            now_ms,
            left,
        ),
        final(ctx).kept(*old(ctx)),
{
    proof {
        ctx.storage.lemma_follows_self();
    }
    if args.len() != 1 && args.len() != 2 {
        return Err(KvdbError::WrongArgCount(name));
    }
    if args.len() == 1 {
        let meta = match load_list_meta(ctx, &args[0], now_ms) {
            Ok(Some(m)) => m,
            Ok(None) => return Ok(RespValue::BulkString(None)),
            Err(e) => return Err(e),
        };
        if meta.size == 0 {
            return Ok(RespValue::BulkString(None));
        }
        let index: i64 = if left {
            meta.head
        } else {
            meta.tail
        };
        proof {
            lemma_wrapped(index as int, 0);
        }
        let sub = encode_index(index);
        let sk = ctx.sub_key(&args[0], meta.version, &sub);
        let value = ctx.storage.get_in(Cf::Subkey, &sk);
        let _taken = take_elements(ctx, &args[0], &meta, left, 1);
        return Ok(RespValue::BulkString(value));
    }
    let count: usize = match text::parse_usize(&args[1]) {
        Some(n) => n,
        None => return Err(KvdbError::NotInteger),
    };
    if count == 0 {
        return Ok(empty_array());
    }
    let meta = match load_list_meta(ctx, &args[0], now_ms) {
        Ok(Some(m)) => m,
        Ok(None) => return Ok(empty_array()),
        Err(e) => return Err(e),
    };
    if meta.size == 0 {
        return Ok(empty_array());
    }
    let actual: u64 = if (count as u64) < meta.size {
        count as u64
    } else {
        meta.size
    };
    let result = take_elements(ctx, &args[0], &meta, left, actual);
    Ok(array(result))
}

pub fn lpop(ctx: &mut CommandContext, args: &[Vec<u8>], now_ms: i64) -> (r: KvdbResult<RespValue>)
    ensures
        cmd::outcome(r, final(ctx).storage@) == pop_outcome(
            old(ctx).storage@,
            old(ctx).namespace@,
            encoding::byte_seqs(args@),
            now_ms,
            true,
        ),
        final(ctx).kept(*old(ctx)),
{
    pop(ctx, "LPOP", args, now_ms, true)
}

pub fn rpop(ctx: &mut CommandContext, args: &[Vec<u8>], now_ms: i64) -> (r: KvdbResult<RespValue>)
    ensures
        cmd::outcome(r, final(ctx).storage@) == pop_outcome(
            old(ctx).storage@,
            old(ctx).namespace@,
            encoding::byte_seqs(args@),
            now_ms,
            false,
        ),
        final(ctx).kept(*old(ctx)),
{
    pop(ctx, "RPOP", args, now_ms, false)
}

/// The first and the last position that two indexes bound: negative ones count
/// from the end, and both are brought into the list.
pub open spec fn list_span(len: int, start: int, stop: int) -> (int, int) {
    let s = if start < 0 {
        start + len
    } else {
        start
    };
    let e = if stop < 0 {
        stop + len
    } else {
        stop
    };
    (
        if s < 0 {
            0
        } else {
            s
        },
        if e >= len {
            len - 1
        } else {
            e
        },
    )
}

/// What the number of an element cannot be read for: the subkey cannot be
/// taken apart, or the number is too short.
pub open spec fn unreadable(k: Seq<u8>, ns: Seq<u8>) -> Option<ErrorView> {
    match encoding::subkey_parts(k, ns) {
        None => Some(ErrorView::Protocol("invalid list subkey"@)),
        Some((_, _, sub)) => if sub.len() < 8 {
            Some(bad_index())
        } else {
            None
        },
    }
}

/// The number of an element.
pub open spec fn index_of_key(k: Seq<u8>, ns: Seq<u8>) -> int {
    match encoding::subkey_parts(k, ns) {
        Some((_, _, sub)) => index_in(sub.take(8)),
        None => 0,
    }
}

/// A subkey that ends a walk: it cannot be read, or it lies behind `last`.
pub open spec fn ends_walk(ns: Seq<u8>, last: int) -> spec_fn(Seq<u8>) -> bool {
    |k: Seq<u8>| unreadable(k, ns) is Some || index_of_key(k, ns) > last
}

/// A subkey that does not lie before `first`.
pub open spec fn not_before(ns: Seq<u8>, first: int) -> spec_fn(Seq<u8>) -> bool {
    |k: Seq<u8>| index_of_key(k, ns) >= first
}

/// The values of subkeys as replies.
pub open spec fn values_at(e: Entries, ks: Seq<Seq<u8>>) -> Seq<RespView> {
    Seq::new(ks.len(), |i: int| cmd::bulk(Some(e[ks[i]])))
}

/// At most `n` of a list.
pub open spec fn at_most(ks: Seq<Seq<u8>>, n: int) -> Seq<Seq<u8>> {
    if ks.len() > n {
        ks.take(n)
    } else {
        ks
    }
}

/// The elements numbered `first` to `last`, at most `count` of them. The
/// subkeys are read up to there.
pub open spec fn elements_between(
    e: Entries,
    ks: Seq<Seq<u8>>,
    ns: Seq<u8>,
    first: int,
    last: int,
    count: int,
) -> Result<RespView, ErrorView> {
    let end = order::first_from(ks, ends_walk(ns, last), 0);
    let hits = ks.take(end).filter(not_before(ns, first));
    if end < ks.len() && unreadable(ks[end], ns) is Some && hits.len() < count {
        Err(unreadable(ks[end], ns)->0)
    } else {
        Ok(RespView::Array(values_at(e, at_most(hits, count))))
    }
}

/// LRANGE key start stop.
pub open spec fn lrange_reply(s: StoreView, ns: Seq<u8>, a: Seq<Seq<u8>>, now_ms: i64) -> Result<
    RespView,
    ErrorView,
> {
    if a.len() != 3 {
        Err(cmd::wrong_args("LRANGE"@))
    } else {
        match (text::i64_in(a[1]), text::i64_in(a[2])) {
            (Some(start), Some(stop)) => match list_meta(s, ns, a[0], now_ms) {
                Err(e) => Err(e),
                Ok(None) => Ok(cmd::no_items()),
                Ok(Some(m)) => {
                    let (x, y) = list_span(
                        codec::from_bits(m.size as nat),
                        start as int,
                        stop as int,
                    );
                    if m.size == 0 || x > y {
                        Ok(cmd::no_items())
                    } else {
                        elements_between(
                            s.subkey,
                            table::keys_with(
                                s.subkey,
                                encoding::sub_prefix(a[0], m.version, ns),
                            ),
                            ns,
                            wrapped(m.head + x) as int,
                            wrapped(m.head + y) as int,
                            y - x + 1,
                        )
                    }
                },
            },
            _ => Err(ErrorView::NotInteger),
        }
    }
}

fn read_index(ctx: &CommandContext, key: &[u8]) -> (r: KvdbResult<i64>)
    ensures
        match r {
            Ok(i) => unreadable(key@, ctx.namespace@) is None && i == index_of_key(
                key@,
                ctx.namespace@,
            ),
            Err(e) => unreadable(key@, ctx.namespace@) == Some(e@),
        },
{
    match ctx.parse_subkey(key) {
        Some((_key, _version, sub)) => decode_index(sub),
        None => Err(error::protocol_error("invalid list subkey")),
    }
}

fn collect_elements(
    ctx: &CommandContext,
    prefix: &[u8],
    first: i64,
    last: i64,
    count: u64,
) -> (r: KvdbResult<RespValue>)
    requires
        prefix@.len() > 0,
        count > 0,
    ensures
        cmd::reply_view(r) == elements_between(
            ctx.storage@.subkey,
            table::keys_with(ctx.storage@.subkey, prefix@),
            ctx.namespace@,
            first as int,
            last as int,
            count as int,
        ),
{
    let mut result: Vec<RespValue> = Vec::new();
    let mut start_key: Vec<u8> = Vec::new();
    let mut done = false;
    let ghost e = ctx.storage@.subkey;
    let ghost ns = ctx.namespace@;
    let ghost ks = table::keys_with(e, prefix@);
    let ghost stop = ends_walk(ns, last as int);
    let ghost keep = not_before(ns, first as int);
    let ghost want = elements_between(e, ks, ns, first as int, last as int, count as int);
    let ghost mut pos: int = 0;
    proof {
        assert(start_key@ =~= table::forward_mark(e, prefix@, 0));
        assert(ks.take(0) =~= Seq::<Seq<u8>>::empty());
        assert(ks.take(0).filter(keep) =~= Seq::<Seq<u8>>::empty()) by {
            reveal(Seq::filter);
        }
        assert(protocol::views(result@) =~= values_at(e, ks.take(0).filter(keep)));
    }
    loop
        invariant_except_break
            !done,
            start_key@ == table::forward_mark(e, prefix@, pos),
            0 <= pos <= ks.len(),
            order::first_from(ks, stop, 0) == order::first_from(ks, stop, pos),
            ({
                let hits = ks.take(pos).filter(keep);
                &&& hits.len() < count
                &&& protocol::views(result@) == values_at(e, hits)
            }),
        invariant
            prefix@.len() > 0,
            count > 0,
            e == ctx.storage@.subkey,
            ns == ctx.namespace@,
            ks == table::keys_with(e, prefix@),
            stop == ends_walk(ns, last as int),
            keep == not_before(ns, first as int),
            want == elements_between(e, ks, ns, first as int, last as int, count as int),
        ensures
            want == Ok::<_, ErrorView>(RespView::Array(protocol::views(result@))),
        decreases ks.len() - pos,
    {
        let (items, next) = ctx.storage.walk(
            Cf::Subkey,
            prefix,
            &start_key,
            LIST_PAGE_SIZE,
            Ghost(pos),
        );
        if items.len() == 0 {
            proof {
                assert(ks.take(pos) =~= ks);
                assert(order::first_from(ks, stop, pos) == ks.len());
            }
            break;
        }
        let mut j: usize = 0;
        let ghost n = items@.len() as int;
        proof {
            assert forall|i: int| 0 <= i < n implies (#[trigger] items@[i]).0@ == ks[pos + i]
                && items@[i].1@ == e[ks[pos + i]] by {
                assert(table::pairs_of(items@)[i] == (items@[i].0@, items@[i].1@));
                assert(table::entries_at(e, ks.subrange(pos, pos + n))[i].0 == ks[pos + i]);
            }
        }
        while j < items.len() && !done
            invariant
                j <= items@.len(),
                0 <= pos,
                count > 0,
                pos + items@.len() <= ks.len() <= usize::MAX,
                e == ctx.storage@.subkey,
                ns == ctx.namespace@,
                ks == table::keys_with(e, prefix@),
                stop == ends_walk(ns, last as int),
                keep == not_before(ns, first as int),
                want == elements_between(e, ks, ns, first as int, last as int, count as int),
                forall|i: int|
                    0 <= i < items@.len() ==> (#[trigger] items@[i]).0@ == ks[pos + i]
                        && items@[i].1@ == e[ks[pos + i]],
                done ==> want == Ok::<_, ErrorView>(RespView::Array(protocol::views(result@))),
                !done ==> order::first_from(ks, stop, 0) == order::first_from(ks, stop, pos + j),
                !done ==> ({
                    let hits = ks.take(pos + j).filter(keep);
                    &&& hits.len() < count
                    &&& protocol::views(result@) == values_at(e, hits)
                }),
            decreases items.len() - j,
        {
            let ghost x = pos + j;
            let ghost k = ks[x];
            let ghost hits = ks.take(x).filter(keep);
            proof {
                assert(items@[j as int].0@ == k);
                assert(ks.take(x + 1) =~= ks.take(x).push(k));
                ks.take(x).lemma_filter_push(k, keep);
            }
            let index: i64 = match read_index(ctx, &items[j].0) {
                Ok(i) => i,
                Err(err) => {
                    proof {
                        assert(stop(k));
                        assert(order::first_from(ks, stop, x) == x);
                    }
                    return Err(err);
                },
            };
            proof {
                assert(stop(k) == (index > last));
                assert(keep(k) == (index >= first));
            }
            if index > last {
                proof {
                    assert(order::first_from(ks, stop, x) == x);
                }
                done = true;
            } else {
                proof {
                    assert(order::first_from(ks, stop, x) == order::first_from(ks, stop, x + 1));
                    order::lemma_first_bound(ks, stop, x + 1);
                }
                if index >= first {
                    let ghost hits1 = hits.push(k);
                    push_reply(
                        &mut result,
                        RespValue::BulkString(Some(encoding::copy(&items[j].1))),
                    );
                    proof {
                        assert(ks.take(x + 1).filter(keep) == hits1);
                        assert(protocol::views(result@) =~= values_at(e, hits1));
                        assert(result@.len() == protocol::views(result@).len());
                    }
                    if result.len() as u64 >= count {
                        proof {
                            let end = order::first_from(ks, stop, 0);
                            let rest = ks.subrange(x + 1, end);
                            assert(ks.take(end) =~= ks.take(x + 1) + rest);
                            Seq::filter_distributes_over_add(ks.take(x + 1), rest, keep);
                            assert(at_most(hits1 + rest.filter(keep), count as int) =~= hits1);
                        }
                        done = true;
                    }
                }
            }
            j = j + 1;
        }
        proof {
            pos = pos + j;
        }
        if done {
            break;
        }
        match next {
            Some(k) => {
                start_key = k;
            },
            None => {
                proof {
                    assert(ks.take(pos) =~= ks);
                    assert(order::first_from(ks, stop, pos) == ks.len());
                }
                break;
            },
        }
    }
    Ok(array(result))
}

pub fn lrange(ctx: &CommandContext, args: &[Vec<u8>], now_ms: i64) -> (r: KvdbResult<RespValue>)
    ensures
        cmd::reply_view(r) == lrange_reply(
            ctx.storage@,
            ctx.namespace@,
            encoding::byte_seqs(args@),
            now_ms,
        ),
{
    match expect_arg_count("LRANGE", args, 3) {
        Ok(_) => {},
        Err(e) => return Err(e),
    }
    let start: i64 = match text::parse_i64(&args[1]) {
        Some(n) => n,
        None => return Err(KvdbError::NotInteger),
    };
    let stop: i64 = match text::parse_i64(&args[2]) {
        Some(n) => n,
        None => return Err(KvdbError::NotInteger),
    };
    let meta = match load_list_meta(ctx, &args[0], now_ms) {
        Ok(Some(m)) => m,
        Ok(None) => return Ok(empty_array()),
        Err(e) => return Err(e),
    };
    let len: i64 = codec::signed_of(meta.size);
    if len <= 0 {
        return Ok(empty_array());
    }
    let mut x: i64 = if start < 0 {
        start + len
    } else {
        start
    };
    let mut y: i64 = if stop < 0 {
        stop + len
    } else {
        stop
    };
    if x < 0 {
        x = 0;
    }
    if y >= len {
        y = len - 1;
    }
    if x > y {
        return Ok(empty_array());
    }
    let first: i64 = moved_by(meta.head, x);
    let last: i64 = moved_by(meta.head, y);
    let prefix = ctx.sub_prefix(&args[0], meta.version);
    collect_elements(ctx, &prefix, first, last, (y - x + 1) as u64)
}

/// LINDEX key index: the element at a position, counted from the end if it is
/// negative.
pub open spec fn lindex_reply(s: StoreView, ns: Seq<u8>, a: Seq<Seq<u8>>, now_ms: i64) -> Result<
    RespView,
    ErrorView,
> {
    if a.len() != 2 {
        Err(cmd::wrong_args("LINDEX"@))
    } else {
        match text::i64_in(a[1]) {
            None => Err(ErrorView::NotInteger),
            Some(index) => match list_meta(s, ns, a[0], now_ms) {
                Err(e) => Err(e),
                Ok(None) => Ok(cmd::bulk(None)),
                Ok(Some(m)) => {
                    let len = codec::from_bits(m.size as nat);
                    let i = if index < 0 {
                        index + len
                    } else {
                        index as int
                    };
                    if i < 0 || i >= len {
                        Ok(cmd::bulk(None))
                    } else {
                        Ok(
                            cmd::bulk(
                                table::lookup(
                                    s.subkey,
                                    element_key(
                                        a[0],
                                        m.version,
                                        wrapped(m.head + i) as int,
                                        ns,
                                    ),
                                ),
                            ),
                        )
                    }
                },
            },
        }
    }
}

pub fn lindex(ctx: &CommandContext, args: &[Vec<u8>], now_ms: i64) -> (r: KvdbResult<RespValue>)
    ensures
        cmd::reply_view(r) == lindex_reply(
            ctx.storage@,
            ctx.namespace@,
            encoding::byte_seqs(args@),
            now_ms,
        ),
{
    match expect_arg_count("LINDEX", args, 2) {
        Ok(_) => {},
        Err(e) => return Err(e),
    }
    let index: i64 = match text::parse_i64(&args[1]) {
        Some(n) => n,
        None => return Err(KvdbError::NotInteger),
    };
    let meta = match load_list_meta(ctx, &args[0], now_ms) {
        Ok(Some(m)) => m,
        Ok(None) => return Ok(RespValue::BulkString(None)),
        Err(e) => return Err(e),
    };
    let len: i64 = codec::signed_of(meta.size);
    if len <= 0 {
        return Ok(RespValue::BulkString(None));
    }
    let i: i64 = if index < 0 {
        index + len
    } else {
        index
    };
    if i < 0 || i >= len {
        return Ok(RespValue::BulkString(None));
    }
    let sub = encode_index(moved_by(meta.head, i));
    let sk = ctx.sub_key(&args[0], meta.version, &sub);
    Ok(RespValue::BulkString(ctx.storage.get_in(Cf::Subkey, &sk)))
}

/// LLEN key: the size in the metadata.
pub open spec fn llen_reply(s: StoreView, ns: Seq<u8>, a: Seq<Seq<u8>>, now_ms: i64) -> Result<
    RespView,
    ErrorView,
> {
    if a.len() != 1 {
        Err(cmd::wrong_args("LLEN"@))
    } else {
        match list_meta(s, ns, a[0], now_ms) {
            Err(e) => Err(e),
            Ok(None) => Ok(RespView::Integer(0)),
            Ok(Some(m)) => Ok(cmd::count_reply(m.size)),
        }
    }
}

pub fn llen(ctx: &CommandContext, args: &[Vec<u8>], now_ms: i64) -> (r: KvdbResult<RespValue>)
    ensures
        cmd::reply_view(r) == llen_reply(
            ctx.storage@,
            ctx.namespace@,
            encoding::byte_seqs(args@),
            now_ms,
        ),
{
    match expect_arg_count("LLEN", args, 1) {
        Ok(_) => {},
        Err(e) => return Err(e),
    }
    match load_list_meta(ctx, &args[0], now_ms) {
        Ok(Some(m)) => Ok(count_value(m.size)),
        Ok(None) => Ok(RespValue::Integer(0)),
        Err(e) => Err(e),
    }
}

/// The numbers that a list's elements have.
pub open spec fn numbers(m: Metadata) -> Set<Seq<u8>> {
    Set::new(|sub: Seq<u8>| exists|i: i64| m.head <= i <= m.tail && sub == #[trigger] index_bytes(i as int))
}

/// A list is in order: its size is that of the stretch from its head to its
/// tail, and exactly the numbers of that stretch are there.
pub open spec fn list_ok(e: Entries, ns: Seq<u8>, key: Seq<u8>, m: Metadata) -> bool {
    &&& cmd::well_formed_meta(m, DataType::List)
    &&& m.tail - m.head + 1 == m.size
    &&& m.size < 0x8000_0000_0000_0000
    &&& encoding::elements_of(e, key, m.version, ns) == numbers(m)
}

/// The elements of a list in their order.
pub open spec fn content(e: Entries, ns: Seq<u8>, key: Seq<u8>, m: Metadata) -> Seq<Seq<u8>> {
    Seq::new(m.size as nat, |i: int| e[element_key(key, m.version, m.head + i, ns)])
}

/// The metadata that a push finds or makes.
pub open spec fn push_meta(s: StoreView, ns: Seq<u8>, key: Seq<u8>, at: Moment) -> Metadata {
    match list_meta(s, ns, key, at.now_ms)->Ok_0 {
        Some(m) => m,
        None => types::fresh_metadata(DataType::List, at.version),
    }
}

/// A list's metadata after `n` pushes.
pub open spec fn pushed_meta(m: Metadata, left: bool, n: nat) -> Metadata {
    Metadata {
        size: cmd::grown(m.size, n),
        head: if left {
            wrapped(m.head - n)
        } else {
            m.head
        },
        tail: if left {
            m.tail
        } else {
            wrapped(m.tail + n)
        },
        ..m
    }
}

/// There is room for `n` more elements on both sides of a list.
pub open spec fn has_room(m: Metadata, n: int) -> bool {
    m.head - n >= i64::MIN && m.tail + n <= i64::MAX && m.size + n < 0x8000_0000_0000_0000
}

proof fn lemma_element_keys(key: Seq<u8>, version: u64, i: i64, j: i64, ns: Seq<u8>)
    ensures
        (element_key(key, version, i as int, ns) == element_key(key, version, j as int, ns)) == (i
            == j),
        (index_bytes(i as int) == index_bytes(j as int)) == (i == j),
{
    law_index_bytes(i, j);
    law_index_bytes(j, i);
    encoding::lemma_subkey_injective(
        key,
        version,
        index_bytes(i as int),
        index_bytes(j as int),
        ns,
    );
}

proof fn lemma_pushed(
    e: Entries,
    ns: Seq<u8>,
    m: Metadata,
    a: Seq<Seq<u8>>,
    left: bool,
    n: nat,
    i: i64,
)
    requires
        has_room(m, n as int),
        n < a.len(),
    ensures
        table::lookup(
            pushed(e, ns, m, a, left, n),
            element_key(a[0], m.version, i as int, ns),
        ) == if left && m.head - n <= i < m.head {
            Some(a[m.head - i])
        } else if !left && m.tail < i <= m.tail + n {
            Some(a[i - m.tail])
        } else {
            table::lookup(e, element_key(a[0], m.version, i as int, ns))
        },
    decreases n,
{
    if n > 0 {
        lemma_pushed(e, ns, m, a, left, (n - 1) as nat, i);
        lemma_wrapped(m.head - n, 0);
        lemma_wrapped(m.tail + n, 0);
        let x = pushed_index(m, left, n as int);
        lemma_element_keys(a[0], m.version, x, i, ns);
    }
}

proof fn lemma_pushed_elements(
    e: Entries,
    ns: Seq<u8>,
    m: Metadata,
    a: Seq<Seq<u8>>,
    left: bool,
    n: nat,
    sub: Seq<u8>,
)
    requires
        has_room(m, n as int),
        n < a.len(),
    ensures
        encoding::elements_of(pushed(e, ns, m, a, left, n), a[0], m.version, ns).contains(sub)
            <==> encoding::elements_of(e, a[0], m.version, ns).contains(sub) || exists|i: i64|
            (if left {
                m.head - n <= i < m.head
            } else {
                m.tail < i <= m.tail + n
            }) && sub == #[trigger] index_bytes(i as int),
    decreases n,
{
    if n > 0 {
        lemma_pushed_elements(e, ns, m, a, left, (n - 1) as nat, sub);
        lemma_wrapped(m.head - n, 0);
        lemma_wrapped(m.tail + n, 0);
        let x = pushed_index(m, left, n as int);
        let before = pushed(e, ns, m, a, left, (n - 1) as nat);
        encoding::lemma_elements(
            before,
            a[0],
            m.version,
            ns,
            index_bytes(x as int),
            a[n as int],
        );
        if exists|i: i64|
            (if left {
                m.head - n <= i < m.head
            } else {
                m.tail < i <= m.tail + n
            }) && sub == #[trigger] index_bytes(i as int) {
            let i = choose|i: i64|
                (if left {
                    m.head - n <= i < m.head
                } else {
                    m.tail < i <= m.tail + n
                }) && sub == #[trigger] index_bytes(i as int);
            if i != x {
                assert(if left {
                    m.head - (n - 1) <= i < m.head
                } else {
                    m.tail < i <= m.tail + (n - 1)
                });
            }
        }
    }
}

/// LPUSH puts the elements before the list, so that the last one comes first;
/// RPUSH puts them behind it. The list stays in order, and the reply and LLEN
/// are its length. This holds for any list that is in order, and a list that is
/// made anew, with a version behind all that are stored, holds nothing but the
/// pushed elements; as long as the numbers of the elements last.
pub proof fn law_push(
    s: StoreView,
    ns: Seq<u8>,
    a: Seq<Seq<u8>>,
    at: Moment,
    left: bool,
    last: u64,
)
    requires
        a.len() >= 2,
        list_meta(s, ns, a[0], at.now_ms) is Ok,
        match list_meta(s, ns, a[0], at.now_ms)->Ok_0 {
            Some(m) => list_ok(s.subkey, ns, a[0], m),
            None => laws::versions_upto(s, ns, a[0], last) && last < at.version,
        },
        has_room(push_meta(s, ns, a[0], at), a.len() - 1),
    ensures
        ({
            let m = push_meta(s, ns, a[0], at);
            let o = push_outcome(s, ns, a, at, left);
            let m2 = pushed_meta(m, left, (a.len() - 1) as nat);
            let before = content(s.subkey, ns, a[0], m);
            let after = content(o.store.subkey, ns, a[0], m2);
            &&& list_ok(o.store.subkey, ns, a[0], m2)
            &&& list_meta(s, ns, a[0], at.now_ms)->Ok_0 is None ==> before.len() == 0
            &&& after == if left {
                a.skip(1).reverse() + before
            } else {
                before + a.skip(1)
            }
            &&& o.reply == Ok::<_, ErrorView>(RespView::Integer(after.len() as i64))
            &&& list_there(o.store, ns, a[0], at.now_ms)
            &&& list_of(o.store, ns, a[0], at.now_ms) == after
            &&& llen_reply(o.store, ns, seq![a[0]], at.now_ms) == Ok::<_, ErrorView>(
                RespView::Integer(after.len() as i64),
            )
        }),
{
    if list_meta(s, ns, a[0], at.now_ms)->Ok_0 is None {
        laws::law_later_versions_are_unused(s, ns, a[0], last, at.version);
    }
    let m = push_meta(s, ns, a[0], at);
    let n = (a.len() - 1) as nat;
    let o = push_outcome(s, ns, a, at, left);
    let m2 = pushed_meta(m, left, n);
    let e = s.subkey;
    let e2 = o.store.subkey;
    lemma_wrapped(m.head - n, 0);
    lemma_wrapped(m.tail + n, 0);
    assert(m2.size == m.size + n);
    cmd::lemma_fresh_meta(DataType::List, at.version);
    if list_meta(s, ns, a[0], at.now_ms)->Ok_0 is Some {
        cmd::lemma_typed_meta_read(
            s,
            ns,
            a[0],
            at.now_ms,
            DataType::List,
            "invalid list metadata"@,
        );
    }
    cmd::lemma_typed_meta_written(
        o.store,
        ns,
        a[0],
        m2,
        at.now_ms,
        DataType::List,
        "invalid list metadata"@,
    );
    assert forall|sub: Seq<u8>|
        encoding::elements_of(e2, a[0], m.version, ns).contains(sub) == numbers(m2).contains(
            sub,
        ) by {
        lemma_pushed_elements(e, ns, m, a, left, n, sub);
        if numbers(m2).contains(sub) {
            let i = choose|i: i64|
                m2.head <= i <= m2.tail && sub == #[trigger] index_bytes(i as int);
            if m.head <= i <= m.tail {
                assert(numbers(m).contains(sub));
            }
        }
        if numbers(m).contains(sub) {
            let i = choose|i: i64|
                m.head <= i <= m.tail && sub == #[trigger] index_bytes(i as int);
            assert(m2.head <= i <= m2.tail);
        }
    }
    assert(encoding::elements_of(e2, a[0], m.version, ns) =~= numbers(m2));
    let before = content(e, ns, a[0], m);
    let after = content(e2, ns, a[0], m2);
    let want = if left {
        a.skip(1).reverse() + before
    } else {
        before + a.skip(1)
    };
    assert forall|j: int| 0 <= j < after.len() implies after[j] == want[j] by {
        let i = (m2.head + j) as i64;
        lemma_pushed(e, ns, m, a, left, n, i);
        let k = element_key(a[0], m.version, i as int, ns);
        if m.head <= i <= m.tail {
            assert(numbers(m).contains(index_bytes(i as int)));
            assert(encoding::elements_of(e, a[0], m.version, ns).contains(index_bytes(i as int)));
            assert(e.contains_key(k));
            assert(before[i - m.head] == e[k]);
        }
    }
    assert(after =~= want);
}

proof fn lemma_popped_lookup(
    e: Entries,
    ns: Seq<u8>,
    key: Seq<u8>,
    m: Metadata,
    left: bool,
    n: nat,
    i: i64,
)
    requires
        n <= m.size,
        m.tail - m.head + 1 == m.size,
        m.size < 0x8000_0000_0000_0000,
    ensures
        table::lookup(
            popped_entries(e, m, key, ns, left, n),
            element_key(key, m.version, i as int, ns),
        ) == if (left && m.head <= i < m.head + n) || (!left && m.tail - n < i <= m.tail) {
            None
        } else {
            table::lookup(e, element_key(key, m.version, i as int, ns))
        },
    decreases n,
{
    if n > 0 {
        lemma_popped_lookup(e, ns, key, m, left, (n - 1) as nat, i);
        lemma_wrapped(m.head + n - 1, 0);
        lemma_wrapped(m.tail - (n - 1), 0);
        let x = popped_index(m, left, n - 1);
        lemma_element_keys(key, m.version, x, i, ns);
    }
}

proof fn lemma_popped_elements(
    e: Entries,
    ns: Seq<u8>,
    key: Seq<u8>,
    m: Metadata,
    left: bool,
    n: nat,
    sub: Seq<u8>,
)
    requires
        n <= m.size,
        m.tail - m.head + 1 == m.size,
        m.size < 0x8000_0000_0000_0000,
    ensures
        encoding::elements_of(popped_entries(e, m, key, ns, left, n), key, m.version, ns).contains(
            sub,
        ) <==> encoding::elements_of(e, key, m.version, ns).contains(sub) && !(exists|i: i64|
            (if left {
                m.head <= i < m.head + n
            } else {
                m.tail - n < i <= m.tail
            }) && sub == #[trigger] index_bytes(i as int)),
    decreases n,
{
    if n > 0 {
        lemma_popped_elements(e, ns, key, m, left, (n - 1) as nat, sub);
        lemma_wrapped(m.head + n - 1, 0);
        lemma_wrapped(m.tail - (n - 1), 0);
        let x = popped_index(m, left, n - 1);
        let before = popped_entries(e, m, key, ns, left, (n - 1) as nat);
        encoding::lemma_elements(before, key, m.version, ns, index_bytes(x as int), Seq::empty());
        if exists|i: i64|
            (if left {
                m.head <= i < m.head + n
            } else {
                m.tail - n < i <= m.tail
            }) && sub == #[trigger] index_bytes(i as int) {
            let i = choose|i: i64|
                (if left {
                    m.head <= i < m.head + n
                } else {
                    m.tail - n < i <= m.tail
                }) && sub == #[trigger] index_bytes(i as int);
            if i != x {
                assert(if left {
                    m.head <= i < m.head + (n - 1)
                } else {
                    m.tail - (n - 1) < i <= m.tail
                });
            }
        }
    }
}

/// The first `n` elements from one end of a list as replies.
pub open spec fn taken_reply(c: Seq<Seq<u8>>, left: bool, n: nat) -> Seq<RespView> {
    Seq::new(
        n,
        |j: int|
            cmd::bulk(
                Some(
                    if left {
                        c[j]
                    } else {
                        c[c.len() - 1 - j]
                    },
                ),
            ),
    )
}

proof fn lemma_popped_values(
    e: Entries,
    ns: Seq<u8>,
    key: Seq<u8>,
    m: Metadata,
    left: bool,
    n: nat,
)
    requires
        n <= m.size,
        list_ok(e, ns, key, m),
    ensures
        ({
            let c = content(e, ns, key, m);
            popped_values(e, m, key, ns, left, n) == taken_reply(c, left, n)
        }),
    decreases n,
{
    let c = content(e, ns, key, m);
    let want = taken_reply(c, left, n);
    if n > 0 {
        lemma_popped_values(e, ns, key, m, left, (n - 1) as nat);
        lemma_wrapped(m.head + n - 1, 0);
        lemma_wrapped(m.tail - (n - 1), 0);
        let x = popped_index(m, left, n - 1);
        assert(m.head <= x <= m.tail);
        assert(numbers(m).contains(index_bytes(x as int)));
        assert(encoding::elements_of(e, key, m.version, ns).contains(index_bytes(x as int)));
        assert(c[x - m.head] == e[element_key(key, m.version, x as int, ns)]);
    }
    assert(popped_values(e, m, key, ns, left, n) =~= want);
}

/// A list is there and in order.
pub open spec fn list_there(s: StoreView, ns: Seq<u8>, key: Seq<u8>, now_ms: i64) -> bool {
    &&& list_meta(s, ns, key, now_ms) is Ok
    &&& list_meta(s, ns, key, now_ms)->Ok_0 is Some
    &&& list_ok(s.subkey, ns, key, list_meta(s, ns, key, now_ms)->Ok_0->0)
}

/// The list of a key.
pub open spec fn list_of(s: StoreView, ns: Seq<u8>, key: Seq<u8>, now_ms: i64) -> Seq<Seq<u8>> {
    content(s.subkey, ns, key, list_meta(s, ns, key, now_ms)->Ok_0->0)
}

/// LPOP takes the first element of a list and RPOP the last one; what is left
/// is in order.
pub proof fn law_pop_one(s: StoreView, ns: Seq<u8>, key: Seq<u8>, now_ms: i64, left: bool)
    requires
        list_there(s, ns, key, now_ms),
        list_of(s, ns, key, now_ms).len() > 0,
    ensures
        ({
            let c = list_of(s, ns, key, now_ms);
            let o = pop_outcome(s, ns, seq![key], now_ms, left);
            &&& o.reply == Ok::<_, ErrorView>(
                cmd::bulk(
                    Some(
                        if left {
                            c[0]
                        } else {
                            c[c.len() - 1]
                        },
                    ),
                ),
            )
            &&& list_there(o.store, ns, key, now_ms)
            &&& list_of(o.store, ns, key, now_ms) == if left {
                c.skip(1)
            } else {
                c.take(c.len() - 1)
            }
        }),
{
    let m = list_meta(s, ns, key, now_ms)->Ok_0->0;
    let c = content(s.subkey, ns, key, m);
    cmd::lemma_typed_meta_read(s, ns, key, now_ms, DataType::List, "invalid list metadata"@);
    lemma_list_keys(s.subkey, ns, key, m);
    lemma_wrapped(m.head as int, 0);
    lemma_wrapped(m.tail as int, 0);
    let ks = element_keys(key, m, ns);
    assert(s.subkey.contains_key(ks[0]));
    assert(s.subkey.contains_key(ks[m.size - 1]));
    lemma_left_over(s, ns, key, now_ms, m, left, 1);
    let o = pop_outcome(s, ns, seq![key], now_ms, left);
    assert(seq![key][0] == key);
    assert(o.store == popped_store(s, ns, key, m, left, 1));
}

/// LPOP and RPOP with a count take that many elements from their end of the
/// list, or all of them, and reply them from that end on; what is left is in
/// order.
pub proof fn law_pop_many(
    s: StoreView,
    ns: Seq<u8>,
    key: Seq<u8>,
    count: Seq<u8>,
    now_ms: i64,
    left: bool,
)
    requires
        list_there(s, ns, key, now_ms),
        list_of(s, ns, key, now_ms).len() > 0,
        text::usize_in(count) is Some,
        text::usize_in(count)->0 > 0,
    ensures
        ({
            let c = list_of(s, ns, key, now_ms);
            let wanted = text::usize_in(count)->0 as nat;
            let n = if wanted < c.len() {
                wanted
            } else {
                c.len()
            };
            let o = pop_outcome(s, ns, seq![key, count], now_ms, left);
            &&& o.reply == Ok::<_, ErrorView>(RespView::Array(taken_reply(c, left, n)))
            &&& list_there(o.store, ns, key, now_ms)
            &&& list_of(o.store, ns, key, now_ms) == if left {
                c.skip(n as int)
            } else {
                c.take(c.len() - n)
            }
        }),
{
    let m = list_meta(s, ns, key, now_ms)->Ok_0->0;
    let c = content(s.subkey, ns, key, m);
    let wanted = text::usize_in(count)->0 as nat;
    let n = if wanted < c.len() {
        wanted
    } else {
        c.len()
    };
    cmd::lemma_typed_meta_read(s, ns, key, now_ms, DataType::List, "invalid list metadata"@);
    lemma_popped_values(s.subkey, ns, key, m, left, n);
    lemma_left_over(s, ns, key, now_ms, m, left, n);
    let o = pop_outcome(s, ns, seq![key, count], now_ms, left);
    assert(seq![key, count][0] == key && seq![key, count][1] == count);
    assert(o.store == popped_store(s, ns, key, m, left, n));
}

/// What is left of a list when `n` elements are taken from one of its ends.
pub open spec fn left_over(
    s: StoreView,
    ns: Seq<u8>,
    key: Seq<u8>,
    now_ms: i64,
    m: Metadata,
    c: Seq<Seq<u8>>,
    left: bool,
    n: nat,
) -> bool {
    let m2 = popped_meta(m, left, n);
    &&& list_meta(s, ns, key, now_ms) == Ok::<_, ErrorView>(Some(m2))
    &&& list_ok(s.subkey, ns, key, m2)
    &&& content(s.subkey, ns, key, m2) == if left {
        c.skip(n as int)
    } else {
        c.take(c.len() - n)
    }
}

proof fn lemma_left_over(
    s: StoreView,
    ns: Seq<u8>,
    key: Seq<u8>,
    now_ms: i64,
    m: Metadata,
    left: bool,
    n: nat,
)
    requires
        list_ok(s.subkey, ns, key, m),
        !types::expired(m.expire, now_ms),
        n <= m.size,
    ensures
        left_over(
            popped_store(s, ns, key, m, left, n),
            ns,
            key,
            now_ms,
            m,
            content(s.subkey, ns, key, m),
            left,
            n,
        ),
{
    let c = content(s.subkey, ns, key, m);
    let after = popped_store(s, ns, key, m, left, n);
    let m2 = popped_meta(m, left, n);
    let e = s.subkey;
    let e2 = after.subkey;
    lemma_wrapped(m.head + n, 0);
    lemma_wrapped(m.tail - n, 0);
    cmd::lemma_typed_meta_written(
        after,
        ns,
        key,
        m2,
        now_ms,
        DataType::List,
        "invalid list metadata"@,
    );
    assert forall|sub: Seq<u8>|
        encoding::elements_of(e2, key, m.version, ns).contains(sub) == numbers(m2).contains(
            sub,
        ) by {
        lemma_popped_elements(e, ns, key, m, left, n, sub);
        if numbers(m2).contains(sub) {
            let i = choose|i: i64|
                m2.head <= i <= m2.tail && sub == #[trigger] index_bytes(i as int);
            assert(m.head <= i <= m.tail);
            assert(numbers(m).contains(sub));
            assert forall|j: i64|
                (if left {
                    m.head <= j < m.head + n
                } else {
                    m.tail - n < j <= m.tail
                }) implies sub != #[trigger] index_bytes(j as int) by {
                lemma_element_keys(key, m.version, i, j, ns);
            }
        }
        if numbers(m).contains(sub) {
            let i = choose|i: i64|
                m.head <= i <= m.tail && sub == #[trigger] index_bytes(i as int);
            if !(if left {
                m.head <= i < m.head + n
            } else {
                m.tail - n < i <= m.tail
            }) {
                assert(m2.head <= i <= m2.tail);
            }
        }
    }
    assert(encoding::elements_of(e2, key, m.version, ns) =~= numbers(m2));
    let want = if left {
        c.skip(n as int)
    } else {
        c.take(c.len() - n)
    };
    let got = content(e2, ns, key, m2);
    assert forall|j: int| 0 <= j < got.len() implies got[j] == want[j] by {
        let i = (m2.head + j) as i64;
        lemma_popped_lookup(e, ns, key, m, left, n, i);
        assert(numbers(m).contains(index_bytes(i as int)));
        assert(encoding::elements_of(e, key, m.version, ns).contains(index_bytes(i as int)));
        assert(c[i - m.head] == e[element_key(key, m.version, i as int, ns)]);
    }
    assert(got =~= want);
}

/// The subkeys of a list's elements, in order.
pub open spec fn element_keys(key: Seq<u8>, m: Metadata, ns: Seq<u8>) -> Seq<Seq<u8>> {
    Seq::new(m.size as nat, |i: int| element_key(key, m.version, m.head + i, ns))
}

proof fn lemma_list_keys(e: Entries, ns: Seq<u8>, key: Seq<u8>, m: Metadata)
    requires
        list_ok(e, ns, key, m),
    ensures
        table::keys_with(e, encoding::sub_prefix(key, m.version, ns)) == element_keys(key, m, ns),
        forall|i: int| 0 <= i < m.size ==> e.contains_key(#[trigger] element_keys(key, m, ns)[i]),
{
    let p = encoding::sub_prefix(key, m.version, ns);
    let ks = element_keys(key, m, ns);
    let set = table::with_prefix(e, p);
    assert forall|i: int| 0 <= i < ks.len() implies set.contains(#[trigger] ks[i])
        && e.contains_key(ks[i]) by {
        let x = (m.head + i) as i64;
        assert(numbers(m).contains(index_bytes(x as int)));
        assert(encoding::elements_of(e, key, m.version, ns).contains(index_bytes(x as int)));
        order::lemma_prefix_append(p, index_bytes(x as int));
    }
    assert forall|k: Seq<u8>| #[trigger] set.contains(k) implies ks.contains(k) by {
        order::lemma_prefix_split(k, p);
        let sub = k.skip(p.len() as int);
        assert(k == encoding::subkey_of(key, m.version, sub, ns));
        assert(encoding::elements_of(e, key, m.version, ns).contains(sub));
        let i = choose|i: i64|
            m.head <= i <= m.tail && sub == #[trigger] index_bytes(i as int);
        assert(ks[i - m.head] == k);
    }
    assert forall|i: int, j: int| 0 <= i < j < ks.len() implies order::lt(
        #[trigger] ks[i],
        #[trigger] ks[j],
    ) by {
        let (x, y) = ((m.head + i) as i64, (m.head + j) as i64);
        law_index_bytes(x, y);
        order::lemma_lt_common_prefix(p, index_bytes(x as int), index_bytes(y as int));
    }
    assert(order::lists(ks, set));
    order::lemma_ordered(ks, set);
}

pub(crate) proof fn lemma_filter_suffix(ks: Seq<Seq<u8>>, p: spec_fn(Seq<u8>) -> bool, x: int)
    requires
        0 <= x <= ks.len(),
        forall|i: int| 0 <= i < x ==> !p(#[trigger] ks[i]),
        forall|i: int| x <= i < ks.len() ==> p(#[trigger] ks[i]),
    ensures
        ks.filter(p) == ks.skip(x),
    decreases ks.len(),
{
    reveal(Seq::filter);
    if ks.len() > 0 {
        let head = ks.drop_last();
        if x < ks.len() {
            lemma_filter_suffix(head, p, x);
            assert(ks.skip(x) =~= head.skip(x).push(ks.last()));
        } else {
            lemma_filter_suffix(head, p, x - 1);
            assert(head.skip(x - 1) =~= Seq::<Seq<u8>>::empty());
            assert(ks.skip(x) =~= Seq::<Seq<u8>>::empty());
        }
    } else {
        assert(ks.skip(x) =~= ks);
    }
}

pub(crate) proof fn lemma_first_at(ks: Seq<Seq<u8>>, p: spec_fn(Seq<u8>) -> bool, i: int, at: int)
    requires
        0 <= i <= at <= ks.len(),
        forall|j: int| i <= j < at ==> !p(#[trigger] ks[j]),
        at < ks.len() ==> p(ks[at]),
    ensures
        order::first_from(ks, p, i) == at,
    decreases at - i,
{
    if i < at {
        lemma_first_at(ks, p, i + 1, at);
    }
}

/// LRANGE replies the stretch of the list between two positions, LINDEX the
/// element at a position and LLEN the length. Negative positions count from
/// the end. LRANGE reads the keys of the elements, so that the key must be
/// shorter than 4 GiB and the namespace at most 255 bytes long.
#[verifier::spinoff_prover]
#[verifier::rlimit(60)]
pub proof fn law_list_reads(
    s: StoreView,
    ns: Seq<u8>,
    key: Seq<u8>,
    start: Seq<u8>,
    stop: Seq<u8>,
    now_ms: i64,
)
    requires
        list_there(s, ns, key, now_ms),
        text::i64_in(start) is Some,
        text::i64_in(stop) is Some,
    ensures
        ({
            let c = list_of(s, ns, key, now_ms);
            let (x, y) = list_span(
                c.len() as int,
                text::i64_in(start)->0 as int,
                text::i64_in(stop)->0 as int,
            );
            let at = if text::i64_in(start)->0 < 0 {
                text::i64_in(start)->0 + c.len()
            } else {
                text::i64_in(start)->0 as int
            };
            &&& llen_reply(s, ns, seq![key], now_ms) == Ok::<_, ErrorView>(
                RespView::Integer(c.len() as i64),
            )
            &&& lindex_reply(s, ns, seq![key, start], now_ms) == Ok::<_, ErrorView>(
                cmd::bulk(
                    if 0 <= at < c.len() {
                        Some(c[at])
                    } else {
                        None
                    },
                ),
            )
            &&& key.len() < 0x1_0000_0000 && ns.len() <= 255 ==> lrange_reply(
                s,
                ns,
                seq![key, start, stop],
                now_ms,
            ) == Ok::<_, ErrorView>(
                RespView::Array(
                    if x > y {
                        Seq::empty()
                    } else {
                        Seq::new((y - x + 1) as nat, |j: int| cmd::bulk(Some(c[x + j])))
                    },
                ),
            )
        }),
{
    let m = list_meta(s, ns, key, now_ms)->Ok_0->0;
    let e = s.subkey;
    let c = content(e, ns, key, m);
    let ks = element_keys(key, m, ns);
    lemma_list_keys(e, ns, key, m);
    let (x, y) = list_span(
        c.len() as int,
        text::i64_in(start)->0 as int,
        text::i64_in(stop)->0 as int,
    );
    let at = if text::i64_in(start)->0 < 0 {
        text::i64_in(start)->0 + c.len()
    } else {
        text::i64_in(start)->0 as int
    };
    if 0 <= at < c.len() {
        lemma_wrapped(m.head + at, 0);
        assert(e.contains_key(ks[at]));
    }
    if key.len() < 0x1_0000_0000 && ns.len() <= 255 && m.size > 0 && x <= y {
        lemma_wrapped(m.head + x, 0);
        lemma_wrapped(m.head + y, 0);
        let (first, last) = (m.head + x, m.head + y);
        let out = ends_walk(ns, last);
        let keep = not_before(ns, first);
        assert forall|i: int| 0 <= i < ks.len() implies unreadable(#[trigger] ks[i], ns) is None
            && index_of_key(ks[i], ns) == m.head + i by {
            let n = (m.head + i) as i64;
            law_index_bytes(n, n);
            encoding::law_keys_round_trip(key, m.version, index_bytes(n as int), ns);
            assert(index_bytes(n as int).take(8) =~= index_bytes(n as int));
        }
        assert forall|j: int| 0 <= j < y + 1 implies !out(#[trigger] ks[j]) by {}
        lemma_first_at(ks, out, 0, y + 1);
        let head = ks.take(y + 1);
        assert forall|i: int| 0 <= i < x implies !keep(#[trigger] head[i]) by {
            assert(head[i] == ks[i]);
        }
        assert forall|i: int| x <= i < head.len() implies keep(#[trigger] head[i]) by {
            assert(head[i] == ks[i]);
        }
        lemma_filter_suffix(head, keep, x);
        let hits = head.skip(x);
        assert(at_most(hits, y - x + 1) =~= hits);
        assert(values_at(e, hits) =~= Seq::new(
            (y - x + 1) as nat,
            |j: int| cmd::bulk(Some(c[x + j])),
        ));
    }
}

/// LRANGE replies the elements between two places of a list, both included,
/// negative places counted from its end: an element is replied exactly if its
/// place lies between them, and the elements stand in their order. LINDEX replies
/// the element at a place, or nothing outside of the list.
#[verifier::rlimit(60)]
pub proof fn law_lrange(
    s: StoreView,
    ns: Seq<u8>,
    key: Seq<u8>,
    start: Seq<u8>,
    stop: Seq<u8>,
    now_ms: i64,
) -> (first: int)
    requires
        list_there(s, ns, key, now_ms),
        text::i64_in(start) is Some,
        text::i64_in(stop) is Some,
        key.len() < 0x1_0000_0000,
        ns.len() <= 255,
    ensures
        ({
            let c = list_of(s, ns, key, now_ms);
            let from = text::i64_in(start)->0 + (if text::i64_in(start)->0 < 0 {
                c.len() as int
            } else {
                0
            });
            let to = text::i64_in(stop)->0 + (if text::i64_in(stop)->0 < 0 {
                c.len() as int
            } else {
                0
            });
            let reply = lrange_reply(s, ns, seq![key, start, stop], now_ms);
            let shown = (reply->Ok_0)->Array_0;
            &&& reply == Ok::<_, ErrorView>(RespView::Array(shown))
            &&& forall|i: int|
                0 <= i < c.len() ==> (from <= i <= to <==> first <= i < first + shown.len()
                    && shown[i - first] == RespView::BulkString(Some(#[trigger] c[i])))
            &&& 0 <= first && (shown.len() > 0 ==> first + shown.len() <= c.len())
            &&& lindex_reply(s, ns, seq![key, start], now_ms) == Ok::<_, ErrorView>(
                RespView::BulkString(
                    if 0 <= from < c.len() {
                        Some(c[from])
                    } else {
                        None
                    },
                ),
            )
        }),
{
    law_list_reads(s, ns, key, start, stop, now_ms);
    let c = list_of(s, ns, key, now_ms);
    let (x, y) = list_span(
        c.len() as int,
        text::i64_in(start)->0 as int,
        text::i64_in(stop)->0 as int,
    );
    if x <= y {
        let shown = (lrange_reply(s, ns, seq![key, start, stop], now_ms)->Ok_0)->Array_0;
        assert forall|i: int| x <= i <= y implies shown[i - x] == RespView::BulkString(
            Some(#[trigger] c[i]),
        ) by {}
    }
    x
}

/// A key that is not there is read as an empty list, LPOP and RPOP take nothing
/// from it, and a count of 0 takes nothing from any list.
pub proof fn law_no_list(
    s: StoreView,
    ns: Seq<u8>,
    key: Seq<u8>,
    start: Seq<u8>,
    stop: Seq<u8>,
    count: Seq<u8>,
    now_ms: i64,
    left: bool,
)
    requires
        text::i64_in(start) is Some,
        text::i64_in(stop) is Some,
        text::usize_in(count) is Some,
    ensures
        ({
            let gone = list_meta(s, ns, key, now_ms) == Ok::<Option<Metadata>, ErrorView>(None);
            let none = Ok::<_, ErrorView>(RespView::Array(Seq::empty()));
            let nil = Ok::<_, ErrorView>(RespView::BulkString(None));
            let one = pop_outcome(s, ns, seq![key], now_ms, left);
            let many = pop_outcome(s, ns, seq![key, count], now_ms, left);
            &&& gone ==> {
                &&& lrange_reply(s, ns, seq![key, start, stop], now_ms) == none
                &&& lindex_reply(s, ns, seq![key, start], now_ms) == nil
                &&& llen_reply(s, ns, seq![key], now_ms) == Ok::<_, ErrorView>(RespView::Integer(0))
                &&& one.reply == nil && one.store == s
                &&& many.reply == none && many.store == s
            }
            &&& text::usize_in(count)->0 == 0 ==> many.reply == none && many.store == s
        }),
{
    assert(seq![key][0] == key);
    assert(seq![key, count][0] == key && seq![key, count][1] == count);
    assert(seq![key, start][0] == key && seq![key, start][1] == start);
    let a = seq![key, start, stop];
    assert(a[0] == key && a[1] == start && a[2] == stop);
}

} // verus!
