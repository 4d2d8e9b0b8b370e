//! Hash commands. The fields of a hash are subkeys of its key.

use super::{
    array, count_value, empty_array, expect_arg_count, expect_min_arg_count, push_reply,
    CommandContext, Moment, Outcome,
};
use crate::cmd;
use crate::encoding;
use crate::error;
use crate::error::{ErrorView, KvdbError, KvdbResult};
use crate::protocol;
use crate::protocol::{RespValue, RespView};
use crate::storage;
use crate::storage::{Cf, StoreView, WriteBatch};
use crate::table;
use crate::table::{Entries, Table};
use crate::text;
use crate::types;
use crate::types::{DataType, Metadata};
use vstd::prelude::*;

verus! {

/// Entries read at a time when a whole hash is returned.
pub const HASH_PAGE_SIZE: usize = 1024;

/// The metadata of a hash.
pub open spec fn hash_meta(s: StoreView, ns: Seq<u8>, key: Seq<u8>, now_ms: i64) -> Result<
    Option<Metadata>,
    ErrorView,
> {
    cmd::typed_meta(s, ns, key, now_ms, DataType::Hash, "invalid metadata encoding"@)
}

/// How many of the first `n` fields among the arguments the hash lacks, each
/// counted once.
pub open spec fn missing_fields(
    m: Entries,
    ns: Seq<u8>,
    version: u64,
    a: Seq<Seq<u8>>,
    n: nat,
) -> nat
    decreases n,
{
    if n == 0 {
        0
    } else {
        let field = a[2 * n - 1];
        missing_fields(m, ns, version, a, (n - 1) as nat) + (if fields_set(
            m,
            ns,
            version,
            a,
            (n - 1) as nat,
        ).contains_key(encoding::subkey_of(a[0], version, field, ns)) {
            0nat
        } else {
            1nat
        })
    }
}

/// The entries with the first `n` fields among the arguments set, one after
/// another.
pub open spec fn fields_set(
    m: Entries,
    ns: Seq<u8>,
    version: u64,
    a: Seq<Seq<u8>>,
    n: nat,
) -> Entries
    decreases n,
{
    if n == 0 {
        m
    } else {
        fields_set(m, ns, version, a, (n - 1) as nat).insert(
            encoding::subkey_of(a[0], version, a[2 * n - 1], ns),
            a[2 * n as int],
        )
    }
}

/// HSET key field value [field value ...]: sets the fields and replies how
/// many of them were new.
pub open spec fn hset_outcome(
    s: StoreView,
    ns: Seq<u8>,
    a: Seq<Seq<u8>>,
    at: Moment,
) -> Outcome {
    if a.len() < 3 || a.len() % 2 == 0 {
        cmd::unchanged(Err(cmd::wrong_args("HSET"@)), s)
    } else {
        match hash_meta(s, ns, a[0], at.now_ms) {
            Err(e) => cmd::unchanged(Err(e), s),
            Ok(found) => {
                let m = match found {
                    Some(m) => m,
                    None => types::fresh_metadata(DataType::Hash, at.version),
                };
                let n = ((a.len() - 1) / 2) as nat;
                let added = missing_fields(s.subkey, ns, m.version, a, n);
                Outcome {
                    reply: Ok(RespView::Integer(added as i64)),
                    store: StoreView {
                        subkey: fields_set(s.subkey, ns, m.version, a, n),
                        metadata: s.metadata.insert(
                            encoding::meta_key_of(a[0], ns),
                            encoding::metadata_bytes(
                                (Metadata { size: cmd::grown(m.size, added), ..m }),
                            ),
                        ),
                        ..s
                    },
                }
            },
        }
    }
}

proof fn lemma_missing_bound(m: Entries, ns: Seq<u8>, version: u64, a: Seq<Seq<u8>>, n: nat)
    ensures
        missing_fields(m, ns, version, a, n) <= n,
    decreases n,
{
    if n > 0 {
        lemma_missing_bound(m, ns, version, a, (n - 1) as nat);
    }
}

fn read_hash_meta(ctx: &CommandContext, user_key: &[u8], now_ms: i64) -> (r: KvdbResult<
    Option<Metadata>,
>)
    ensures
        cmd::meta_view(r) == hash_meta(ctx.storage@, ctx.namespace@, user_key@, now_ms),
{
    ctx.load_typed(user_key, now_ms, DataType::Hash, "invalid metadata encoding")
}

pub fn hset(ctx: &mut CommandContext, args: &[Vec<u8>], at: Moment) -> (r: KvdbResult<RespValue>)
    ensures
        cmd::outcome(r, final(ctx).storage@) == hset_outcome(
            old(ctx).storage@,
            old(ctx).namespace@,
            encoding::byte_seqs(args@),
            at,
        ),
        final(ctx).kept(*old(ctx)),
{
    proof {
        ctx.storage.lemma_follows_self();
    }
    match expect_min_arg_count("HSET", args, 3) {
        Ok(_) => {},
        Err(e) => return Err(e),
    }
    if args.len() % 2 == 0 {
        return Err(KvdbError::WrongArgCount("HSET"));
    }
    let mut meta = match read_hash_meta(ctx, &args[0], at.now_ms) {
        Ok(Some(m)) => m,
        Ok(None) => Metadata::new(DataType::Hash, at.version),
        Err(e) => return Err(e),
    };
    let ghost a = encoding::byte_seqs(args@);
    let ghost s = ctx.storage@;
    let ghost ns = ctx.namespace@;
    let ghost first = meta;
    let none: Vec<u8> = Vec::new();
    let mut batch = WriteBatch::new();
    let mut seen = Table::new();
    let mut added: u64 = 0;
    let mut i: usize = 1;
    while i < args.len()
        invariant
            1 <= i <= args@.len(),
            i % 2 == 1,
            args@.len() % 2 == 1,
            a == encoding::byte_seqs(args@),
            *ctx == *old(ctx),
            s == ctx.storage@,
            ns == ctx.namespace@,
            meta == (Metadata { size: cmd::grown(first.size, added as nat), ..first }),
            added == missing_fields(s.subkey, ns, first.version, a, ((i - 1) / 2) as nat),
            added <= i,
            storage::applied(s, batch@) == (StoreView {
                subkey: fields_set(s.subkey, ns, first.version, a, ((i - 1) / 2) as nat),
                ..s
            }),
            forall|k: Seq<u8>| #[trigger]
                fields_set(s.subkey, ns, first.version, a, ((i - 1) / 2) as nat).contains_key(k)
                    == (s.subkey.contains_key(k) || seen@.contains_key(k)),
        decreases args.len() - i,
    {
        let sk = ctx.sub_key(&args[0], meta.version, &args[i]);
        let existed = seen.contains(&sk) || ctx.storage.contains_in(Cf::Subkey, &sk);
        seen.put(&sk, &none);
        batch.put(Cf::Subkey, &sk, &args[i + 1]);
        proof {
            let n = ((i - 1) / 2 + 1) as nat;
            assert(a[2 * n - 1] == args@[i as int]@);
            assert(a[2 * n as int] == args@[i + 1]@);
            assert(a[0] == args@[0]@);
            assert(((i + 2 - 1) / 2) as nat == n);
        }
        if !existed {
            meta.size = meta.size.wrapping_add(1);
            added = added + 1;
        }
        i = i + 2;
    }
    let mk = ctx.meta_key(&args[0]);
    let mv = encoding::encode_metadata(&meta);
    batch.put(Cf::Metadata, &mk, &mv);
    proof {
        lemma_missing_bound(s.subkey, ns, first.version, a, ((a.len() - 1) / 2) as nat);
        assert(args.len() == args@.len());
    }
    ctx.storage.write(batch);
    Ok(RespValue::Integer(added as i64))
}

/// HGET key field.
pub open spec fn hget_reply(s: StoreView, ns: Seq<u8>, a: Seq<Seq<u8>>, now_ms: i64) -> Result<
    RespView,
    ErrorView,
> {
    if a.len() != 2 {
        Err(cmd::wrong_args("HGET"@))
    } else {
        match hash_meta(s, ns, a[0], now_ms) {
            Err(e) => Err(e),
            Ok(None) => Ok(cmd::bulk(None)),
            Ok(Some(m)) => Ok(
                cmd::bulk(
                    table::lookup(s.subkey, encoding::subkey_of(a[0], m.version, a[1], ns)),
                ),
            ),
        }
    }
}

pub fn hget(ctx: &CommandContext, args: &[Vec<u8>], now_ms: i64) -> (r: KvdbResult<RespValue>)
    ensures
        cmd::reply_view(r) == hget_reply(
            ctx.storage@,
            ctx.namespace@,
            encoding::byte_seqs(args@),
            now_ms,
        ),
{
    match expect_arg_count("HGET", args, 2) {
        Ok(_) => {},
        Err(e) => return Err(e),
    }
    match read_hash_meta(ctx, &args[0], now_ms) {
        Ok(Some(m)) => {
            let sk = ctx.sub_key(&args[0], m.version, &args[1]);
            Ok(RespValue::BulkString(ctx.storage.get_in(Cf::Subkey, &sk)))
        },
        Ok(None) => Ok(RespValue::BulkString(None)),
        Err(e) => Err(e),
    }
}

/// HMGET key field [field ...]: the values in the order of the fields.
pub open spec fn hmget_reply(s: StoreView, ns: Seq<u8>, a: Seq<Seq<u8>>, now_ms: i64) -> Result<
    RespView,
    ErrorView,
> {
    if a.len() < 2 {
        Err(cmd::wrong_args("HMGET"@))
    } else {
        match hash_meta(s, ns, a[0], now_ms) {
            Err(e) => Err(e),
            Ok(None) => Ok(
                RespView::Array(Seq::new((a.len() - 1) as nat, |i: int| cmd::bulk(None))),
            ),
            Ok(Some(m)) => Ok(
                RespView::Array(
                    Seq::new(
                        (a.len() - 1) as nat,
                        |i: int|
                            cmd::bulk(
                                table::lookup(
                                    s.subkey,
                                    encoding::subkey_of(a[0], m.version, a[i + 1], ns),
                                ),
                            ),
                    ),
                ),
            ),
        }
    }
}

pub fn hmget(ctx: &CommandContext, args: &[Vec<u8>], now_ms: i64) -> (r: KvdbResult<RespValue>)
    ensures
        cmd::reply_view(r) == hmget_reply(
            ctx.storage@,
            ctx.namespace@,
            encoding::byte_seqs(args@),
            now_ms,
        ),
{
    match expect_min_arg_count("HMGET", args, 2) {
        Ok(_) => {},
        Err(e) => return Err(e),
    }
    let meta = match read_hash_meta(ctx, &args[0], now_ms) {
        Ok(m) => m,
        Err(e) => return Err(e),
    };
    let ghost want = hmget_reply(ctx.storage@, ctx.namespace@, encoding::byte_seqs(args@), now_ms);
    let mut result: Vec<RespValue> = Vec::new();
    let mut i: usize = 1;
    while i < args.len()
        invariant
            1 <= i <= args@.len(),
            want == hmget_reply(ctx.storage@, ctx.namespace@, encoding::byte_seqs(args@), now_ms),
            args@.len() >= 2,
            hash_meta(ctx.storage@, ctx.namespace@, args@[0]@, now_ms) == Ok::<_, ErrorView>(meta),
            want is Ok,
            want->Ok_0 is Array,
            want->Ok_0->Array_0.len() == args@.len() - 1,
            protocol::views(result@) =~= want->Ok_0->Array_0.take(i - 1),
        decreases args.len() - i,
    {
        let v = match meta {
            Some(m) => {
                let sk = ctx.sub_key(&args[0], m.version, &args[i]);
                ctx.storage.get_in(Cf::Subkey, &sk)
            },
            None => None,
        };
        push_reply(&mut result, RespValue::BulkString(v));
        proof {
            assert(want->Ok_0->Array_0[i - 1] == cmd::bulk(table::opt_bytes(v)));
            assert(want->Ok_0->Array_0.take(i as int) =~= want->Ok_0->Array_0.take(i - 1).push(
                cmd::bulk(table::opt_bytes(v)),
            ));
        }
        i = i + 1;
    }
    proof {
        assert(want->Ok_0->Array_0.take(args@.len() - 1) =~= want->Ok_0->Array_0);
    }
    Ok(array(result))
}

/// Every key can be taken apart.
pub open spec fn all_parse(ks: Seq<Seq<u8>>, ns: Seq<u8>) -> bool {
    forall|i: int| 0 <= i < ks.len() ==> encoding::subkey_parts(#[trigger] ks[i], ns) is Some
}

/// Field, value, field, value and so on, of the given subkeys.
pub open spec fn field_values(m: Entries, ks: Seq<Seq<u8>>, ns: Seq<u8>) -> Seq<RespView> {
    Seq::new(
        2 * ks.len(),
        |i: int|
            if i % 2 == 0 {
                cmd::bulk(Some(encoding::element_in(ks[i / 2], ns)))
            } else {
                cmd::bulk(Some(m[ks[i / 2]]))
            },
    )
}

/// The error for a subkey that cannot be taken apart.
pub open spec fn bad_subkey() -> ErrorView {
    ErrorView::Protocol("invalid subkey encoding"@)
}

proof fn lemma_field_values_push(m: Entries, ks: Seq<Seq<u8>>, k: Seq<u8>, ns: Seq<u8>)
    ensures
        field_values(m, ks.push(k), ns) == field_values(m, ks, ns).push(
            cmd::bulk(Some(encoding::element_in(k, ns))),
        ).push(cmd::bulk(Some(m[k]))),
{
    assert(field_values(m, ks.push(k), ns) =~= field_values(m, ks, ns).push(
        cmd::bulk(Some(encoding::element_in(k, ns))),
    ).push(cmd::bulk(Some(m[k]))));
}

proof fn lemma_field_values_concat(m: Entries, a: Seq<Seq<u8>>, b: Seq<Seq<u8>>, ns: Seq<u8>)
    ensures
        field_values(m, a + b, ns) == field_values(m, a, ns) + field_values(m, b, ns),
{
    assert(field_values(m, a + b, ns) =~= field_values(m, a, ns) + field_values(m, b, ns));
}

fn push_fields(
    ctx: &CommandContext,
    items: &Vec<(Vec<u8>, Vec<u8>)>,
    result: &mut Vec<RespValue>,
    Ghost(m): Ghost<Entries>,
    Ghost(ks): Ghost<Seq<Seq<u8>>>,
) -> (r: KvdbResult<()>)
    requires
        table::pairs_of(items@) == table::entries_at(m, ks),
    ensures
        match r {
            Ok(_) => all_parse(ks, ctx.namespace@) && protocol::views(final(result)@)
                == protocol::views(old(result)@) + field_values(m, ks, ctx.namespace@),
            Err(e) => !all_parse(ks, ctx.namespace@) && e@ == bad_subkey(),
        },
{
    let mut i: usize = 0;
    let ghost ns = ctx.namespace@;
    let ghost first = protocol::views(result@);
    proof {
        assert(table::pairs_of(items@).len() == items@.len());
        assert(table::entries_at(m, ks).len() == ks.len());
        assert(first + field_values(m, ks.take(0), ns) =~= first);
    }
    while i < items.len()
        invariant
            i <= items@.len(),
            items@.len() == ks.len(),
            ns == ctx.namespace@,
            table::pairs_of(items@) == table::entries_at(m, ks),
            all_parse(ks.take(i as int), ns),
            protocol::views(result@) == first + field_values(m, ks.take(i as int), ns),
        decreases items.len() - i,
    {
        proof {
            assert(table::pairs_of(items@)[i as int] == table::entries_at(m, ks)[i as int]);
            assert(items@[i as int].0@ == ks[i as int]);
            assert(items@[i as int].1@ == m[ks[i as int]]);
        }
        match ctx.parse_subkey(&items[i].0) {
            Some((_key, _version, field)) => {
                push_reply(result, RespValue::BulkString(Some(encoding::copy(field))));
                push_reply(result, RespValue::BulkString(Some(encoding::copy(&items[i].1))));
                proof {
                    assert(ks.take(i + 1) =~= ks.take(i as int).push(ks[i as int]));
                    lemma_field_values_push(m, ks.take(i as int), ks[i as int], ns);
                    assert(protocol::views(result@) =~= first + field_values(
                        m,
                        ks.take(i + 1),
                        ns,
                    ));
                }
            },
            None => {
                proof {
                    assert(encoding::subkey_parts(ks[i as int], ns) is None);
                }
                return Err(error::protocol_error("invalid subkey encoding"));
            },
        }
        i = i + 1;
    }
    proof {
        assert(ks.take(i as int) =~= ks);
    }
    Ok(())
}

/// HGETALL key: all fields with their values, in the order of the fields.
pub open spec fn hgetall_reply(
    s: StoreView,
    ns: Seq<u8>,
    a: Seq<Seq<u8>>,
    now_ms: i64,
) -> Result<RespView, ErrorView> {
    if a.len() != 1 {
        Err(cmd::wrong_args("HGETALL"@))
    } else {
        match hash_meta(s, ns, a[0], now_ms) {
            Err(e) => Err(e),
            Ok(None) => Ok(cmd::no_items()),
            Ok(Some(m)) => {
                let ks = table::keys_with(
                    s.subkey,
                    encoding::sub_prefix(a[0], m.version, ns),
                );
                if all_parse(ks, ns) {
                    Ok(RespView::Array(field_values(s.subkey, ks, ns)))
                } else {
                    Err(bad_subkey())
                }
            },
        }
    }
}

pub fn hgetall(ctx: &CommandContext, args: &[Vec<u8>], now_ms: i64) -> (r: KvdbResult<RespValue>)
    ensures
        cmd::reply_view(r) == hgetall_reply(
            ctx.storage@,
            ctx.namespace@,
            encoding::byte_seqs(args@),
            now_ms,
        ),
{
    match expect_arg_count("HGETALL", args, 1) {
        Ok(_) => {},
        Err(e) => return Err(e),
    }
    let meta = match read_hash_meta(ctx, &args[0], now_ms) {
        Ok(Some(m)) => m,
        Ok(None) => return Ok(empty_array()),
        Err(e) => return Err(e),
    };
    let prefix = ctx.sub_prefix(&args[0], meta.version);
    let mut result: Vec<RespValue> = Vec::new();
    let mut start_key: Vec<u8> = Vec::new();
    let ghost m = ctx.storage@.subkey;
    let ghost ns = ctx.namespace@;
    let ghost all = table::keys_with(m, prefix@);
    let ghost mut pos: int = 0;
    proof {
        assert(start_key@ =~= table::forward_mark(m, prefix@, 0));
        assert(protocol::views(result@) =~= field_values(m, all.take(0), ns));
    }
    loop
        invariant_except_break
            start_key@ == table::forward_mark(m, prefix@, pos),
            0 <= pos <= all.len(),
            all_parse(all.take(pos), ns),
            protocol::views(result@) == field_values(m, all.take(pos), ns),
        invariant
            prefix@.len() > 0,
            m == ctx.storage@.subkey,
            ns == ctx.namespace@,
            all == table::keys_with(m, prefix@),
            hgetall_reply(ctx.storage@, ctx.namespace@, encoding::byte_seqs(args@), now_ms) == (
            if all_parse(all, ns) {
                Ok::<RespView, ErrorView>(RespView::Array(field_values(m, all, ns)))
            } else {
                Err(bad_subkey())
            }),
        ensures
            all_parse(all, ns),
            protocol::views(result@) == field_values(m, all, ns),
        decreases all.len() - pos,
    {
        let (items, next) = ctx.storage.walk(
            Cf::Subkey,
            &prefix,
            &start_key,
            HASH_PAGE_SIZE,
            Ghost(pos),
        );
        if items.len() == 0 {
            proof {
                assert(all.take(pos) =~= all);
            }
            break;
        }
        let ghost n = items@.len() as int;
        let ghost page = all.subrange(pos, pos + n);
        match push_fields(ctx, &items, &mut result, Ghost(m), Ghost(page)) {
            Ok(_) => {},
            Err(e) => {
                proof {
                    let i = choose|i: int|
                        0 <= i < page.len() && encoding::subkey_parts(
                            #[trigger] page[i],
                            ns,
                        ) is None;
                    assert(encoding::subkey_parts(all[pos + i], ns) is None);
                }
                return Err(e);
            },
        }
        proof {
            assert(all.take(pos + n) =~= all.take(pos) + page);
            lemma_field_values_concat(m, all.take(pos), page, ns);
            assert forall|i: int| 0 <= i < all.take(pos + n).len() implies encoding::subkey_parts(
                #[trigger] all.take(pos + n)[i],
                ns,
            ) is Some by {
                if i < pos {
                    assert(encoding::subkey_parts(all.take(pos)[i], ns) is Some);
                } else {
                    assert(encoding::subkey_parts(page[i - pos], ns) is Some);
                }
            }
            pos = pos + n;
        }
        match next {
            Some(k) => {
                start_key = k;
            },
            None => {
                proof {
                    assert(all.take(pos) =~= all);
                }
                break;
            },
        }
    }
    Ok(array(result))
}

/// How many of the first `n` fields among the arguments, taken one by one,
/// the hash has.
pub open spec fn present_fields(
    m: Entries,
    ns: Seq<u8>,
    version: u64,
    a: Seq<Seq<u8>>,
    n: nat,
) -> nat
    decreases n,
{
    if n == 0 {
        0
    } else {
        present_fields(m, ns, version, a, (n - 1) as nat) + (if fields_removed(
            m,
            ns,
            version,
            a,
            (n - 1) as nat,
        ).contains_key(encoding::subkey_of(a[0], version, a[n as int], ns)) {
            1nat
        } else {
            0nat
        })
    }
}

/// The entries without the first `n` fields among the arguments.
pub open spec fn fields_removed(
    m: Entries,
    ns: Seq<u8>,
    version: u64,
    a: Seq<Seq<u8>>,
    n: nat,
) -> Entries
    decreases n,
{
    if n == 0 {
        m
    } else {
        fields_removed(m, ns, version, a, (n - 1) as nat).remove(
            encoding::subkey_of(a[0], version, a[n as int], ns),
        )
    }
}

/// HDEL key field [field ...]: removes the fields and replies how many of
/// them were there.
pub open spec fn hdel_outcome(
    s: StoreView,
    ns: Seq<u8>,
    a: Seq<Seq<u8>>,
    now_ms: i64,
) -> Outcome {
    if a.len() < 2 {
        cmd::unchanged(Err(cmd::wrong_args("HDEL"@)), s)
    } else {
        match hash_meta(s, ns, a[0], now_ms) {
            Err(e) => cmd::unchanged(Err(e), s),
            Ok(None) => cmd::unchanged(Ok(RespView::Integer(0)), s),
            Ok(Some(m)) => {
                let n = (a.len() - 1) as nat;
                let deleted = present_fields(s.subkey, ns, m.version, a, n);
                Outcome {
                    reply: Ok(RespView::Integer(deleted as i64)),
                    store: StoreView {
                        subkey: fields_removed(s.subkey, ns, m.version, a, n),
                        metadata: if deleted > 0 {
                            s.metadata.insert(
                                encoding::meta_key_of(a[0], ns),
                                encoding::metadata_bytes(
                                    (Metadata { size: cmd::shrunk(m.size, deleted), ..m }),
                                ),
                            )
                        } else {
                            s.metadata
                        },
                        ..s
                    },
                }
            },
        }
    }
}

pub fn hdel(ctx: &mut CommandContext, args: &[Vec<u8>], now_ms: i64) -> (r: KvdbResult<RespValue>)
    ensures
        cmd::outcome(r, final(ctx).storage@) == hdel_outcome(
            old(ctx).storage@,
            old(ctx).namespace@,
            encoding::byte_seqs(args@),
            now_ms,
        ),
        final(ctx).kept(*old(ctx)),
{
    proof {
        ctx.storage.lemma_follows_self();
    }
    match expect_min_arg_count("HDEL", args, 2) {
        Ok(_) => {},
        Err(e) => return Err(e),
    }
    let mut meta = match read_hash_meta(ctx, &args[0], now_ms) {
        Ok(Some(m)) => m,
        Ok(None) => return Ok(RespValue::Integer(0)),
        Err(e) => return Err(e),
    };
    let ghost a = encoding::byte_seqs(args@);
    let ghost s = ctx.storage@;
    let ghost ns = ctx.namespace@;
    let ghost first = meta;
    let none: Vec<u8> = Vec::new();
    let mut batch = WriteBatch::new();
    let mut seen = Table::new();
    let mut deleted: u64 = 0;
    let mut i: usize = 1;
    while i < args.len()
        invariant
            1 <= i <= args@.len(),
            a == encoding::byte_seqs(args@),
            *ctx == *old(ctx),
            s == ctx.storage@,
            ns == ctx.namespace@,
            meta == (Metadata { size: cmd::shrunk(first.size, deleted as nat), ..first }),
            deleted == present_fields(s.subkey, ns, first.version, a, (i - 1) as nat),
            deleted <= i,
            storage::applied(s, batch@) == (StoreView {
                subkey: fields_removed(s.subkey, ns, first.version, a, (i - 1) as nat),
                ..s
            }),
            forall|k: Seq<u8>| #[trigger]
                fields_removed(s.subkey, ns, first.version, a, (i - 1) as nat).contains_key(k) == (
                s.subkey.contains_key(k) && !seen@.contains_key(k)),
        decreases args.len() - i,
    {
        let sk = ctx.sub_key(&args[0], meta.version, &args[i]);
        let ghost before = fields_removed(s.subkey, ns, first.version, a, (i - 1) as nat);
        let gone = seen.contains(&sk);
        seen.put(&sk, &none);
        if !gone && ctx.storage.contains_in(Cf::Subkey, &sk) {
            batch.delete(Cf::Subkey, &sk);
            meta.size = meta.size.saturating_sub(1);
            deleted = deleted + 1;
        } else {
            proof {
                assert(!before.contains_key(sk@));
                assert(before.remove(sk@) =~= before);
            }
        }
        proof {
            assert(a[i as int] == args@[i as int]@);
            assert(a[0] == args@[0]@);
        }
        i = i + 1;
    }
    if deleted > 0 {
        let mk = ctx.meta_key(&args[0]);
        let mv = encoding::encode_metadata(&meta);
        batch.put(Cf::Metadata, &mk, &mv);
    }
    proof {
        assert(args.len() == args@.len());
    }
    ctx.storage.write(batch);
    Ok(RespValue::Integer(deleted as i64))
}

/// HEXISTS key field.
pub open spec fn hexists_reply(
    s: StoreView,
    ns: Seq<u8>,
    a: Seq<Seq<u8>>,
    now_ms: i64,
) -> Result<RespView, ErrorView> {
    if a.len() != 2 {
        Err(cmd::wrong_args("HEXISTS"@))
    } else {
        match hash_meta(s, ns, a[0], now_ms) {
            Err(e) => Err(e),
            Ok(None) => Ok(RespView::Integer(0)),
            Ok(Some(m)) => Ok(
                RespView::Integer(
                    if s.subkey.contains_key(encoding::subkey_of(a[0], m.version, a[1], ns)) {
                        1
                    } else {
                        0
                    },
                ),
            ),
        }
    }
}

pub fn hexists(ctx: &CommandContext, args: &[Vec<u8>], now_ms: i64) -> (r: KvdbResult<RespValue>)
    ensures
        cmd::reply_view(r) == hexists_reply(
            ctx.storage@,
            ctx.namespace@,
            encoding::byte_seqs(args@),
            now_ms,
        ),
{
    match expect_arg_count("HEXISTS", args, 2) {
        Ok(_) => {},
        Err(e) => return Err(e),
    }
    match read_hash_meta(ctx, &args[0], now_ms) {
        Ok(Some(m)) => {
            let sk = ctx.sub_key(&args[0], m.version, &args[1]);
            if ctx.storage.contains_in(Cf::Subkey, &sk) {
                Ok(RespValue::Integer(1))
            } else {
                Ok(RespValue::Integer(0))
            }
        },
        Ok(None) => Ok(RespValue::Integer(0)),
        Err(e) => Err(e),
    }
}

/// HLEN key: the size in the metadata.
pub open spec fn hlen_reply(s: StoreView, ns: Seq<u8>, a: Seq<Seq<u8>>, now_ms: i64) -> Result<
    RespView,
    ErrorView,
> {
    if a.len() != 1 {
        Err(cmd::wrong_args("HLEN"@))
    } else {
        match hash_meta(s, ns, a[0], now_ms) {
            Err(e) => Err(e),
            Ok(None) => Ok(RespView::Integer(0)),
            Ok(Some(m)) => Ok(cmd::count_reply(m.size)),
        }
    }
}

pub fn hlen(ctx: &CommandContext, args: &[Vec<u8>], now_ms: i64) -> (r: KvdbResult<RespValue>)
    ensures
        cmd::reply_view(r) == hlen_reply(
            ctx.storage@,
            ctx.namespace@,
            encoding::byte_seqs(args@),
            now_ms,
        ),
{
    match expect_arg_count("HLEN", args, 1) {
        Ok(_) => {},
        Err(e) => return Err(e),
    }
    match read_hash_meta(ctx, &args[0], now_ms) {
        Ok(Some(m)) => Ok(count_value(m.size)),
        Ok(None) => Ok(RespValue::Integer(0)),
        Err(e) => Err(e),
    }
}

/// A scan position as text: hexadecimal, or `0` for the start.
pub open spec fn cursor_text(k: Seq<u8>) -> Seq<u8> {
    if k.len() == 0 {
        seq![48u8]
    } else {
        text::hex(k)
    }
}

/// The byte that two characters of a cursor write: two hexadecimal digits, or
/// a plus sign and one.
pub open spec fn cursor_byte(x: u8, y: u8) -> Option<u8> {
    match (text::hex_value(x), text::hex_value(y)) {
        (Some(h), Some(l)) => Some((16 * h + l) as u8),
        (None, Some(l)) => if x == 43 {
            Some(l)
        } else {
            None
        },
        _ => None,
    }
}

/// The scan position that a text names.
pub open spec fn cursor_in(t: Seq<u8>) -> Option<Seq<u8>> {
    if t.len() == 0 || t == seq![48u8] {
        Some(Seq::empty())
    } else if t.len() % 2 != 0 || exists|i: int|
        0 <= i < t.len() / 2 && #[trigger] cursor_byte(t[2 * i], t[2 * i + 1]) is None {
        None
    } else {
        Some(Seq::new(t.len() / 2, |i: int| cursor_byte(t[2 * i], t[2 * i + 1])->0))
    }
}

/// A scan position survives the trip through its text.
pub proof fn law_cursor_round_trip(k: Seq<u8>)
    ensures
        cursor_in(cursor_text(k)) == Some(k),
{
    let t = cursor_text(k);
    if k.len() == 0 {
        assert(k =~= Seq::<u8>::empty());
    } else {
        assert(t.len() == 2 * k.len());
        assert forall|i: int| 0 <= i < k.len() implies #[trigger] cursor_byte(
            t[2 * i],
            t[2 * i + 1],
        ) == Some(k[i]) by {
            let b = k[i] as int;
            assert(t[2 * i] == text::hex_digit(b / 16));
            assert(t[2 * i + 1] == text::hex_digit(b % 16));
        }
        assert(cursor_in(t)->0 =~= k);
    }
}

/// Writes a scan position as text.
pub fn encode_cursor(key: &[u8]) -> (t: Vec<u8>)
    ensures
        t@ == cursor_text(key@),
{
    if key.len() == 0 {
        let mut t: Vec<u8> = Vec::new();
        t.push(48);
        proof {
            assert(t@ =~= seq![48u8]);
        }
        t
    } else {
        text::to_hex(key)
    }
}

/// Reads a scan position.
pub fn decode_cursor(t: &[u8]) -> (r: Option<Vec<u8>>)
    ensures
        table::opt_bytes(r) == cursor_in(t@),
{
    let mut key: Vec<u8> = Vec::new();
    if t.len() == 0 || (t.len() == 1 && t[0] == 48) {
        proof {
            if t@.len() == 1 {
                assert(t@ =~= seq![48u8]);
            }
            assert(key@ =~= Seq::<u8>::empty());
        }
        return Some(key);
    }
    proof {
        assert(seq![48u8].len() == 1 && seq![48u8][0] == 48);
    }
    if t.len() % 2 != 0 {
        return None;
    }
    let mut i: usize = 0;
    while i < t.len()
        invariant
            i <= t@.len(),
            i % 2 == 0,
            t@.len() % 2 == 0,
            t@.len() > 0,
            t@ != seq![48u8],
            key@.len() == i / 2,
            forall|j: int|
                0 <= j < i / 2 ==> #[trigger] cursor_byte(t@[2 * j], t@[2 * j + 1]) == Some(
                    key@[j],
                ),
        decreases t.len() - i,
    {
        let low = text::from_hex_digit(t[i + 1]);
        let high = text::from_hex_digit(t[i]);
        let ghost j = (i / 2) as int;
        proof {
            assert(2 * j == i);
        }
        match (high, low) {
            (Some(h), Some(l)) => {
                proof {
                    assert(h < 16 && l < 16);
                }
                key.push(16 * h + l);
            },
            (None, Some(l)) => {
                if t[i] != 43 {
                    proof {
                        assert(cursor_byte(t@[2 * j], t@[2 * j + 1]) is None);
                    }
                    return None;
                }
                key.push(l);
            },
            _ => {
                proof {
                    assert(cursor_byte(t@[2 * j], t@[2 * j + 1]) is None);
                }
                return None;
            },
        }
        i = i + 2;
    }
    proof {
        assert(key@ =~= cursor_in(t@)->0);
    }
    Some(key)
}

/// How many entries HSCAN reads: what COUNT says, but at least one, so that a
/// scan goes on; 10 without it.
pub open spec fn scan_count(a: Seq<Seq<u8>>) -> Result<usize, ErrorView> {
    if a.len() >= 4 && text::is_word(a[2], "COUNT"@) {
        match text::usize_in(a[3]) {
            Some(n) => Ok(
                if n == 0 {
                    1
                } else {
                    n
                },
            ),
            None => Err(ErrorView::NotInteger),
        }
    } else if a.len() > 2 {
        Err(ErrorView::Command("syntax error"@))
    } else {
        Ok(10)
    }
}

/// HSCAN key cursor [COUNT count]: one page of fields and values behind the
/// cursor, and the cursor of the next page, `0` at the end.
pub open spec fn hscan_reply(s: StoreView, ns: Seq<u8>, a: Seq<Seq<u8>>, now_ms: i64) -> Result<
    RespView,
    ErrorView,
> {
    if a.len() < 2 {
        Err(cmd::wrong_args("HSCAN"@))
    } else if !vstd::utf8::valid_utf8(a[1]) {
        Err(ErrorView::Command("invalid cursor"@))
    } else {
        match scan_count(a) {
            Err(e) => Err(e),
            Ok(count) => match cursor_in(a[1]) {
                None => Err(ErrorView::Command("invalid cursor"@)),
                Some(start) => match hash_meta(s, ns, a[0], now_ms) {
                    Err(e) => Err(e),
                    Ok(None) => Ok(
                        RespView::Array(
                            seq![cmd::bulk(Some(cursor_text(Seq::empty()))), cmd::no_items()],
                        ),
                    ),
                    Ok(Some(m)) => {
                        let prefix = encoding::sub_prefix(a[0], m.version, ns);
                        let run = crate::order::ordered(
                            table::run_after(s.subkey, prefix, start),
                        );
                        let page = table::first_page(s.subkey, run, count as nat);
                        let ks = run.take(table::page_len(run.len(), count as nat) as int);
                        if all_parse(ks, ns) {
                            Ok(
                                RespView::Array(
                                    seq![
                                        cmd::bulk(
                                            Some(
                                                cursor_text(
                                                    match page.next {
                                                        Some(k) => k,
                                                        None => Seq::empty(),
                                                    },
                                                ),
                                            ),
                                        ),
                                        RespView::Array(field_values(s.subkey, ks, ns)),
                                    ],
                                ),
                            )
                        } else {
                            Err(bad_subkey())
                        }
                    },
                },
            },
        }
    }
}

pub fn hscan(ctx: &CommandContext, args: &[Vec<u8>], now_ms: i64) -> (r: KvdbResult<RespValue>)
    ensures
        cmd::reply_view(r) == hscan_reply(
            ctx.storage@,
            ctx.namespace@,
            encoding::byte_seqs(args@),
            now_ms,
        ),
{
    match expect_min_arg_count("HSCAN", args, 2) {
        Ok(_) => {},
        Err(e) => return Err(e),
    }
    if !text::is_utf8(&args[1]) {
        return Err(error::command_error("invalid cursor"));
    }
    let mut count: usize = 10;
    if args.len() >= 4 && text::matches_word(&args[2], "COUNT") {
        match text::parse_usize(&args[3]) {
            Some(n) => {
                count = if n == 0 {
                    1
                } else {
                    n
                };
            },
            None => return Err(KvdbError::NotInteger),
        }
    } else if args.len() > 2 {
        return Err(error::command_error("syntax error"));
    }
    let start_key = match decode_cursor(&args[1]) {
        Some(k) => k,
        None => return Err(error::command_error("invalid cursor")),
    };
    let meta = match read_hash_meta(ctx, &args[0], now_ms) {
        Ok(m) => m,
        Err(e) => return Err(e),
    };
    let mut reply: Vec<RespValue> = Vec::new();
    let ghost none = protocol::views(reply@);
    match meta {
        None => {
            let nothing: Vec<u8> = Vec::new();
            proof {
                assert(nothing@ =~= Seq::<u8>::empty());
            }
            push_reply(&mut reply, RespValue::BulkString(Some(encode_cursor(&nothing))));
            push_reply(&mut reply, empty_array());
            proof {
                assert(protocol::views(reply@) =~= seq![
                    cmd::bulk(Some(cursor_text(Seq::empty()))),
                    cmd::no_items(),
                ]);
            }
            Ok(array(reply))
        },
        Some(m) => {
            let prefix = ctx.sub_prefix(&args[0], m.version);
            let (items, next) = ctx.storage.page_in(Cf::Subkey, &prefix, &start_key, count);
            let ghost run = crate::order::ordered(
                table::run_after(ctx.storage@.subkey, prefix@, start_key@),
            );
            let ghost ks = run.take(table::page_len(run.len(), count as nat) as int);
            let ghost page = table::first_page(ctx.storage@.subkey, run, count as nat);
            proof {
                assert(table::page_view((items, next)) == page);
                assert(table::opt_bytes(next) == page.next);
            }
            let mut entries: Vec<RespValue> = Vec::new();
            proof {
                assert(protocol::views(entries@) + field_values(
                    ctx.storage@.subkey,
                    ks,
                    ctx.namespace@,
                ) =~= field_values(ctx.storage@.subkey, ks, ctx.namespace@));
            }
            match push_fields(ctx, &items, &mut entries, Ghost(ctx.storage@.subkey), Ghost(ks)) {
                Ok(_) => {},
                Err(e) => return Err(e),
            }
            let next_key = match next {
                Some(k) => k,
                None => {
                    let nothing: Vec<u8> = Vec::new();
                    proof {
                        assert(nothing@ =~= Seq::<u8>::empty());
                    }
                    nothing
                },
            };
            let cursor = encode_cursor(&next_key);
            proof {
                assert(next_key@ == (match page.next {
                    Some(k) => k,
                    None => Seq::empty(),
                }));
                assert(cmd::hash::hash_meta(
                    ctx.storage@,
                    ctx.namespace@,
                    args@[0]@,
                    now_ms,
                ) == Ok::<_, ErrorView>(Some(m)));
                assert(scan_count(encoding::byte_seqs(args@)) == Ok::<usize, ErrorView>(count));
                assert(encoding::byte_seqs(args@)[0] == args@[0]@);
            }
            push_reply(&mut reply, RespValue::BulkString(Some(cursor)));
            push_reply(&mut reply, array(entries));
            proof {
                assert(protocol::views(reply@) =~= seq![
                    cmd::bulk(Some(cursor@)),
                    RespView::Array(field_values(ctx.storage@.subkey, ks, ctx.namespace@)),
                ]);
            }
            proof {
                let want = hscan_reply(
                    ctx.storage@,
                    ctx.namespace@,
                    encoding::byte_seqs(args@),
                    now_ms,
                );
                assert(want->Ok_0->Array_0 =~= protocol::views(reply@));
            }
            Ok(array(reply))
        },
    }
}

/// The metadata that HSET finds or makes.
pub open spec fn hset_meta(s: StoreView, ns: Seq<u8>, key: Seq<u8>, at: Moment) -> Metadata {
    match hash_meta(s, ns, key, at.now_ms)->Ok_0 {
        Some(m) => m,
        None => types::fresh_metadata(DataType::Hash, at.version),
    }
}

/// HGET after HSET gives the last value that the arguments give the field, for
/// as long as the hash lives; fields that they do not name stay as they were.
pub proof fn law_hget_after_hset(
    s: StoreView,
    ns: Seq<u8>,
    a: Seq<Seq<u8>>,
    at: Moment,
    i: int,
    other: Seq<u8>,
    later_ms: i64,
)
    requires
        a.len() >= 3 && a.len() % 2 == 1,
        hash_meta(s, ns, a[0], at.now_ms) is Ok,
        !types::expired(hset_meta(s, ns, a[0], at).expire, later_ms),
        1 <= i && 2 * i < a.len(),
        forall|j: int| i < j && 2 * j < a.len() ==> #[trigger] a[2 * j - 1] != a[2 * i - 1],
        forall|j: int| 1 <= j && 2 * j < a.len() ==> #[trigger] a[2 * j - 1] != other,
    ensures
        ({
            let after = hset_outcome(s, ns, a, at).store;
            let m = hset_meta(s, ns, a[0], at);
            &&& hget_reply(after, ns, seq![a[0], a[2 * i - 1]], later_ms) == Ok::<_, ErrorView>(
                cmd::bulk(Some(a[2 * i])),
            )
            &&& hget_reply(after, ns, seq![a[0], other], later_ms) == Ok::<_, ErrorView>(
                cmd::bulk(
                    table::lookup(
                        s.subkey,
                        encoding::subkey_of(a[0], m.version, other, ns),
                    ),
                ),
            )
        }),
{
    let m = hset_meta(s, ns, a[0], at);
    let n = ((a.len() - 1) / 2) as nat;
    let o = hset_outcome(s, ns, a, at);
    let added = missing_fields(s.subkey, ns, m.version, a, n);
    let m2 = Metadata { size: cmd::grown(m.size, added), ..m };
    cmd::lemma_fresh_meta(DataType::Hash, at.version);
    if hash_meta(s, ns, a[0], at.now_ms)->Ok_0 is Some {
        cmd::lemma_typed_meta_read(
            s,
            ns,
            a[0],
            at.now_ms,
            DataType::Hash,
            "invalid metadata encoding"@,
        );
    }
    cmd::lemma_typed_meta_written(
        o.store,
        ns,
        a[0],
        m2,
        later_ms,
        DataType::Hash,
        "invalid metadata encoding"@,
    );
    lemma_field_set(s.subkey, ns, m.version, a, n, i);
    lemma_field_kept(s.subkey, ns, m.version, a, n, other);
}

proof fn lemma_field_set(e: Entries, ns: Seq<u8>, version: u64, a: Seq<Seq<u8>>, n: nat, i: int)
    requires
        1 <= i <= n,
        2 * n < a.len(),
        forall|j: int| i < j <= n ==> #[trigger] a[2 * j - 1] != a[2 * i - 1],
    ensures
        table::lookup(
            fields_set(e, ns, version, a, n),
            encoding::subkey_of(a[0], version, a[2 * i - 1], ns),
        ) == Some(a[2 * i]),
    decreases n,
{
    encoding::lemma_subkey_injective(a[0], version, a[2 * n - 1], a[2 * i - 1], ns);
    if i < n {
        assert(a[2 * n - 1] != a[2 * i - 1]);
        lemma_field_set(e, ns, version, a, (n - 1) as nat, i);
    }
}

proof fn lemma_field_kept(
    e: Entries,
    ns: Seq<u8>,
    version: u64,
    a: Seq<Seq<u8>>,
    n: nat,
    other: Seq<u8>,
)
    requires
        2 * n < a.len(),
        forall|j: int| 1 <= j && 2 * j < a.len() ==> #[trigger] a[2 * j - 1] != other,
    ensures
        table::lookup(
            fields_set(e, ns, version, a, n),
            encoding::subkey_of(a[0], version, other, ns),
        ) == table::lookup(e, encoding::subkey_of(a[0], version, other, ns)),
    decreases n,
{
    if n > 0 {
        lemma_field_kept(e, ns, version, a, (n - 1) as nat, other);
        assert(a[2 * n - 1] != other);
        encoding::lemma_subkey_injective(a[0], version, a[2 * n - 1], other, ns);
    }
}

/// A field that HDEL named is gone: HGET finds nothing and HEXISTS says so.
pub proof fn law_hget_after_hdel(
    s: StoreView,
    ns: Seq<u8>,
    a: Seq<Seq<u8>>,
    now_ms: i64,
    i: int,
)
    requires
        1 <= i < a.len(),
        hash_meta(s, ns, a[0], now_ms) is Ok,
        hash_meta(s, ns, a[0], now_ms)->Ok_0 is Some,
    ensures
        ({
            let after = hdel_outcome(s, ns, a, now_ms).store;
            &&& hget_reply(after, ns, seq![a[0], a[i]], now_ms) == Ok::<_, ErrorView>(
                cmd::bulk(None),
            )
            &&& hexists_reply(after, ns, seq![a[0], a[i]], now_ms) == Ok::<_, ErrorView>(
                RespView::Integer(0),
            )
        }),
{
    let m = hash_meta(s, ns, a[0], now_ms)->Ok_0->0;
    let n = (a.len() - 1) as nat;
    let o = hdel_outcome(s, ns, a, now_ms);
    let deleted = present_fields(s.subkey, ns, m.version, a, n);
    cmd::lemma_typed_meta_read(s, ns, a[0], now_ms, DataType::Hash, "invalid metadata encoding"@);
    if deleted > 0 {
        cmd::lemma_typed_meta_written(
            o.store,
            ns,
            a[0],
            Metadata { size: cmd::shrunk(m.size, deleted), ..m },
            now_ms,
            DataType::Hash,
            "invalid metadata encoding"@,
        );
    }
    lemma_field_gone(s.subkey, ns, m.version, a, n, i);
}

proof fn lemma_field_gone(e: Entries, ns: Seq<u8>, version: u64, a: Seq<Seq<u8>>, n: nat, i: int)
    requires
        1 <= i <= n < a.len(),
    ensures
        !fields_removed(e, ns, version, a, n).contains_key(
            encoding::subkey_of(a[0], version, a[i], ns),
        ),
    decreases n,
{
    if i < n {
        lemma_field_gone(e, ns, version, a, (n - 1) as nat, i);
    }
}

/// HSET replies how much HLEN grows by.
pub proof fn law_hlen_counts_new_fields(s: StoreView, ns: Seq<u8>, a: Seq<Seq<u8>>, at: Moment)
    requires
        a.len() >= 3 && a.len() % 2 == 1,
        hash_meta(s, ns, a[0], at.now_ms) is Ok,
        hset_meta(s, ns, a[0], at).size + a.len() < 0x8000_0000_0000_0000,
    ensures
        ({
            let o = hset_outcome(s, ns, a, at);
            let size = hset_meta(s, ns, a[0], at).size;
            hlen_reply(o.store, ns, seq![a[0]], at.now_ms) == Ok::<_, ErrorView>(
                RespView::Integer((size + (o.reply->Ok_0)->Integer_0) as i64),
            )
        }),
{
    let m = hset_meta(s, ns, a[0], at);
    let n = ((a.len() - 1) / 2) as nat;
    let o = hset_outcome(s, ns, a, at);
    let added = missing_fields(s.subkey, ns, m.version, a, n);
    lemma_missing_bound(s.subkey, ns, m.version, a, n);
    cmd::lemma_fresh_meta(DataType::Hash, at.version);
    if hash_meta(s, ns, a[0], at.now_ms)->Ok_0 is Some {
        cmd::lemma_typed_meta_read(
            s,
            ns,
            a[0],
            at.now_ms,
            DataType::Hash,
            "invalid metadata encoding"@,
        );
    }
    cmd::lemma_typed_meta_written(
        o.store,
        ns,
        a[0],
        Metadata { size: cmd::grown(m.size, added), ..m },
        at.now_ms,
        DataType::Hash,
        "invalid metadata encoding"@,
    );
}

} // verus!
