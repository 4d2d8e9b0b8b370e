//! Set commands. The members of a set are subkeys of its key; what they hold
//! is empty.

use super::laws;
use super::{
    array, count_value, empty_array, expect_arg_count, expect_min_arg_count, push_reply,
    CommandContext, Moment, Outcome,
};
use crate::cmd;
use crate::encoding;
use crate::error;
use crate::error::{ErrorView, KvdbError, KvdbResult};
use crate::order;
use crate::protocol;
use crate::protocol::{RespValue, RespView};
use crate::storage;
use crate::storage::{Cf, StoreView, WriteBatch};
use crate::table;
use crate::table::{Entries, Table};
use crate::text;
use crate::types;
use crate::types::{DataType, Metadata};
use vstd::prelude::*;

verus! {

/// Members read at a time.
pub const SET_OPS_CHUNK_SIZE: usize = 1024;

/// How many members a union may have.
pub const SET_UNION_RESULT_LIMIT: usize = 1_000_000;

/// The metadata of a set.
pub open spec fn set_meta(s: StoreView, ns: Seq<u8>, key: Seq<u8>, now_ms: i64) -> Result<
    Option<Metadata>,
    ErrorView,
> {
    cmd::typed_meta(s, ns, key, now_ms, DataType::SetType, "invalid set metadata"@)
}

fn read_set_metadata(ctx: &CommandContext, user_key: &[u8], now_ms: i64) -> (r: KvdbResult<
    Option<Metadata>,
>)
    ensures
        cmd::meta_view(r) == set_meta(ctx.storage@, ctx.namespace@, user_key@, now_ms),
{
    ctx.load_typed(user_key, now_ms, DataType::SetType, "invalid set metadata")
}

/// The entries after the first `n` members among the arguments were added, one
/// by one.
pub open spec fn members_added(
    e: Entries,
    ns: Seq<u8>,
    version: u64,
    a: Seq<Seq<u8>>,
    n: nat,
) -> Entries
    decreases n,
{
    if n == 0 {
        e
    } else {
        let before = members_added(e, ns, version, a, (n - 1) as nat);
        let k = encoding::subkey_of(a[0], version, a[n as int], ns);
        if before.contains_key(k) {
            before
        } else {
            before.insert(k, Seq::empty())
        }
    }
}

/// How many of the first `n` members among the arguments were not there when
/// their turn came.
pub open spec fn new_members(
    e: Entries,
    ns: Seq<u8>,
    version: u64,
    a: Seq<Seq<u8>>,
    n: nat,
) -> nat
    decreases n,
{
    if n == 0 {
        0
    } else {
        new_members(e, ns, version, a, (n - 1) as nat) + (if members_added(
            e,
            ns,
            version,
            a,
            (n - 1) as nat,
        ).contains_key(encoding::subkey_of(a[0], version, a[n as int], ns)) {
            0nat
        } else {
            1nat
        })
    }
}

/// A counter that went up by `n`, but not past its greatest value.
pub open spec fn raised(size: u64, n: nat) -> u64 {
    if size + n > u64::MAX {
        u64::MAX
    } else {
        (size + n) as u64
    }
}

/// SADD key member [member ...]: adds the members and replies how many of
/// them were new.
pub open spec fn sadd_outcome(
    s: StoreView,
    ns: Seq<u8>,
    a: Seq<Seq<u8>>,
    at: Moment,
) -> Outcome {
    if a.len() < 2 {
        cmd::unchanged(Err(cmd::wrong_args("SADD"@)), s)
    } else {
        match set_meta(s, ns, a[0], at.now_ms) {
            Err(e) => cmd::unchanged(Err(e), s),
            Ok(found) => {
                let m = match found {
                    Some(m) => m,
                    None => types::fresh_metadata(DataType::SetType, at.version),
                };
                let n = (a.len() - 1) as nat;
                let added = new_members(s.subkey, ns, m.version, a, n);
                Outcome {
                    reply: Ok(RespView::Integer(added as i64)),
                    store: StoreView {
                        subkey: members_added(s.subkey, ns, m.version, a, n),
                        metadata: if added > 0 || found is None {
                            s.metadata.insert(
                                encoding::meta_key_of(a[0], ns),
                                encoding::metadata_bytes(
                                    (Metadata { size: raised(m.size, added), ..m }),
                                ),
                            )
                        } else {
                            s.metadata
                        },
                        ..s
                    },
                }
            },
        }
    }
}

proof fn lemma_nothing_added(e: Entries, ns: Seq<u8>, version: u64, a: Seq<Seq<u8>>, n: nat)
    ensures
        new_members(e, ns, version, a, n) <= n,
        new_members(e, ns, version, a, n) == 0 ==> members_added(e, ns, version, a, n) == e,
    decreases n,
{
    if n > 0 {
        lemma_nothing_added(e, ns, version, a, (n - 1) as nat);
    }
}

pub fn sadd(ctx: &mut CommandContext, args: &[Vec<u8>], at: Moment) -> (r: KvdbResult<RespValue>)
    ensures
        cmd::outcome(r, final(ctx).storage@) == sadd_outcome(
            old(ctx).storage@,
            old(ctx).namespace@,
            encoding::byte_seqs(args@),
            at,
        ),
        final(ctx).kept(*old(ctx)),
{
    proof {
        ctx.storage.lemma_follows_self();
    }
    match expect_min_arg_count("SADD", args, 2) {
        Ok(_) => {},
        Err(e) => return Err(e),
    }
    let (meta, is_new) = match read_set_metadata(ctx, &args[0], at.now_ms) {
        Ok(Some(m)) => (m, false),
        Ok(None) => (Metadata::new(DataType::SetType, at.version), true),
        Err(e) => return Err(e),
    };
    let ghost a = encoding::byte_seqs(args@);
    let ghost s = ctx.storage@;
    let ghost ns = ctx.namespace@;
    let ghost e = s.subkey;
    let ghost v = meta.version;
    let none: Vec<u8> = Vec::new();
    let mut batch = WriteBatch::new();
    let mut seen = Table::new();
    let mut added: u64 = 0;
    let mut i: usize = 1;
    proof {
        assert(none@ =~= Seq::<u8>::empty());
    }
    while i < args.len()
        invariant
            1 <= i <= args@.len(),
            a == encoding::byte_seqs(args@),
            *ctx == *old(ctx),
            s == ctx.storage@,
            ns == ctx.namespace@,
            e == s.subkey,
            v == meta.version,
            none@ == Seq::<u8>::empty(),
            added == new_members(e, ns, v, a, (i - 1) as nat),
            added < i,
            storage::applied(s, batch@) == (StoreView {
                subkey: members_added(e, ns, v, a, (i - 1) as nat),
                ..s
            }),
            forall|m: Seq<u8>|
                members_added(e, ns, v, a, (i - 1) as nat).contains_key(
                    #[trigger] encoding::subkey_of(a[0], v, m, ns),
                ) == (e.contains_key(encoding::subkey_of(a[0], v, m, ns)) || seen@.contains_key(m)),
        decreases args.len() - i,
    {
        let ghost before = members_added(e, ns, v, a, (i - 1) as nat);
        let ghost member = args@[i as int]@;
        let sk = ctx.sub_key(&args[0], meta.version, &args[i]);
        proof {
            assert(a[i as int] == member);
            assert(a[0] == args@[0]@);
        }
        let seen_before = seen.contains(&args[i]);
        let ghost seen_set = seen@;
        seen.put(&args[i], &none);
        if !seen_before && !ctx.storage.contains_in(Cf::Subkey, &sk) {
            batch.put(Cf::Subkey, &sk, &none);
            added = added + 1;
        }
        proof {
            let after = members_added(e, ns, v, a, i as nat);
            assert forall|m: Seq<u8>|
                after.contains_key(#[trigger] encoding::subkey_of(a[0], v, m, ns)) == (
                e.contains_key(encoding::subkey_of(a[0], v, m, ns)) || seen@.contains_key(m)) by {
                encoding::lemma_subkey_injective(a[0], v, m, member, ns);
                assert(before.contains_key(encoding::subkey_of(a[0], v, m, ns)) == (e.contains_key(
                    encoding::subkey_of(a[0], v, m, ns),
                ) || seen_set.contains_key(m)));
            }
        }
        i = i + 1;
    }
    proof {
        lemma_nothing_added(e, ns, v, a, (a.len() - 1) as nat);
        assert(args.len() == args@.len());
    }
    if added > 0 || is_new {
        let mut new_meta = meta;
        new_meta.size = meta.size.saturating_add(added);
        let mk = ctx.meta_key(&args[0]);
        let mv = encoding::encode_metadata(&new_meta);
        batch.put(Cf::Metadata, &mk, &mv);
        ctx.storage.write(batch);
    }
    Ok(RespValue::Integer(added as i64))
}

/// The entries without the first `n` members among the arguments.
pub open spec fn members_removed(
    e: Entries,
    ns: Seq<u8>,
    version: u64,
    a: Seq<Seq<u8>>,
    n: nat,
) -> Entries
    decreases n,
{
    if n == 0 {
        e
    } else {
        members_removed(e, ns, version, a, (n - 1) as nat).remove(
            encoding::subkey_of(a[0], version, a[n as int], ns),
        )
    }
}

/// How many of the first `n` members among the arguments were there when
/// their turn came.
pub open spec fn gone_members(
    e: Entries,
    ns: Seq<u8>,
    version: u64,
    a: Seq<Seq<u8>>,
    n: nat,
) -> nat
    decreases n,
{
    if n == 0 {
        0
    } else {
        gone_members(e, ns, version, a, (n - 1) as nat) + (if members_removed(
            e,
            ns,
            version,
            a,
            (n - 1) as nat,
        ).contains_key(encoding::subkey_of(a[0], version, a[n as int], ns)) {
            1nat
        } else {
            0nat
        })
    }
}

/// SREM key member [member ...]: removes the members and replies how many of
/// them were there.
pub open spec fn srem_outcome(
    s: StoreView,
    ns: Seq<u8>,
    a: Seq<Seq<u8>>,
    now_ms: i64,
) -> Outcome {
    if a.len() < 2 {
        cmd::unchanged(Err(cmd::wrong_args("SREM"@)), s)
    } else {
        match set_meta(s, ns, a[0], now_ms) {
            Err(e) => cmd::unchanged(Err(e), s),
            Ok(None) => cmd::unchanged(Ok(RespView::Integer(0)), s),
            Ok(Some(m)) => {
                let n = (a.len() - 1) as nat;
                let removed = gone_members(s.subkey, ns, m.version, a, n);
                Outcome {
                    reply: Ok(RespView::Integer(removed as i64)),
                    store: StoreView {
                        subkey: members_removed(s.subkey, ns, m.version, a, n),
                        metadata: if removed > 0 {
                            s.metadata.insert(
                                encoding::meta_key_of(a[0], ns),
                                encoding::metadata_bytes(
                                    (Metadata { size: cmd::shrunk(m.size, removed), ..m }),
                                ),
                            )
                        } else {
                            s.metadata
                        },
                        ..s
                    },
                }
            },
        }
    }
}

proof fn lemma_nothing_removed(e: Entries, ns: Seq<u8>, version: u64, a: Seq<Seq<u8>>, n: nat)
    ensures
        gone_members(e, ns, version, a, n) <= n,
        gone_members(e, ns, version, a, n) == 0 ==> members_removed(e, ns, version, a, n) == e,
    decreases n,
{
    if n > 0 {
        lemma_nothing_removed(e, ns, version, a, (n - 1) as nat);
        let before = members_removed(e, ns, version, a, (n - 1) as nat);
        let k = encoding::subkey_of(a[0], version, a[n as int], ns);
        if !before.contains_key(k) {
            assert(before.remove(k) =~= before);
        }
    }
}

pub fn srem(ctx: &mut CommandContext, args: &[Vec<u8>], now_ms: i64) -> (r: KvdbResult<RespValue>)
    ensures
        cmd::outcome(r, final(ctx).storage@) == srem_outcome(
            old(ctx).storage@,
            old(ctx).namespace@,
            encoding::byte_seqs(args@),
            now_ms,
        ),
        final(ctx).kept(*old(ctx)),
{
    proof {
        ctx.storage.lemma_follows_self();
    }
    match expect_min_arg_count("SREM", args, 2) {
        Ok(_) => {},
        Err(e) => return Err(e),
    }
    let meta = match read_set_metadata(ctx, &args[0], now_ms) {
        Ok(Some(m)) => m,
        Ok(None) => return Ok(RespValue::Integer(0)),
        Err(e) => return Err(e),
    };
    let ghost a = encoding::byte_seqs(args@);
    let ghost s = ctx.storage@;
    let ghost ns = ctx.namespace@;
    let ghost e = s.subkey;
    let ghost v = meta.version;
    let none: Vec<u8> = Vec::new();
    let mut batch = WriteBatch::new();
    let mut seen = Table::new();
    let mut removed: u64 = 0;
    let mut i: usize = 1;
    while i < args.len()
        invariant
            1 <= i <= args@.len(),
            a == encoding::byte_seqs(args@),
            *ctx == *old(ctx),
            s == ctx.storage@,
            ns == ctx.namespace@,
            e == s.subkey,
            v == meta.version,
            removed == gone_members(e, ns, v, a, (i - 1) as nat),
            removed < i,
            storage::applied(s, batch@) == (StoreView {
                subkey: members_removed(e, ns, v, a, (i - 1) as nat),
                ..s
            }),
            forall|m: Seq<u8>|
                members_removed(e, ns, v, a, (i - 1) as nat).contains_key(
                    #[trigger] encoding::subkey_of(a[0], v, m, ns),
                ) == (e.contains_key(encoding::subkey_of(a[0], v, m, ns)) && !seen@.contains_key(m)),
        decreases args.len() - i,
    {
        let ghost before = members_removed(e, ns, v, a, (i - 1) as nat);
        let ghost member = args@[i as int]@;
        let sk = ctx.sub_key(&args[0], meta.version, &args[i]);
        proof {
            assert(a[i as int] == member);
            assert(a[0] == args@[0]@);
        }
        let seen_before = seen.contains(&args[i]);
        let ghost seen_set = seen@;
        seen.put(&args[i], &none);
        if !seen_before && ctx.storage.contains_in(Cf::Subkey, &sk) {
            batch.delete(Cf::Subkey, &sk);
            removed = removed + 1;
        } else {
            proof {
                assert(!before.contains_key(sk@));
                assert(before.remove(sk@) =~= before);
            }
        }
        proof {
            let after = members_removed(e, ns, v, a, i as nat);
            assert forall|m: Seq<u8>|
                after.contains_key(#[trigger] encoding::subkey_of(a[0], v, m, ns)) == (
                e.contains_key(encoding::subkey_of(a[0], v, m, ns)) && !seen@.contains_key(m)) by {
                encoding::lemma_subkey_injective(a[0], v, m, member, ns);
                assert(before.contains_key(encoding::subkey_of(a[0], v, m, ns)) == (e.contains_key(
                    encoding::subkey_of(a[0], v, m, ns),
                ) && !seen_set.contains_key(m)));
            }
        }
        i = i + 1;
    }
    proof {
        lemma_nothing_removed(e, ns, v, a, (a.len() - 1) as nat);
        assert(args.len() == args@.len());
    }
    if removed > 0 {
        let mut new_meta = meta;
        new_meta.size = meta.size.saturating_sub(removed);
        let mk = ctx.meta_key(&args[0]);
        let mv = encoding::encode_metadata(&new_meta);
        batch.put(Cf::Metadata, &mk, &mv);
        ctx.storage.write(batch);
    }
    Ok(RespValue::Integer(removed as i64))
}

/// The set of the key, in the given version, has the member.
pub open spec fn has_member(
    e: Entries,
    ns: Seq<u8>,
    key: Seq<u8>,
    version: u64,
    member: Seq<u8>,
) -> bool {
    e.contains_key(encoding::subkey_of(key, version, member, ns))
}

/// Tells whether a set has a member.
fn member_exists(ctx: &CommandContext, user_key: &[u8], version: u64, member: &[u8]) -> (r: bool)
    ensures
        r == has_member(ctx.storage@.subkey, ctx.namespace@, user_key@, version, member@),
{
    let sk = ctx.sub_key(user_key, version, member);
    ctx.storage.contains_in(Cf::Subkey, &sk)
}

/// SISMEMBER key member.
pub open spec fn sismember_reply(
    s: StoreView,
    ns: Seq<u8>,
    a: Seq<Seq<u8>>,
    now_ms: i64,
) -> Result<RespView, ErrorView> {
    if a.len() != 2 {
        Err(cmd::wrong_args("SISMEMBER"@))
    } else {
        match set_meta(s, ns, a[0], now_ms) {
            Err(e) => Err(e),
            Ok(None) => Ok(RespView::Integer(0)),
            Ok(Some(m)) => Ok(
                RespView::Integer(
                    if has_member(s.subkey, ns, a[0], m.version, a[1]) {
                        1
                    } else {
                        0
                    },
                ),
            ),
        }
    }
}

pub fn sismember(ctx: &CommandContext, args: &[Vec<u8>], now_ms: i64) -> (r: KvdbResult<RespValue>)
    ensures
        cmd::reply_view(r) == sismember_reply(
            ctx.storage@,
            ctx.namespace@,
            encoding::byte_seqs(args@),
            now_ms,
        ),
{
    match expect_arg_count("SISMEMBER", args, 2) {
        Ok(_) => {},
        Err(e) => return Err(e),
    }
    match read_set_metadata(ctx, &args[0], now_ms) {
        Ok(Some(m)) => if member_exists(ctx, &args[0], m.version, &args[1]) {
            Ok(RespValue::Integer(1))
        } else {
            Ok(RespValue::Integer(0))
        },
        Ok(None) => Ok(RespValue::Integer(0)),
        Err(e) => Err(e),
    }
}

/// SCARD key: the size in the metadata.
pub open spec fn scard_reply(s: StoreView, ns: Seq<u8>, a: Seq<Seq<u8>>, now_ms: i64) -> Result<
    RespView,
    ErrorView,
> {
    if a.len() != 1 {
        Err(cmd::wrong_args("SCARD"@))
    } else {
        match set_meta(s, ns, a[0], now_ms) {
            Err(e) => Err(e),
            Ok(None) => Ok(RespView::Integer(0)),
            Ok(Some(m)) => Ok(cmd::count_reply(m.size)),
        }
    }
}

pub fn scard(ctx: &CommandContext, args: &[Vec<u8>], now_ms: i64) -> (r: KvdbResult<RespValue>)
    ensures
        cmd::reply_view(r) == scard_reply(
            ctx.storage@,
            ctx.namespace@,
            encoding::byte_seqs(args@),
            now_ms,
        ),
{
    match expect_arg_count("SCARD", args, 1) {
        Ok(_) => {},
        Err(e) => return Err(e),
    }
    match read_set_metadata(ctx, &args[0], now_ms) {
        Ok(Some(m)) => Ok(count_value(m.size)),
        Ok(None) => Ok(RespValue::Integer(0)),
        Err(e) => Err(e),
    }
}

/// A subkey of the given version of the key.
pub open spec fn belongs(ns: Seq<u8>, key: Seq<u8>, version: u64) -> spec_fn(Seq<u8>) -> bool {
    |k: Seq<u8>|
        match encoding::subkey_parts(k, ns) {
            Some((own, v, _)) => own == key && v == version,
            None => false,
        }
}

/// The subkeys of a set, in order.
pub open spec fn member_keys(e: Entries, ns: Seq<u8>, key: Seq<u8>, version: u64) -> Seq<Seq<u8>> {
    table::keys_with(e, encoding::sub_prefix(key, version, ns)).filter(belongs(ns, key, version))
}

/// The elements in subkeys.
pub open spec fn elements(ks: Seq<Seq<u8>>, ns: Seq<u8>) -> Seq<Seq<u8>> {
    Seq::new(ks.len(), |i: int| encoding::element_in(ks[i], ns))
}

/// The members of a set, in order.
pub open spec fn members(e: Entries, ns: Seq<u8>, key: Seq<u8>, version: u64) -> Seq<Seq<u8>> {
    elements(member_keys(e, ns, key, version), ns)
}

/// The list of a set's members has exactly the members, each once, in
/// ascending order. The key must be shorter than 4 GiB and the namespace at
/// most 255 bytes long, so that their lengths can be written.
pub proof fn law_members(e: Entries, ns: Seq<u8>, key: Seq<u8>, version: u64)
    requires
        e.dom().finite(),
        key.len() < 0x1_0000_0000,
        ns.len() <= 255,
    ensures
        order::ascending(members(e, ns, key, version)),
        forall|m: Seq<u8>|
            members(e, ns, key, version).contains(m) == #[trigger] has_member(
                e,
                ns,
                key,
                version,
                m,
            ),
{
    let p = encoding::sub_prefix(key, version, ns);
    let keep = belongs(ns, key, version);
    let all = table::keys_with(e, p);
    table::lemma_runs_listed(e, p, Seq::empty());
    assert forall|i: int| 0 <= i < all.len() implies #[trigger] keep(all[i]) && all[i]
        == encoding::subkey_of(key, version, encoding::element_in(all[i], ns), ns) by {
        assert(all.to_set().contains(all[i]));
        order::lemma_prefix_split(all[i], p);
        let sub = all[i].skip(p.len() as int);
        assert(all[i] == encoding::subkey_of(key, version, sub, ns));
        encoding::law_keys_round_trip(key, version, sub, ns);
    }
    lemma_filter_all(all, keep);
    let ms = members(e, ns, key, version);
    assert forall|i: int, j: int| 0 <= i < j < ms.len() implies order::lt(ms[i], ms[j]) by {
        assert(keep(all[i]) && keep(all[j]));
        assert(order::lt(all[i], all[j]));
        order::lemma_lt_common_prefix(p, ms[i], ms[j]);
    }
    assert forall|m: Seq<u8>| ms.contains(m) == #[trigger] has_member(e, ns, key, version, m) by {
        let k = encoding::subkey_of(key, version, m, ns);
        encoding::law_keys_round_trip(key, version, m, ns);
        if has_member(e, ns, key, version, m) {
            order::lemma_prefix_append(p, m);
            assert(table::with_prefix(e, p).contains(k));
            assert(all.to_set().contains(k));
            let i = all.index_of(k);
            assert(ms[i] == m);
        }
        if ms.contains(m) {
            let i = ms.index_of(m);
            assert(keep(all[i]));
            assert(all.to_set().contains(all[i]));
        }
    }
}

proof fn lemma_filter_all(ks: Seq<Seq<u8>>, p: spec_fn(Seq<u8>) -> bool)
    requires
        forall|i: int| 0 <= i < ks.len() ==> p(#[trigger] ks[i]),
    ensures
        ks.filter(p) == ks,
    decreases ks.len(),
{
    reveal(Seq::filter);
    if ks.len() > 0 {
        lemma_filter_all(ks.drop_last(), p);
        assert(ks =~= ks.drop_last().push(ks.last()));
    }
}

/// Reads the members of a set page by page.
fn load_members(ctx: &CommandContext, user_key: &[u8], version: u64) -> (r: Vec<Vec<u8>>)
    ensures
        encoding::byte_seqs(r@) == members(ctx.storage@.subkey, ctx.namespace@, user_key@, version),
        forall|i: int|
            0 <= i < r@.len() ==> has_member(
                ctx.storage@.subkey,
                ctx.namespace@,
                user_key@,
                version,
                #[trigger] r@[i]@,
            ),
{
    let prefix = ctx.sub_prefix(user_key, version);
    let mut result: Vec<Vec<u8>> = Vec::new();
    let mut start_key: Vec<u8> = Vec::new();
    let ghost e = ctx.storage@.subkey;
    let ghost ns = ctx.namespace@;
    let ghost key = user_key@;
    let ghost ks = table::keys_with(e, prefix@);
    let ghost keep = belongs(ns, key, version);
    let ghost mut pos: int = 0;
    proof {
        assert(start_key@ =~= table::forward_mark(e, prefix@, 0));
        assert(ks.take(0).filter(keep) =~= Seq::<Seq<u8>>::empty()) by {
            reveal(Seq::filter);
        }
        assert(encoding::byte_seqs(result@) =~= elements(ks.take(0).filter(keep), ns));
    }
    loop
        invariant_except_break
            start_key@ == table::forward_mark(e, prefix@, pos),
            0 <= pos <= ks.len(),
            encoding::byte_seqs(result@) == elements(ks.take(pos).filter(keep), ns),
        invariant
            prefix@.len() > 0,
            e == ctx.storage@.subkey,
            ns == ctx.namespace@,
            key == user_key@,
            ks == table::keys_with(e, prefix@),
            keep == belongs(ns, key, version),
            forall|i: int|
                0 <= i < result@.len() ==> has_member(e, ns, key, version, #[trigger] result@[i]@),
        ensures
            encoding::byte_seqs(result@) == elements(ks.filter(keep), ns),
        decreases ks.len() - pos,
    {
        let (items, next) = ctx.storage.walk(
            Cf::Subkey,
            &prefix,
            &start_key,
            SET_OPS_CHUNK_SIZE,
            Ghost(pos),
        );
        if items.len() == 0 {
            proof {
                assert(ks.take(pos) =~= ks);
            }
            break;
        }
        let mut j: usize = 0;
        let ghost n = items@.len() as int;
        proof {
            assert forall|i: int| 0 <= i < n implies (#[trigger] items@[i]).0@ == ks[pos + i]
                && e.contains_key(ks[pos + i]) by {
                assert(table::pairs_of(items@)[i] == (items@[i].0@, items@[i].1@));
                assert(table::entries_at(e, ks.subrange(pos, pos + n))[i].0 == ks[pos + i]);
                assert(ks.to_set().contains(ks[pos + i]));
            }
        }
        while j < items.len()
            invariant
                j <= items@.len(),
                0 <= pos,
                pos + items@.len() <= ks.len(),
                ns == ctx.namespace@,
                key == user_key@,
                keep == belongs(ns, key, version),
                forall|i: int|
                    0 <= i < items@.len() ==> (#[trigger] items@[i]).0@ == ks[pos + i]
                        && e.contains_key(ks[pos + i]),
                encoding::byte_seqs(result@) == elements(ks.take(pos + j).filter(keep), ns),
                forall|i: int|
                    0 <= i < result@.len() ==> has_member(
                        e,
                        ns,
                        key,
                        version,
                        #[trigger] result@[i]@,
                    ),
            decreases items.len() - j,
        {
            let ghost x = pos + j;
            let ghost hits = ks.take(x).filter(keep);
            proof {
                assert(items@[j as int].0@ == ks[x]);
                assert(ks.take(x + 1) =~= ks.take(x).push(ks[x]));
                ks.take(x).lemma_filter_push(ks[x], keep);
            }
            match ctx.parse_subkey(&items[j].0) {
                Some((own, v, member)) => if order::same(own, user_key) && v == version {
                    proof {
                        encoding::law_parts_make_the_key(ks[x], ns);
                    }
                    let ghost before = result@;
                    result.push(encoding::copy(member));
                    proof {
                        assert(encoding::byte_seqs(result@) =~= encoding::byte_seqs(before).push(
                            member@,
                        ));
                        assert(elements(hits.push(ks[x]), ns) =~= elements(hits, ns).push(member@));
                    }
                },
                None => {},
            }
            j = j + 1;
        }
        proof {
            pos = pos + n;
        }
        match next {
            Some(k) => {
                start_key = k;
            },
            None => {
                proof {
                    assert(ks.take(pos) =~= ks);
                }
                break;
            },
        }
    }
    result
}

/// Byte strings as bulk replies.
pub open spec fn bulks(ms: Seq<Seq<u8>>) -> Seq<RespView> {
    Seq::new(ms.len(), |i: int| cmd::bulk(Some(ms[i])))
}

/// SMEMBERS key: the members in ascending order.
pub open spec fn smembers_reply(
    s: StoreView,
    ns: Seq<u8>,
    a: Seq<Seq<u8>>,
    now_ms: i64,
) -> Result<RespView, ErrorView> {
    if a.len() != 1 {
        Err(cmd::wrong_args("SMEMBERS"@))
    } else {
        match set_meta(s, ns, a[0], now_ms) {
            Err(e) => Err(e),
            Ok(None) => Ok(cmd::no_items()),
            Ok(Some(m)) => Ok(RespView::Array(bulks(members(s.subkey, ns, a[0], m.version)))),
        }
    }
}

fn bulk_array(items: &Vec<Vec<u8>>) -> (r: RespValue)
    ensures
        r@ == RespView::Array(bulks(encoding::byte_seqs(items@))),
{
    let mut result: Vec<RespValue> = Vec::new();
    let ghost ms = encoding::byte_seqs(items@);
    let mut i: usize = 0;
    while i < items.len()
        invariant
            i <= items@.len(),
            ms == encoding::byte_seqs(items@),
            protocol::views(result@) =~= bulks(ms).take(i as int),
        decreases items.len() - i,
    {
        push_reply(&mut result, RespValue::BulkString(Some(encoding::copy(&items[i]))));
        proof {
            assert(bulks(ms)[i as int] == cmd::bulk(Some(items@[i as int]@)));
            assert(bulks(ms).take(i + 1) =~= bulks(ms).take(i as int).push(bulks(ms)[i as int]));
        }
        i = i + 1;
    }
    proof {
        assert(bulks(ms).take(ms.len() as int) =~= bulks(ms));
    }
    array(result)
}

pub fn smembers(ctx: &CommandContext, args: &[Vec<u8>], now_ms: i64) -> (r: KvdbResult<RespValue>)
    ensures
        cmd::reply_view(r) == smembers_reply(
            ctx.storage@,
            ctx.namespace@,
            encoding::byte_seqs(args@),
            now_ms,
        ),
{
    match expect_arg_count("SMEMBERS", args, 1) {
        Ok(_) => {},
        Err(e) => return Err(e),
    }
    let meta = match read_set_metadata(ctx, &args[0], now_ms) {
        Ok(Some(m)) => m,
        Ok(None) => return Ok(empty_array()),
        Err(e) => return Err(e),
    };
    let found = load_members(ctx, &args[0], meta.version);
    Ok(bulk_array(&found))
}

/// `count` members, or all if there are fewer, from a place on that `chosen`
/// tells, and from the first one on behind the last.
pub open spec fn picked(ms: Seq<Seq<u8>>, count: nat, chosen: u64) -> Seq<Seq<u8>> {
    let n = if count < ms.len() {
        count
    } else {
        ms.len()
    };
    Seq::new(n, |i: int| ms[(chosen as int + i) % ms.len() as int])
}

/// How many members SPOP is asked for.
pub open spec fn pop_count(a: Seq<Seq<u8>>) -> Option<usize> {
    if a.len() < 2 {
        Some(1)
    } else {
        text::usize_in(a[1])
    }
}

/// What SPOP replies of the members that it took: the member itself without a
/// count, and a list of them with one.
pub open spec fn pop_reply(a: Seq<Seq<u8>>, gone: Seq<Seq<u8>>) -> RespView {
    if a.len() == 2 {
        RespView::Array(bulks(gone))
    } else if gone.len() == 0 {
        cmd::bulk(None)
    } else {
        cmd::bulk(Some(gone[0]))
    }
}

/// SPOP key [count]: removes members and replies them. Which ones they are is
/// left to the moment's version, of which a part is random.
pub open spec fn spop_outcome(s: StoreView, ns: Seq<u8>, a: Seq<Seq<u8>>, at: Moment) -> Outcome {
    if a.len() < 1 || a.len() > 2 {
        cmd::unchanged(Err(cmd::wrong_args("SPOP"@)), s)
    } else if pop_count(a) is None {
        cmd::unchanged(Err(ErrorView::NotInteger), s)
    } else {
        match set_meta(s, ns, a[0], at.now_ms) {
            Err(e) => cmd::unchanged(Err(e), s),
            Ok(None) => cmd::unchanged(Ok(pop_reply(a, Seq::empty())), s),
            Ok(Some(m)) => {
                let ms = members(s.subkey, ns, a[0], m.version);
                let gone = picked(ms, pop_count(a)->0 as nat, at.version);
                Outcome {
                    reply: Ok(pop_reply(a, gone)),
                    store: if gone.len() == 0 {
                        s
                    } else {
                        srem_outcome(s, ns, seq![a[0]] + gone, at.now_ms).store
                    },
                }
            },
        }
    }
}

fn pick(ms: &Vec<Vec<u8>>, count: usize, chosen: u64) -> (r: Vec<Vec<u8>>)
    ensures
        encoding::byte_seqs(r@) == picked(encoding::byte_seqs(ms@), count as nat, chosen),
{
    let ghost all = encoding::byte_seqs(ms@);
    let ghost want = picked(all, count as nat, chosen);
    let n: usize = if count < ms.len() {
        count
    } else {
        ms.len()
    };
    let mut r: Vec<Vec<u8>> = Vec::new();
    let mut i: usize = 0;
    while i < n
        invariant
            i <= n <= ms@.len(),
            n == want.len(),
            all == encoding::byte_seqs(ms@),
            want == picked(all, count as nat, chosen),
            encoding::byte_seqs(r@) =~= want.take(i as int),
        decreases n - i,
    {
        let place: u128 = (chosen as u128 + i as u128) % (ms.len() as u128);
        let ghost before = encoding::byte_seqs(r@);
        r.push(encoding::copy(&ms[place as usize]));
        proof {
            assert(want[i as int] == all[place as int]);
            assert(encoding::byte_seqs(r@) =~= before.push(all[place as int]));
        }
        i = i + 1;
    }
    proof {
        assert(want.take(i as int) =~= want);
    }
    r
}

pub fn spop(ctx: &mut CommandContext, args: &[Vec<u8>], at: Moment) -> (r: KvdbResult<RespValue>)
    ensures
        cmd::outcome(r, final(ctx).storage@) == spop_outcome(
            old(ctx).storage@,
            old(ctx).namespace@,
            encoding::byte_seqs(args@),
            at,
        ),
        final(ctx).kept(*old(ctx)),
{
    proof {
        ctx.storage.lemma_follows_self();
        assert(args.len() == args@.len());
    }
    if args.len() < 1 || args.len() > 2 {
        return Err(KvdbError::WrongArgCount("SPOP"));
    }
    let mut count: usize = 1;
    if args.len() == 2 {
        count = match text::parse_usize(&args[1]) {
            Some(n) => n,
            None => return Err(KvdbError::NotInteger),
        };
    }
    let ghost a = encoding::byte_seqs(args@);
    let gone = match read_set_metadata(ctx, &args[0], at.now_ms) {
        Ok(Some(m)) => {
            let ms = load_members(ctx, &args[0], m.version);
            pick(&ms, count, at.version)
        },
        Ok(None) => Vec::new(),
        Err(e) => return Err(e),
    };
    let ghost taken = encoding::byte_seqs(gone@);
    proof {
        if gone@.len() == 0 {
            assert(taken =~= Seq::<Seq<u8>>::empty());
        }
    }
    if gone.len() > 0 {
        let mut names: Vec<Vec<u8>> = Vec::new();
        names.push(encoding::copy(&args[0]));
        let mut i: usize = 0;
        while i < gone.len()
            invariant
                i <= gone@.len(),
                taken == encoding::byte_seqs(gone@),
                encoding::byte_seqs(names@) =~= seq![args@[0]@] + taken.take(i as int),
            decreases gone.len() - i,
        {
            let ghost before = encoding::byte_seqs(names@);
            names.push(encoding::copy(&gone[i]));
            proof {
                assert(encoding::byte_seqs(names@) =~= before.push(taken[i as int]));
                assert(taken.take(i + 1) =~= taken.take(i as int).push(taken[i as int]));
            }
            i = i + 1;
        }
        proof {
            assert(taken.take(i as int) =~= taken);
            assert(encoding::byte_seqs(names@) == seq![a[0]] + taken);
        }
        match srem(ctx, &names, at.now_ms) {
            Ok(_) => {},
            Err(e) => return Err(e),
        }
    }
    if args.len() == 2 {
        return Ok(bulk_array(&gone));
    }
    if gone.len() == 0 {
        return Ok(RespValue::BulkString(None));
    }
    Ok(RespValue::BulkString(Some(encoding::copy(&gone[0]))))
}

/// The metadata of the first `n` sets: the first error, nothing as soon as
/// one of the sets is not there, or all of it.
pub open spec fn all_metas(
    s: StoreView,
    ns: Seq<u8>,
    a: Seq<Seq<u8>>,
    now_ms: i64,
    n: nat,
) -> Result<Option<Seq<Metadata>>, ErrorView>
    decreases n,
{
    if n == 0 {
        Ok(Some(Seq::empty()))
    } else {
        match all_metas(s, ns, a, now_ms, (n - 1) as nat) {
            Ok(Some(before)) => match set_meta(s, ns, a[n - 1], now_ms) {
                Err(e) => Err(e),
                Ok(None) => Ok(None),
                Ok(Some(m)) => Ok(Some(before.push(m))),
            },
            other => other,
        }
    }
}

/// The place of the smallest set, the first of several.
pub open spec fn smallest(ms: Seq<Metadata>, n: nat) -> int
    decreases n,
{
    if n <= 1 {
        0
    } else {
        let best = smallest(ms, (n - 1) as nat);
        if ms[n - 1].size < ms[best].size {
            n - 1
        } else {
            best
        }
    }
}

/// A member of all the sets.
pub open spec fn in_all(e: Entries, ns: Seq<u8>, a: Seq<Seq<u8>>, ms: Seq<Metadata>) -> spec_fn(
    Seq<u8>,
) -> bool {
    |m: Seq<u8>|
        forall|j: int|
            0 <= j < a.len() ==> has_member(e, ns, #[trigger] a[j], ms[j].version, m)
}

/// The error of the first of the keys that holds no set, or that cannot be
/// read.
pub open spec fn first_fault(
    s: StoreView,
    ns: Seq<u8>,
    a: Seq<Seq<u8>>,
    now_ms: i64,
    n: nat,
) -> Option<ErrorView>
    decreases n,
{
    if n == 0 {
        None
    } else {
        match first_fault(s, ns, a, now_ms, (n - 1) as nat) {
            Some(e) => Some(e),
            None => match set_meta(s, ns, a[n - 1], now_ms) {
                Err(e) => Some(e),
                Ok(_) => None,
            },
        }
    }
}

proof fn lemma_fault_stays(s: StoreView, ns: Seq<u8>, a: Seq<Seq<u8>>, now_ms: i64, n: nat, m: nat)
    requires
        n <= m,
        first_fault(s, ns, a, now_ms, n) is Some,
    ensures
        first_fault(s, ns, a, now_ms, m) == first_fault(s, ns, a, now_ms, n),
    decreases m,
{
    if n < m {
        lemma_fault_stays(s, ns, a, now_ms, n, (m - 1) as nat);
    }
}

/// Demands that no key holds something else than a set.
fn expect_sets(ctx: &CommandContext, args: &[Vec<u8>], now_ms: i64) -> (r: KvdbResult<()>)
    ensures
        ({
            let a = encoding::byte_seqs(args@);
            let fault = first_fault(ctx.storage@, ctx.namespace@, a, now_ms, a.len());
            match r {
                Ok(_) => fault is None,
                Err(e) => fault == Some(e@),
            }
        }),
{
    let ghost s = ctx.storage@;
    let ghost ns = ctx.namespace@;
    let ghost a = encoding::byte_seqs(args@);
    let mut i: usize = 0;
    while i < args.len()
        invariant
            i <= args@.len(),
            s == ctx.storage@,
            ns == ctx.namespace@,
            a == encoding::byte_seqs(args@),
            first_fault(s, ns, a, now_ms, i as nat) is None,
        decreases args.len() - i,
    {
        proof {
            assert(a[i as int] == args@[i as int]@);
        }
        match read_set_metadata(ctx, &args[i], now_ms) {
            Ok(_) => {},
            Err(e) => {
                proof {
                    lemma_fault_stays(s, ns, a, now_ms, (i + 1) as nat, a.len());
                }
                return Err(e);
            },
        }
        i = i + 1;
    }
    Ok(())
}

/// A command on several sets reports a key that holds something else, wherever
/// among its keys it stands.
pub proof fn law_set_commands_report_faults(
    s: StoreView,
    ns: Seq<u8>,
    a: Seq<Seq<u8>>,
    now_ms: i64,
    i: int,
)
    requires
        0 <= i < a.len(),
        set_meta(s, ns, a[i], now_ms) is Err,
    ensures
        sinter_reply(s, ns, a, now_ms) is Err,
        sdiff_reply(s, ns, a, now_ms) is Err,
        sunion_reply(s, ns, a, now_ms) is Err,
        (forall|j: int| 0 <= j < i ==> set_meta(s, ns, #[trigger] a[j], now_ms) is Ok) ==> {
            let e = set_meta(s, ns, a[i], now_ms)->Err_0;
            &&& sinter_reply(s, ns, a, now_ms) == Err::<RespView, _>(e)
            &&& sdiff_reply(s, ns, a, now_ms) == Err::<RespView, _>(e)
            &&& sunion_reply(s, ns, a, now_ms) == Err::<RespView, _>(e)
        },
{
    lemma_fault_found(s, ns, a, now_ms, i, (i + 1) as nat);
    lemma_fault_stays(s, ns, a, now_ms, (i + 1) as nat, a.len());
}

proof fn lemma_fault_found(
    s: StoreView,
    ns: Seq<u8>,
    a: Seq<Seq<u8>>,
    now_ms: i64,
    i: int,
    n: nat,
)
    requires
        0 <= i < n <= i + 1,
        set_meta(s, ns, a[i], now_ms) is Err,
    ensures
        first_fault(s, ns, a, now_ms, n) is Some,
        (forall|j: int| 0 <= j < i ==> set_meta(s, ns, #[trigger] a[j], now_ms) is Ok)
            ==> first_fault(s, ns, a, now_ms, n) == Some(set_meta(s, ns, a[i], now_ms)->Err_0),
{
    if forall|j: int| 0 <= j < i ==> set_meta(s, ns, #[trigger] a[j], now_ms) is Ok {
        lemma_no_fault(s, ns, a, now_ms, i as nat);
    }
}

pub(crate) proof fn lemma_no_fault(s: StoreView, ns: Seq<u8>, a: Seq<Seq<u8>>, now_ms: i64, n: nat)
    requires
        forall|j: int| 0 <= j < n ==> set_meta(s, ns, #[trigger] a[j], now_ms) is Ok,
    ensures
        first_fault(s, ns, a, now_ms, n) is None,
    decreases n,
{
    if n > 0 {
        assert(set_meta(s, ns, a[n - 1], now_ms) is Ok);
        lemma_no_fault(s, ns, a, now_ms, (n - 1) as nat);
    }
}

/// SINTER key [key ...]: the members of the smallest set that all other sets
/// have too. Nothing if one of the sets is not there, but an error if any key
/// holds something else.
pub open spec fn sinter_reply(s: StoreView, ns: Seq<u8>, a: Seq<Seq<u8>>, now_ms: i64) -> Result<
    RespView,
    ErrorView,
> {
    if a.len() < 1 {
        Err(cmd::wrong_args("SINTER"@))
    } else if first_fault(s, ns, a, now_ms, a.len()) is Some {
        Err(first_fault(s, ns, a, now_ms, a.len())->0)
    } else {
        match all_metas(s, ns, a, now_ms, a.len()) {
            Err(e) => Err(e),
            Ok(None) => Ok(cmd::no_items()),
            Ok(Some(ms)) => {
                let base = smallest(ms, ms.len());
                Ok(
                    RespView::Array(
                        bulks(
                            members(s.subkey, ns, a[base], ms[base].version).filter(
                                in_all(s.subkey, ns, a, ms),
                            ),
                        ),
                    ),
                )
            },
        }
    }
}

proof fn lemma_all_metas(s: StoreView, ns: Seq<u8>, a: Seq<Seq<u8>>, now_ms: i64, n: nat, m: nat)
    requires
        n <= m,
    ensures
        all_metas(s, ns, a, now_ms, n) is Err ==> all_metas(s, ns, a, now_ms, m) == all_metas(
            s,
            ns,
            a,
            now_ms,
            n,
        ),
        all_metas(s, ns, a, now_ms, n) == Ok::<Option<Seq<Metadata>>, ErrorView>(None)
            ==> all_metas(s, ns, a, now_ms, m) == all_metas(s, ns, a, now_ms, n),
    decreases m,
{
    if n < m {
        lemma_all_metas(s, ns, a, now_ms, n, (m - 1) as nat);
    }
}

pub fn sinter(ctx: &CommandContext, args: &[Vec<u8>], now_ms: i64) -> (r: KvdbResult<RespValue>)
    ensures
        cmd::reply_view(r) == sinter_reply(
            ctx.storage@,
            ctx.namespace@,
            encoding::byte_seqs(args@),
            now_ms,
        ),
{
    match expect_min_arg_count("SINTER", args, 1) {
        Ok(_) => {},
        Err(e) => return Err(e),
    }
    match expect_sets(ctx, args, now_ms) {
        Ok(_) => {},
        Err(e) => return Err(e),
    }
    let ghost s = ctx.storage@;
    let ghost ns = ctx.namespace@;
    let ghost a = encoding::byte_seqs(args@);
    let mut metas: Vec<Metadata> = Vec::new();
    let mut base: usize = 0;
    let mut i: usize = 0;
    proof {
        assert(metas@ =~= Seq::<Metadata>::empty());
    }
    while i < args.len()
        invariant
            i <= args@.len(),
            metas@.len() == i,
            i > 0 ==> base < i,
            i == 0 ==> base == 0,
            s == ctx.storage@,
            ns == ctx.namespace@,
            a == encoding::byte_seqs(args@),
            a.len() > 0,
            first_fault(s, ns, a, now_ms, a.len()) is None,
            all_metas(s, ns, a, now_ms, i as nat) == Ok::<_, ErrorView>(Some(metas@)),
            base == smallest(metas@, i as nat),
        decreases args.len() - i,
    {
        proof {
            assert(a[i as int] == args@[i as int]@);
        }
        match read_set_metadata(ctx, &args[i], now_ms) {
            Ok(Some(m)) => {
                let ghost before = metas@;
                metas.push(m);
                proof {
                    lemma_smallest_push(before, m, i as nat);
                }
                if m.size < metas[base].size {
                    base = i;
                }
            },
            Ok(None) => {
                proof {
                    lemma_all_metas(s, ns, a, now_ms, (i + 1) as nat, a.len());
                }
                return Ok(empty_array());
            },
            Err(e) => {
                proof {
                    lemma_all_metas(s, ns, a, now_ms, (i + 1) as nat, a.len());
                }
                return Err(e);
            },
        }
        i = i + 1;
    }
    let candidates = load_members(ctx, &args[base], metas[base].version);
    let ghost ms = metas@;
    let ghost keep = in_all(s.subkey, ns, a, ms);
    let ghost list = encoding::byte_seqs(candidates@);
    let mut result: Vec<Vec<u8>> = Vec::new();
    let mut c: usize = 0;
    proof {
        assert(a[base as int] == args@[base as int]@);
        assert(list.take(0).filter(keep) =~= Seq::<Seq<u8>>::empty()) by {
            reveal(Seq::filter);
        }
        assert(encoding::byte_seqs(result@) =~= list.take(0).filter(keep));
    }
    while c < candidates.len()
        invariant
            c <= candidates@.len(),
            base < args@.len(),
            metas@.len() == args@.len(),
            ms == metas@,
            s == ctx.storage@,
            ns == ctx.namespace@,
            a == encoding::byte_seqs(args@),
            keep == in_all(s.subkey, ns, a, ms),
            list == encoding::byte_seqs(candidates@),
            forall|i: int|
                0 <= i < candidates@.len() ==> has_member(
                    s.subkey,
                    ns,
                    a[base as int],
                    ms[base as int].version,
                    #[trigger] candidates@[i]@,
                ),
            encoding::byte_seqs(result@) == list.take(c as int).filter(keep),
        decreases candidates.len() - c,
    {
        let ghost m = candidates@[c as int]@;
        proof {
            assert(list[c as int] == m);
            assert(list.take(c + 1) =~= list.take(c as int).push(m));
            list.take(c as int).lemma_filter_push(m, keep);
        }
        let mut all_have = true;
        let mut j: usize = 0;
        while j < args.len() && all_have
            invariant
                j <= args@.len(),
                base < args@.len(),
                metas@.len() == args@.len(),
                ms == metas@,
                s == ctx.storage@,
                ns == ctx.namespace@,
                a == encoding::byte_seqs(args@),
                c < candidates@.len(),
                m == candidates@[c as int]@,
                has_member(s.subkey, ns, a[base as int], ms[base as int].version, m),
                all_have ==> forall|i: int|
                    0 <= i < j ==> has_member(s.subkey, ns, #[trigger] a[i], ms[i].version, m),
                !all_have ==> exists|i: int|
                    0 <= i < a.len() && !has_member(
                        s.subkey,
                        ns,
                        #[trigger] a[i],
                        ms[i].version,
                        m,
                    ),
            decreases args.len() - j,
        {
            proof {
                assert(a[j as int] == args@[j as int]@);
            }
            if j != base && !member_exists(ctx, &args[j], metas[j].version, &candidates[c]) {
                proof {
                    assert(!has_member(
                        s.subkey,
                        ns,
                        a[j as int],
                        ms[j as int].version,
                        m,
                    ));
                }
                all_have = false;
            }
            j = j + 1;
        }
        proof {
            assert(all_have == keep(m));
        }
        if all_have {
            let ghost before = result@;
            result.push(encoding::copy(&candidates[c]));
            proof {
                assert(encoding::byte_seqs(result@) =~= encoding::byte_seqs(before).push(m));
            }
        }
        c = c + 1;
    }
    proof {
        assert(list.take(c as int) =~= list);
    }
    Ok(bulk_array(&result))
}

pub(crate) proof fn lemma_smallest_push(ms: Seq<Metadata>, m: Metadata, n: nat)
    requires
        n <= ms.len(),
    ensures
        smallest(ms.push(m), n) == smallest(ms, n),
        0 <= smallest(ms, n),
        n > 0 ==> smallest(ms, n) < n,
        n == 0 ==> smallest(ms, n) == 0,
    decreases n,
{
    if n > 1 {
        lemma_smallest_push(ms, m, (n - 1) as nat);
    }
}

/// A member of none of the sets behind the first one. A set that is not there
/// takes nothing away.
pub open spec fn in_no_other(s: StoreView, ns: Seq<u8>, a: Seq<Seq<u8>>, now_ms: i64) -> spec_fn(
    Seq<u8>,
) -> bool {
    |m: Seq<u8>|
        forall|j: int|
            1 <= j < a.len() ==> match set_meta(s, ns, #[trigger] a[j], now_ms) {
                Ok(Some(meta)) => !has_member(s.subkey, ns, a[j], meta.version, m),
                _ => true,
            }
}

/// SDIFF key [key ...]: the members of the first set that no other set has. An
/// error if any key holds something else than a set.
pub open spec fn sdiff_reply(s: StoreView, ns: Seq<u8>, a: Seq<Seq<u8>>, now_ms: i64) -> Result<
    RespView,
    ErrorView,
> {
    if a.len() < 1 {
        Err(cmd::wrong_args("SDIFF"@))
    } else if first_fault(s, ns, a, now_ms, a.len()) is Some {
        Err(first_fault(s, ns, a, now_ms, a.len())->0)
    } else {
        match set_meta(s, ns, a[0], now_ms) {
            Err(e) => Err(e),
            Ok(None) => Ok(cmd::no_items()),
            Ok(Some(m)) => Ok(
                RespView::Array(
                    bulks(
                        members(s.subkey, ns, a[0], m.version).filter(
                            in_no_other(s, ns, a, now_ms),
                        ),
                    ),
                ),
            ),
        }
    }
}

pub fn sdiff(ctx: &CommandContext, args: &[Vec<u8>], now_ms: i64) -> (r: KvdbResult<RespValue>)
    ensures
        cmd::reply_view(r) == sdiff_reply(
            ctx.storage@,
            ctx.namespace@,
            encoding::byte_seqs(args@),
            now_ms,
        ),
{
    match expect_min_arg_count("SDIFF", args, 1) {
        Ok(_) => {},
        Err(e) => return Err(e),
    }
    match expect_sets(ctx, args, now_ms) {
        Ok(_) => {},
        Err(e) => return Err(e),
    }
    let first = match read_set_metadata(ctx, &args[0], now_ms) {
        Ok(Some(m)) => m,
        Ok(None) => return Ok(empty_array()),
        Err(e) => return Err(e),
    };
    let ghost s = ctx.storage@;
    let ghost ns = ctx.namespace@;
    let ghost a = encoding::byte_seqs(args@);
    let mut others: Vec<Option<u64>> = Vec::new();
    others.push(None);
    let mut i: usize = 1;
    while i < args.len()
        invariant
            1 <= i <= args@.len(),
            others@.len() == i,
            s == ctx.storage@,
            ns == ctx.namespace@,
            a == encoding::byte_seqs(args@),
            forall|j: int|
                1 <= j < i ==> #[trigger] others@[j] == (match set_meta(s, ns, a[j], now_ms) {
                    Ok(Some(meta)) => Some(meta.version),
                    _ => None,
                }),
        decreases args.len() - i,
    {
        proof {
            assert(a[i as int] == args@[i as int]@);
        }
        match read_set_metadata(ctx, &args[i], now_ms) {
            Ok(Some(m)) => others.push(Some(m.version)),
            _ => others.push(None),
        }
        i = i + 1;
    }
    let candidates = load_members(ctx, &args[0], first.version);
    let ghost keep = in_no_other(s, ns, a, now_ms);
    let ghost list = encoding::byte_seqs(candidates@);
    let mut result: Vec<Vec<u8>> = Vec::new();
    let mut c: usize = 0;
    proof {
        assert(a[0] == args@[0]@);
        assert(list.take(0).filter(keep) =~= Seq::<Seq<u8>>::empty()) by {
            reveal(Seq::filter);
        }
        assert(encoding::byte_seqs(result@) =~= list.take(0).filter(keep));
    }
    while c < candidates.len()
        invariant
            c <= candidates@.len(),
            others@.len() == args@.len(),
            args@.len() >= 1,
            s == ctx.storage@,
            ns == ctx.namespace@,
            a == encoding::byte_seqs(args@),
            keep == in_no_other(s, ns, a, now_ms),
            list == encoding::byte_seqs(candidates@),
            forall|j: int|
                1 <= j < a.len() ==> #[trigger] others@[j] == (match set_meta(s, ns, a[j], now_ms) {
                    Ok(Some(meta)) => Some(meta.version),
                    _ => None,
                }),
            encoding::byte_seqs(result@) == list.take(c as int).filter(keep),
        decreases candidates.len() - c,
    {
        let ghost m = candidates@[c as int]@;
        proof {
            assert(list[c as int] == m);
            assert(list.take(c + 1) =~= list.take(c as int).push(m));
            list.take(c as int).lemma_filter_push(m, keep);
        }
        let mut in_other = false;
        let mut j: usize = 1;
        while j < args.len() && !in_other
            invariant
                1 <= j <= args@.len(),
                others@.len() == args@.len(),
                s == ctx.storage@,
                ns == ctx.namespace@,
                a == encoding::byte_seqs(args@),
                c < candidates@.len(),
                m == candidates@[c as int]@,
                keep == in_no_other(s, ns, a, now_ms),
                forall|j: int|
                    1 <= j < a.len() ==> #[trigger] others@[j] == (match set_meta(
                        s,
                        ns,
                        a[j],
                        now_ms,
                    ) {
                        Ok(Some(meta)) => Some(meta.version),
                        _ => None,
                    }),
                !in_other ==> forall|i: int|
                    1 <= i < j ==> match set_meta(s, ns, #[trigger] a[i], now_ms) {
                        Ok(Some(meta)) => !has_member(s.subkey, ns, a[i], meta.version, m),
                        _ => true,
                    },
                in_other ==> !keep(m),
            decreases args.len() - j,
        {
            proof {
                assert(a[j as int] == args@[j as int]@);
                assert(others@[j as int] == (match set_meta(s, ns, a[j as int], now_ms) {
                    Ok(Some(meta)) => Some(meta.version),
                    _ => None,
                }));
            }
            match others[j] {
                Some(v) => if member_exists(ctx, &args[j], v, &candidates[c]) {
                    in_other = true;
                },
                None => {},
            }
            j = j + 1;
        }
        proof {
            assert(!in_other == keep(m));
        }
        if !in_other {
            let ghost before = result@;
            result.push(encoding::copy(&candidates[c]));
            proof {
                assert(encoding::byte_seqs(result@) =~= encoding::byte_seqs(before).push(m));
            }
        }
        c = c + 1;
    }
    proof {
        assert(list.take(c as int) =~= list);
    }
    Ok(bulk_array(&result))
}

/// A union with the first `n` of more members: those that it lacks come
/// behind the others. Nothing if it would have more members than it may.
pub open spec fn merged(acc: Seq<Seq<u8>>, ms: Seq<Seq<u8>>, n: nat) -> Option<Seq<Seq<u8>>>
    decreases n,
{
    if n == 0 {
        Some(acc)
    } else {
        match merged(acc, ms, (n - 1) as nat) {
            None => None,
            Some(before) => if before.contains(ms[n - 1]) {
                Some(before)
            } else if before.len() >= SET_UNION_RESULT_LIMIT {
                None
            } else {
                Some(before.push(ms[n - 1]))
            },
        }
    }
}

/// The union of the first `n` sets. A set that is not there adds nothing.
pub open spec fn union_of(s: StoreView, ns: Seq<u8>, a: Seq<Seq<u8>>, now_ms: i64, n: nat) -> Result<
    Seq<Seq<u8>>,
    ErrorView,
>
    decreases n,
{
    if n == 0 {
        Ok(Seq::empty())
    } else {
        match union_of(s, ns, a, now_ms, (n - 1) as nat) {
            Err(e) => Err(e),
            Ok(before) => match set_meta(s, ns, a[n - 1], now_ms) {
                Err(e) => Err(e),
                Ok(None) => Ok(before),
                Ok(Some(m)) => {
                    let ms = members(s.subkey, ns, a[n - 1], m.version);
                    match merged(before, ms, ms.len()) {
                        Some(after) => Ok(after),
                        None => Err(ErrorView::Command("SUNION result exceeds memory limit"@)),
                    }
                },
            },
        }
    }
}

/// SUNION key [key ...]: the members of the sets, each once. A union that
/// would have more members than it may is an error.
pub open spec fn sunion_reply(s: StoreView, ns: Seq<u8>, a: Seq<Seq<u8>>, now_ms: i64) -> Result<
    RespView,
    ErrorView,
> {
    if a.len() < 1 {
        Err(cmd::wrong_args("SUNION"@))
    } else if first_fault(s, ns, a, now_ms, a.len()) is Some {
        Err(first_fault(s, ns, a, now_ms, a.len())->0)
    } else {
        match union_of(s, ns, a, now_ms, a.len()) {
            Err(e) => Err(e),
            Ok(ms) => Ok(RespView::Array(bulks(ms))),
        }
    }
}

proof fn lemma_union_error(s: StoreView, ns: Seq<u8>, a: Seq<Seq<u8>>, now_ms: i64, n: nat, m: nat)
    requires
        n <= m,
        union_of(s, ns, a, now_ms, n) is Err,
    ensures
        union_of(s, ns, a, now_ms, m) == union_of(s, ns, a, now_ms, n),
    decreases m,
{
    if n < m {
        lemma_union_error(s, ns, a, now_ms, n, (m - 1) as nat);
    }
}

proof fn lemma_merged_full(acc: Seq<Seq<u8>>, ms: Seq<Seq<u8>>, n: nat, m: nat)
    requires
        n <= m,
        merged(acc, ms, n) is None,
    ensures
        merged(acc, ms, m) is None,
    decreases m,
{
    if n < m {
        lemma_merged_full(acc, ms, n, (m - 1) as nat);
    }
}

pub fn sunion(ctx: &CommandContext, args: &[Vec<u8>], now_ms: i64) -> (r: KvdbResult<RespValue>)
    ensures
        cmd::reply_view(r) == sunion_reply(
            ctx.storage@,
            ctx.namespace@,
            encoding::byte_seqs(args@),
            now_ms,
        ),
{
    match expect_min_arg_count("SUNION", args, 1) {
        Ok(_) => {},
        Err(e) => return Err(e),
    }
    match expect_sets(ctx, args, now_ms) {
        Ok(_) => {},
        Err(e) => return Err(e),
    }
    let ghost s = ctx.storage@;
    let ghost ns = ctx.namespace@;
    let ghost a = encoding::byte_seqs(args@);
    let none: Vec<u8> = Vec::new();
    let mut seen = Table::new();
    let mut result: Vec<Vec<u8>> = Vec::new();
    let mut i: usize = 0;
    proof {
        assert(encoding::byte_seqs(result@) =~= Seq::<Seq<u8>>::empty());
    }
    while i < args.len()
        invariant
            i <= args@.len(),
            s == ctx.storage@,
            ns == ctx.namespace@,
            a == encoding::byte_seqs(args@),
            a.len() > 0,
            first_fault(s, ns, a, now_ms, a.len()) is None,
            union_of(s, ns, a, now_ms, i as nat) == Ok::<_, ErrorView>(
                encoding::byte_seqs(result@),
            ),
            forall|m: Seq<u8>|
                seen@.contains_key(m) == #[trigger] encoding::byte_seqs(result@).contains(m),
        decreases args.len() - i,
    {
        proof {
            assert(a[i as int] == args@[i as int]@);
        }
        let meta = match read_set_metadata(ctx, &args[i], now_ms) {
            Ok(m) => m,
            Err(e) => {
                proof {
                    lemma_union_error(s, ns, a, now_ms, (i + 1) as nat, a.len());
                }
                return Err(e);
            },
        };
        match meta {
            None => {},
            Some(meta) => {
                let found = load_members(ctx, &args[i], meta.version);
                let ghost acc = encoding::byte_seqs(result@);
                let ghost ms = encoding::byte_seqs(found@);
                let mut j: usize = 0;
                while j < found.len()
                    invariant
                        j <= found@.len(),
                        i < args@.len(),
                        s == ctx.storage@,
                        ns == ctx.namespace@,
                        a == encoding::byte_seqs(args@),
                        a[i as int] == args@[i as int]@,
                        set_meta(s, ns, a[i as int], now_ms) == Ok::<_, ErrorView>(Some(meta)),
                        first_fault(s, ns, a, now_ms, a.len()) is None,
                        union_of(s, ns, a, now_ms, i as nat) == Ok::<_, ErrorView>(acc),
                        ms == members(s.subkey, ns, a[i as int], meta.version),
                        ms == encoding::byte_seqs(found@),
                        merged(acc, ms, j as nat) == Some(encoding::byte_seqs(result@)),
                        forall|m: Seq<u8>|
                            seen@.contains_key(m) == #[trigger] encoding::byte_seqs(
                                result@,
                            ).contains(m),
                    decreases found.len() - j,
                {
                    let ghost member = found@[j as int]@;
                    let ghost before = encoding::byte_seqs(result@);
                    proof {
                        assert(ms[j as int] == member);
                    }
                    if !seen.contains(&found[j]) {
                        if result.len() >= SET_UNION_RESULT_LIMIT {
                            proof {
                                lemma_merged_full(acc, ms, (j + 1) as nat, ms.len());
                                lemma_union_error(s, ns, a, now_ms, (i + 1) as nat, a.len());
                            }
                            return Err(error::command_error("SUNION result exceeds memory limit"));
                        }
                        seen.put(&found[j], &none);
                        result.push(encoding::copy(&found[j]));
                        proof {
                            let after = encoding::byte_seqs(result@);
                            assert(after =~= before.push(member));
                            assert forall|m: Seq<u8>|
                                seen@.contains_key(m) == #[trigger] after.contains(m) by {
                                if before.contains(m) {
                                    assert(after[before.index_of(m)] == m);
                                }
                                assert(after[before.len() as int] == member);
                                if after.contains(m) && m != member {
                                    assert(before[after.index_of(m)] == m);
                                }
                            }
                        }
                    }
                    j = j + 1;
                }
            },
        }
        i = i + 1;
    }
    Ok(bulk_array(&result))
}

/// The metadata that SADD finds or makes.
pub open spec fn sadd_meta(s: StoreView, ns: Seq<u8>, key: Seq<u8>, at: Moment) -> Metadata {
    match set_meta(s, ns, key, at.now_ms)->Ok_0 {
        Some(m) => m,
        None => types::fresh_metadata(DataType::SetType, at.version),
    }
}

/// The members that a list names, behind its first item.
pub open spec fn named(a: Seq<Seq<u8>>, n: nat) -> Set<Seq<u8>>
    decreases n,
{
    if n == 0 {
        Set::empty()
    } else {
        named(a, (n - 1) as nat).insert(a[n as int])
    }
}

proof fn lemma_added(e: Entries, ns: Seq<u8>, version: u64, a: Seq<Seq<u8>>, n: nat)
    requires
        e.dom().finite(),
        n < a.len(),
    ensures
        ({
            let before = encoding::elements_of(e, a[0], version, ns);
            let after = encoding::elements_of(
                members_added(e, ns, version, a, n),
                a[0],
                version,
                ns,
            );
            &&& members_added(e, ns, version, a, n).dom().finite()
            &&& after == before.union(named(a, n))
            &&& after.finite()
            &&& after.len() == before.len() + new_members(e, ns, version, a, n)
        }),
    decreases n,
{
    let none = Seq::<u8>::empty();
    let before = encoding::elements_of(e, a[0], version, ns);
    encoding::lemma_elements(e, a[0], version, ns, none, none);
    if n == 0 {
        assert(before.union(named(a, 0)) =~= before);
    } else {
        lemma_added(e, ns, version, a, (n - 1) as nat);
        let mid = members_added(e, ns, version, a, (n - 1) as nat);
        let set = encoding::elements_of(mid, a[0], version, ns);
        encoding::lemma_elements(mid, a[0], version, ns, a[n as int], none);
        assert(set.insert(a[n as int]) =~= before.union(named(a, n)));
        if set.contains(a[n as int]) {
            assert(set.insert(a[n as int]) =~= set);
        }
    }
}

proof fn lemma_removed(e: Entries, ns: Seq<u8>, version: u64, a: Seq<Seq<u8>>, n: nat)
    requires
        e.dom().finite(),
        n < a.len(),
    ensures
        ({
            let before = encoding::elements_of(e, a[0], version, ns);
            let after = encoding::elements_of(
                members_removed(e, ns, version, a, n),
                a[0],
                version,
                ns,
            );
            &&& members_removed(e, ns, version, a, n).dom().finite()
            &&& after == before.difference(named(a, n))
            &&& after.finite()
            &&& before.len() == after.len() + gone_members(e, ns, version, a, n)
        }),
    decreases n,
{
    let none = Seq::<u8>::empty();
    let before = encoding::elements_of(e, a[0], version, ns);
    encoding::lemma_elements(e, a[0], version, ns, none, none);
    if n == 0 {
        assert(before.difference(named(a, 0)) =~= before);
    } else {
        lemma_removed(e, ns, version, a, (n - 1) as nat);
        let mid = members_removed(e, ns, version, a, (n - 1) as nat);
        let set = encoding::elements_of(mid, a[0], version, ns);
        encoding::lemma_elements(mid, a[0], version, ns, a[n as int], none);
        assert(set.remove(a[n as int]) =~= before.difference(named(a, n)));
        if !set.contains(a[n as int]) {
            assert(set.remove(a[n as int]) =~= set);
        }
    }
}

/// SADD makes a set of the members that were there and those that are named,
/// replies by how many it grew, and SCARD goes on counting the members. A set
/// that is made anew, with a version behind all that are stored, has the named
/// members alone.
pub proof fn law_sadd_is_union(
    s: StoreView,
    ns: Seq<u8>,
    a: Seq<Seq<u8>>,
    at: Moment,
    last: u64,
)
    requires
        a.len() >= 2,
        s.subkey.dom().finite(),
        set_meta(s, ns, a[0], at.now_ms) is Ok,
        set_meta(s, ns, a[0], at.now_ms)->Ok_0 is None ==> laws::versions_upto(s, ns, a[0], last)
            && last < at.version,
    ensures
        ({
            let o = sadd_outcome(s, ns, a, at);
            let m = sadd_meta(s, ns, a[0], at);
            let before = encoding::elements_of(s.subkey, a[0], m.version, ns);
            let after = encoding::elements_of(o.store.subkey, a[0], m.version, ns);
            let size = raised(m.size, (after.len() - before.len()) as nat);
            &&& set_meta(s, ns, a[0], at.now_ms)->Ok_0 is None ==> before == Set::<
                Seq<u8>,
            >::empty() && m.size == 0
            &&& after == before.union(named(a, (a.len() - 1) as nat))
            &&& after.finite() && before.finite()
            &&& o.reply == Ok::<_, ErrorView>(
                RespView::Integer((after.len() - before.len()) as i64),
            )
            &&& set_meta(o.store, ns, a[0], at.now_ms) == Ok::<_, ErrorView>(
                Some(Metadata { size, ..m }),
            )
            &&& m.size == before.len() && after.len() <= u64::MAX ==> size == after.len()
        }),
{
    if set_meta(s, ns, a[0], at.now_ms)->Ok_0 is None {
        laws::law_later_versions_are_unused(s, ns, a[0], last, at.version);
    }
    let m = sadd_meta(s, ns, a[0], at);
    let n = (a.len() - 1) as nat;
    let none = Seq::<u8>::empty();
    lemma_added(s.subkey, ns, m.version, a, n);
    encoding::lemma_elements(s.subkey, a[0], m.version, ns, none, none);
    let o = sadd_outcome(s, ns, a, at);
    let added = new_members(s.subkey, ns, m.version, a, n);
    cmd::lemma_fresh_meta(DataType::SetType, at.version);
    let found = set_meta(s, ns, a[0], at.now_ms)->Ok_0;
    if found is Some {
        cmd::lemma_typed_meta_read(
            s,
            ns,
            a[0],
            at.now_ms,
            DataType::SetType,
            "invalid set metadata"@,
        );
    }
    if added > 0 || found is None {
        cmd::lemma_typed_meta_written(
            o.store,
            ns,
            a[0],
            Metadata { size: raised(m.size, added), ..m },
            at.now_ms,
            DataType::SetType,
            "invalid set metadata"@,
        );
    } else {
        assert(set_meta(o.store, ns, a[0], at.now_ms) == set_meta(s, ns, a[0], at.now_ms));
    }
}

/// SREM makes a set of the members that were there and are not named, replies
/// by how many it shrank, and SCARD goes on counting the members.
pub proof fn law_srem_is_difference(s: StoreView, ns: Seq<u8>, a: Seq<Seq<u8>>, now_ms: i64)
    requires
        a.len() >= 2,
        s.subkey.dom().finite(),
        set_meta(s, ns, a[0], now_ms) is Ok,
        set_meta(s, ns, a[0], now_ms)->Ok_0 is Some,
    ensures
        ({
            let o = srem_outcome(s, ns, a, now_ms);
            let m = set_meta(s, ns, a[0], now_ms)->Ok_0->0;
            let before = encoding::elements_of(s.subkey, a[0], m.version, ns);
            let after = encoding::elements_of(o.store.subkey, a[0], m.version, ns);
            let size = cmd::shrunk(m.size, (before.len() - after.len()) as nat);
            &&& after == before.difference(named(a, (a.len() - 1) as nat))
            &&& after.finite() && before.finite()
            &&& o.reply == Ok::<_, ErrorView>(
                RespView::Integer((before.len() - after.len()) as i64),
            )
            &&& set_meta(o.store, ns, a[0], now_ms) == Ok::<_, ErrorView>(
                Some(Metadata { size, ..m }),
            )
            &&& m.size == before.len() ==> size == after.len()
        }),
{
    let m = set_meta(s, ns, a[0], now_ms)->Ok_0->0;
    let n = (a.len() - 1) as nat;
    let none = Seq::<u8>::empty();
    lemma_removed(s.subkey, ns, m.version, a, n);
    encoding::lemma_elements(s.subkey, a[0], m.version, ns, none, none);
    let o = srem_outcome(s, ns, a, now_ms);
    let removed = gone_members(s.subkey, ns, m.version, a, n);
    cmd::lemma_typed_meta_read(s, ns, a[0], now_ms, DataType::SetType, "invalid set metadata"@);
    if removed > 0 {
        cmd::lemma_typed_meta_written(
            o.store,
            ns,
            a[0],
            Metadata { size: cmd::shrunk(m.size, removed), ..m },
            now_ms,
            DataType::SetType,
            "invalid set metadata"@,
        );
    } else {
        assert(set_meta(o.store, ns, a[0], now_ms) == set_meta(s, ns, a[0], now_ms));
    }
}

/// SPOP takes as many members out of a set as it is asked for, or all of them,
/// replies exactly those, each once, and SCARD goes on counting the members.
pub proof fn law_spop_takes_members(s: StoreView, ns: Seq<u8>, a: Seq<Seq<u8>>, at: Moment)
    requires
        1 <= a.len() <= 2,
        pop_count(a) is Some,
        s.subkey.dom().finite(),
        a[0].len() < 0x1_0000_0000,
        ns.len() <= 255,
        set_meta(s, ns, a[0], at.now_ms) is Ok,
        set_meta(s, ns, a[0], at.now_ms)->Ok_0 is Some,
    ensures
        ({
            let o = spop_outcome(s, ns, a, at);
            let m = set_meta(s, ns, a[0], at.now_ms)->Ok_0->0;
            let before = encoding::elements_of(s.subkey, a[0], m.version, ns);
            let after = encoding::elements_of(o.store.subkey, a[0], m.version, ns);
            let count = pop_count(a)->0;
            let gone = picked(members(s.subkey, ns, a[0], m.version), count as nat, at.version);
            &&& o.reply == Ok::<_, ErrorView>(pop_reply(a, gone))
            &&& gone.no_duplicates()
            &&& forall|i: int| 0 <= i < gone.len() ==> before.contains(#[trigger] gone[i])
            &&& before.finite() && after == before.difference(gone.to_set())
            &&& gone.len() == if count < before.len() {
                count as nat
            } else {
                before.len()
            }
            &&& set_meta(o.store, ns, a[0], at.now_ms) == Ok::<_, ErrorView>(
                Some(Metadata { size: cmd::shrunk(m.size, gone.len()), ..m }),
            )
            &&& m.size == before.len() ==> cmd::shrunk(m.size, gone.len()) == after.len()
        }),
{
    let m = set_meta(s, ns, a[0], at.now_ms)->Ok_0->0;
    let ms = members(s.subkey, ns, a[0], m.version);
    let count = pop_count(a)->0 as nat;
    let gone = picked(ms, count, at.version);
    let before = encoding::elements_of(s.subkey, a[0], m.version, ns);
    let none = Seq::<u8>::empty();
    law_members(s.subkey, ns, a[0], m.version);
    encoding::lemma_elements(s.subkey, a[0], m.version, ns, none, none);
    assert forall|x: Seq<u8>| ms.contains(x) == #[trigger] before.contains(x) by {
        assert(ms.contains(x) == has_member(s.subkey, ns, a[0], m.version, x));
    }
    lemma_listing_len(ms, before);
    lemma_picked(ms, count, at.version);
    assert forall|i: int| 0 <= i < gone.len() implies before.contains(#[trigger] gone[i]) by {
        let x = ms[(at.version as int + i) % ms.len() as int];
        assert(ms.contains(x));
        assert(has_member(s.subkey, ns, a[0], m.version, x));
    }
    if gone.len() == 0 {
        assert(before.difference(gone.to_set()) =~= before);
    } else {
        let b = seq![a[0]] + gone;
        assert(b[0] == a[0]);
        law_srem_is_difference(s, ns, b, at.now_ms);
        lemma_named_behind(a[0], gone, gone.len());
        assert(gone.take(gone.len() as int) =~= gone);
        let after = before.difference(gone.to_set());
        gone.unique_seq_to_set();
        assert(before.intersect(gone.to_set()) =~= gone.to_set());
        assert(before =~= after.union(gone.to_set()));
        vstd::set_lib::lemma_set_disjoint_lens(after, gone.to_set());
    }
}

/// An ascending list that names a set's elements has as many items.
proof fn lemma_listing_len(ms: Seq<Seq<u8>>, set: Set<Seq<u8>>)
    requires
        order::ascending(ms),
        forall|m: Seq<u8>| ms.contains(m) == #[trigger] set.contains(m),
    ensures
        ms.no_duplicates(),
        ms.len() == set.len(),
{
    assert forall|i: int, j: int| 0 <= i < j < ms.len() implies ms[i] != ms[j] by {
        assert(order::lt(ms[i], ms[j]));
        if ms[i] == ms[j] {
            order::lemma_lt_asymmetric(ms[i], ms[j]);
        }
    }
    ms.unique_seq_to_set();
    assert(ms.to_set() =~= set);
}

proof fn lemma_picked(ms: Seq<Seq<u8>>, count: nat, chosen: u64)
    requires
        ms.no_duplicates(),
    ensures
        picked(ms, count, chosen).no_duplicates(),
{
    let gone = picked(ms, count, chosen);
    let n = ms.len() as int;
    assert forall|i: int, j: int| 0 <= i < j < gone.len() implies gone[i] != gone[j] by {
        let x = (chosen as int + i) % n;
        let y = (chosen as int + j) % n;
        if x == y {
            vstd::arithmetic::div_mod::lemma_mod_equivalence(chosen as int + j, chosen as int + i, n);
            assert((j - i) % n == 0);
            vstd::arithmetic::div_mod::lemma_small_mod((j - i) as nat, n as nat);
        }
        assert(ms[x] != ms[y]);
    }
}

proof fn lemma_named_behind(key: Seq<u8>, gone: Seq<Seq<u8>>, n: nat)
    requires
        n <= gone.len(),
    ensures
        named(seq![key] + gone, n) == gone.take(n as int).to_set(),
    decreases n,
{
    let b = seq![key] + gone;
    if n == 0 {
        assert(gone.take(0).to_set() =~= Set::<Seq<u8>>::empty());
    } else {
        lemma_named_behind(key, gone, (n - 1) as nat);
        let less = gone.take(n - 1);
        let more = gone.take(n as int);
        assert(b[n as int] == gone[n - 1]);
        assert(more =~= less.push(gone[n - 1]));
        assert forall|x: Seq<u8>| more.to_set().contains(x) == less.to_set().insert(
            gone[n - 1],
        ).contains(x) by {
            if less.contains(x) {
                assert(more[less.index_of(x)] == x);
            }
            assert(more[n - 1] == gone[n - 1]);
            if more.contains(x) && x != gone[n - 1] {
                assert(less[more.index_of(x)] == x);
            }
        }
        assert(more.to_set() =~= less.to_set().insert(gone[n - 1]));
    }
}

pub(crate) proof fn lemma_filter_contains(ks: Seq<Seq<u8>>, p: spec_fn(Seq<u8>) -> bool, x: Seq<u8>)
    ensures
        ks.filter(p).contains(x) == (ks.contains(x) && p(x)),
    decreases ks.len(),
{
    reveal(Seq::filter);
    if ks.len() > 0 {
        let before = ks.drop_last();
        lemma_filter_contains(before, p, x);
        let f = before.filter(p);
        if ks.contains(x) && p(x) {
            let i = ks.index_of(x);
            if i < before.len() {
                assert(before[i] == x);
                assert(ks.filter(p)[f.index_of(x)] == x);
            } else {
                assert(ks.filter(p)[f.len() as int] == x);
            }
        }
        if ks.filter(p).contains(x) {
            let i = ks.filter(p).index_of(x);
            if i < f.len() {
                assert(f[i] == x);
                assert(ks[before.index_of(x)] == x);
            } else {
                assert(ks[ks.len() - 1] == x);
            }
        }
    }
}

/// The members in a reply.
pub open spec fn replied(r: Result<RespView, ErrorView>, m: Seq<u8>) -> bool {
    r is Ok && r->Ok_0 is Array && (r->Ok_0->Array_0).contains(cmd::bulk(Some(m)))
}

pub(crate) proof fn lemma_bulks_contain(ms: Seq<Seq<u8>>, m: Seq<u8>)
    ensures
        bulks(ms).contains(cmd::bulk(Some(m))) == ms.contains(m),
{
    if ms.contains(m) {
        assert(bulks(ms)[ms.index_of(m)] == cmd::bulk(Some(m)));
    }
    if bulks(ms).contains(cmd::bulk(Some(m))) {
        let i = bulks(ms).index_of(cmd::bulk(Some(m)));
        assert(ms[i] == m);
    }
}

/// Keys and namespace are short enough for their lengths to be written.
pub open spec fn keys_fit(a: Seq<Seq<u8>>, ns: Seq<u8>) -> bool {
    ns.len() <= 255 && forall|i: int| 0 <= i < a.len() ==> (#[trigger] a[i]).len() < 0x1_0000_0000
}

pub(crate) proof fn lemma_all_metas_len(s: StoreView, ns: Seq<u8>, a: Seq<Seq<u8>>, now_ms: i64, n: nat)
    requires
        n <= a.len(),
        all_metas(s, ns, a, now_ms, n) is Ok,
        all_metas(s, ns, a, now_ms, n)->Ok_0 is Some,
    ensures
        ({
            let ms = all_metas(s, ns, a, now_ms, n)->Ok_0->0;
            ms.len() == n && forall|i: int|
                0 <= i < n ==> set_meta(s, ns, a[i], now_ms) == Ok::<_, ErrorView>(
                    Some(#[trigger] ms[i]),
                )
        }),
    decreases n,
{
    if n > 0 {
        lemma_all_metas_len(s, ns, a, now_ms, (n - 1) as nat);
    }
}

/// SINTER replies exactly what all of the sets have in common, whichever of
/// them is read for it.
pub proof fn law_sinter_is_intersection(
    s: StoreView,
    ns: Seq<u8>,
    a: Seq<Seq<u8>>,
    now_ms: i64,
    m: Seq<u8>,
)
    requires
        a.len() >= 1,
        keys_fit(a, ns),
        s.subkey.dom().finite(),
        sinter_reply(s, ns, a, now_ms) is Ok,
    ensures
        replied(sinter_reply(s, ns, a, now_ms), m) <==> forall|j: int|
            0 <= j < a.len() ==> sismember_reply(s, ns, seq![#[trigger] a[j], m], now_ms) == Ok::<
                _,
                ErrorView,
            >(RespView::Integer(1)),
{
    let r = sinter_reply(s, ns, a, now_ms);
    match all_metas(s, ns, a, now_ms, a.len())->Ok_0 {
        None => {
            let i = lemma_missing_set(s, ns, a, now_ms, a.len());
            assert(sismember_reply(s, ns, seq![a[i], m], now_ms) != Ok::<_, ErrorView>(
                RespView::Integer(1),
            ));
        },
        Some(ms) => {
            lemma_all_metas_len(s, ns, a, now_ms, a.len());
            lemma_smallest_push(ms, ms[0], ms.len());
            let base = smallest(ms, ms.len());
            let list = members(s.subkey, ns, a[base], ms[base].version);
            let p = in_all(s.subkey, ns, a, ms);
            assert(a[base].len() < 0x1_0000_0000);
            law_members(s.subkey, ns, a[base], ms[base].version);
            lemma_bulks_contain(list.filter(p), m);
            lemma_filter_contains(list, p, m);
            assert(has_member(s.subkey, ns, a[base], ms[base].version, m) == list.contains(m));
            assert forall|j: int| 0 <= j < a.len() implies (sismember_reply(
                s,
                ns,
                seq![#[trigger] a[j], m],
                now_ms,
            ) == Ok::<_, ErrorView>(RespView::Integer(1))) == has_member(
                s.subkey,
                ns,
                a[j],
                ms[j].version,
                m,
            ) by {
                assert(set_meta(s, ns, a[j], now_ms) == Ok::<_, ErrorView>(Some(ms[j])));
            }
            if p(m) {
                assert(has_member(s.subkey, ns, a[base], ms[base].version, m));
            }
        },
    }
}

pub(crate) proof fn lemma_missing_set(
    s: StoreView,
    ns: Seq<u8>,
    a: Seq<Seq<u8>>,
    now_ms: i64,
    n: nat,
) -> (i: int)
    requires
        n <= a.len(),
        all_metas(s, ns, a, now_ms, n) == Ok::<Option<Seq<Metadata>>, ErrorView>(None),
    ensures
        0 <= i < n,
        set_meta(s, ns, a[i], now_ms) == Ok::<Option<Metadata>, ErrorView>(None),
    decreases n,
{
    if all_metas(s, ns, a, now_ms, (n - 1) as nat) == Ok::<Option<Seq<Metadata>>, ErrorView>(
        None,
    ) {
        lemma_missing_set(s, ns, a, now_ms, (n - 1) as nat)
    } else {
        n - 1
    }
}

/// SDIFF replies exactly the members of the first set that no other set has.
pub proof fn law_sdiff_is_difference(
    s: StoreView,
    ns: Seq<u8>,
    a: Seq<Seq<u8>>,
    now_ms: i64,
    m: Seq<u8>,
)
    requires
        a.len() >= 1,
        keys_fit(a, ns),
        s.subkey.dom().finite(),
        sdiff_reply(s, ns, a, now_ms) is Ok,
    ensures
        replied(sdiff_reply(s, ns, a, now_ms), m) <==> sismember_reply(
            s,
            ns,
            seq![a[0], m],
            now_ms,
        ) == Ok::<_, ErrorView>(RespView::Integer(1)) && forall|j: int|
            1 <= j < a.len() ==> sismember_reply(s, ns, seq![#[trigger] a[j], m], now_ms) != Ok::<
                _,
                ErrorView,
            >(RespView::Integer(1)),
{
    match set_meta(s, ns, a[0], now_ms)->Ok_0 {
        None => {},
        Some(meta) => {
            let list = members(s.subkey, ns, a[0], meta.version);
            let p = in_no_other(s, ns, a, now_ms);
            assert(a[0].len() < 0x1_0000_0000);
            law_members(s.subkey, ns, a[0], meta.version);
            lemma_bulks_contain(list.filter(p), m);
            lemma_filter_contains(list, p, m);
            assert(has_member(s.subkey, ns, a[0], meta.version, m) == list.contains(m));
            assert forall|j: int| 1 <= j < a.len() implies (sismember_reply(
                s,
                ns,
                seq![#[trigger] a[j], m],
                now_ms,
            ) != Ok::<_, ErrorView>(RespView::Integer(1))) == (match set_meta(
                s,
                ns,
                a[j],
                now_ms,
            ) {
                Ok(Some(meta)) => !has_member(s.subkey, ns, a[j], meta.version, m),
                _ => true,
            }) by {}
        },
    }
}

proof fn lemma_merged(acc: Seq<Seq<u8>>, ms: Seq<Seq<u8>>, n: nat, m: Seq<u8>)
    requires
        n <= ms.len(),
        merged(acc, ms, n) is Some,
    ensures
        (merged(acc, ms, n)->0).contains(m) == (acc.contains(m) || ms.take(n as int).contains(m)),
    decreases n,
{
    if n > 0 {
        lemma_merged(acc, ms, (n - 1) as nat, m);
        let before = merged(acc, ms, (n - 1) as nat)->0;
        let head = ms.take(n - 1);
        let x = ms[n - 1];
        assert(ms.take(n as int) =~= head.push(x));
        if head.contains(m) {
            assert(ms.take(n as int)[head.index_of(m)] == m);
        }
        assert(ms.take(n as int)[n - 1] == x);
        if ms.take(n as int).contains(m) && m != x {
            assert(head[ms.take(n as int).index_of(m)] == m);
        }
        if before.contains(m) {
            assert(before.push(x)[before.index_of(m)] == m);
        }
        assert(before.push(x)[before.len() as int] == x);
        if before.push(x).contains(m) && m != x {
            assert(before[before.push(x).index_of(m)] == m);
        }
    }
}

proof fn lemma_union_of(
    s: StoreView,
    ns: Seq<u8>,
    a: Seq<Seq<u8>>,
    now_ms: i64,
    n: nat,
    m: Seq<u8>,
)
    requires
        n <= a.len(),
        keys_fit(a, ns),
        s.subkey.dom().finite(),
        union_of(s, ns, a, now_ms, n) is Ok,
    ensures
        (union_of(s, ns, a, now_ms, n)->Ok_0).contains(m) <==> exists|j: int|
            0 <= j < n && sismember_reply(s, ns, seq![#[trigger] a[j], m], now_ms) == Ok::<
                _,
                ErrorView,
            >(RespView::Integer(1)),
    decreases n,
{
    if n > 0 {
        lemma_union_of(s, ns, a, now_ms, (n - 1) as nat, m);
        let before = union_of(s, ns, a, now_ms, (n - 1) as nat)->Ok_0;
        let key = a[n - 1];
        match set_meta(s, ns, key, now_ms)->Ok_0 {
            None => {
                assert(sismember_reply(s, ns, seq![key, m], now_ms) == Ok::<_, ErrorView>(
                    RespView::Integer(0),
                ));
            },
            Some(meta) => {
                let ms = members(s.subkey, ns, key, meta.version);
                lemma_merged(before, ms, ms.len(), m);
                assert(ms.take(ms.len() as int) =~= ms);
                law_members(s.subkey, ns, key, meta.version);
                assert(has_member(s.subkey, ns, key, meta.version, m) == ms.contains(m));
                assert((sismember_reply(s, ns, seq![key, m], now_ms) == Ok::<_, ErrorView>(
                    RespView::Integer(1),
                )) == ms.contains(m));
            },
        }
        if exists|j: int|
            0 <= j < n && sismember_reply(s, ns, seq![#[trigger] a[j], m], now_ms) == Ok::<
                _,
                ErrorView,
            >(RespView::Integer(1)) {
            let j = choose|j: int|
                0 <= j < n && sismember_reply(s, ns, seq![#[trigger] a[j], m], now_ms) == Ok::<
                    _,
                    ErrorView,
                >(RespView::Integer(1));
            if j < n - 1 {
                assert(sismember_reply(s, ns, seq![a[j], m], now_ms) == Ok::<_, ErrorView>(
                    RespView::Integer(1),
                ));
            }
        }
    }
}

/// SUNION replies exactly what at least one of the sets has.
pub proof fn law_sunion_is_union(
    s: StoreView,
    ns: Seq<u8>,
    a: Seq<Seq<u8>>,
    now_ms: i64,
    m: Seq<u8>,
)
    requires
        a.len() >= 1,
        keys_fit(a, ns),
        s.subkey.dom().finite(),
        sunion_reply(s, ns, a, now_ms) is Ok,
    ensures
        replied(sunion_reply(s, ns, a, now_ms), m) <==> exists|j: int|
            0 <= j < a.len() && sismember_reply(s, ns, seq![#[trigger] a[j], m], now_ms) == Ok::<
                _,
                ErrorView,
            >(RespView::Integer(1)),
{
    lemma_union_of(s, ns, a, now_ms, a.len(), m);
    lemma_bulks_contain(union_of(s, ns, a, now_ms, a.len())->Ok_0, m);
}

/// A union that is too large has as many members as it may, and another one
/// follows; one that is not has no more members than it may, each once.
pub proof fn law_sunion_limit(acc: Seq<Seq<u8>>, ms: Seq<Seq<u8>>, n: nat)
    requires
        n <= ms.len(),
        acc.len() <= SET_UNION_RESULT_LIMIT,
        acc.no_duplicates(),
    ensures
        match merged(acc, ms, n) {
            Some(after) => after.len() <= SET_UNION_RESULT_LIMIT && after.no_duplicates(),
            None => exists|i: int| #[trigger] overflows(acc, ms, i) && i < n,
        },
    decreases n,
{
    if n > 0 {
        law_sunion_limit(acc, ms, (n - 1) as nat);
        if merged(acc, ms, (n - 1) as nat) is Some && merged(acc, ms, n) is None {
            assert(overflows(acc, ms, n - 1));
        }
        if merged(acc, ms, (n - 1) as nat) is None {
            let i = choose|i: int| #[trigger] overflows(acc, ms, i) && i < n - 1;
            assert(overflows(acc, ms, i) && i < n);
        }
    }
}

/// The union is full before the member at `i`, which it lacks.
pub open spec fn overflows(acc: Seq<Seq<u8>>, ms: Seq<Seq<u8>>, i: int) -> bool {
    0 <= i && match merged(acc, ms, i as nat) {
        Some(before) => before.len() == SET_UNION_RESULT_LIMIT && !before.contains(ms[i]),
        None => false,
    }
}

} // verus!
