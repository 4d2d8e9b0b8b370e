//! Commands on the server itself.

use super::string;
use super::string::read_alive;
use super::{array, expect_arg_count, ok, push_reply, CommandContext};
use crate::cmd;
use crate::codec;
use crate::config::ConfigView;
use crate::encoding;
use crate::error;
use crate::error::{ErrorView, KvdbResult};
use crate::order;
use crate::protocol;
use crate::protocol::{RespValue, RespView};
use crate::replication::{ReplicationRole, ReplicationView, RoleView};
use crate::storage;
use crate::storage::{Cf, StoreView};
use crate::table;
use crate::table::Entries;
use crate::text;
use vstd::prelude::*;
use vstd::string::*;
use vstd::utf8;

verus! {

/// Keys removed at a time.
pub const FLUSH_BATCH_SIZE: usize = 1024;

/// PING [message].
pub open spec fn ping_reply(a: Seq<Seq<u8>>) -> Result<RespView, ErrorView> {
    if a.len() == 0 {
        Ok(RespView::SimpleString("PONG"@))
    } else {
        Ok(cmd::bulk(Some(a[0])))
    }
}

pub fn ping(args: &[Vec<u8>]) -> (r: KvdbResult<RespValue>)
    ensures
        cmd::reply_view(r) == ping_reply(encoding::byte_seqs(args@)),
{
    if args.len() == 0 {
        Ok(RespValue::SimpleString("PONG".to_owned()))
    } else {
        Ok(RespValue::BulkString(Some(encoding::copy(&args[0]))))
    }
}

/// ECHO message.
pub open spec fn echo_reply(a: Seq<Seq<u8>>) -> Result<RespView, ErrorView> {
    if a.len() != 1 {
        Err(cmd::wrong_args("ECHO"@))
    } else {
        Ok(cmd::bulk(Some(a[0])))
    }
}

pub fn echo(args: &[Vec<u8>]) -> (r: KvdbResult<RespValue>)
    ensures
        cmd::reply_view(r) == echo_reply(encoding::byte_seqs(args@)),
{
    match expect_arg_count("ECHO", args, 1) {
        Ok(_) => Ok(RespValue::BulkString(Some(encoding::copy(&args[0])))),
        Err(e) => Err(e),
    }
}

/// The role as INFO shows it.
pub open spec fn role_text(r: RoleView) -> Seq<char> {
    match r {
        RoleView::Master => "master"@,
        RoleView::Replica { host, port } => "slave:"@ + host + ":"@ + text::chars_of(
            text::dec(port as nat),
        ),
    }
}

/// The text of INFO.
pub open spec fn info_text(c: ConfigView, r: ReplicationView) -> Seq<char> {
    "# Server\r\nkvdb_version:0.1.0\r\nconfig_file:"@ + (match c.config_file {
        Some(p) => p,
        None => Seq::empty(),
    }) + "\r\nnamespace:"@ + c.server.namespace + "\r\n\r\n# Clients\r\nmaxclients:"@
        + text::chars_of(text::dec_signed(c.server.maxclients as int))
        + "\r\n\r\n# Persistence\r\ndb_path:"@ + c.storage.db_path
        + "\r\n\r\n# Replication\r\nrole:"@ + role_text(r.role) + "\r\nmaster_replid:"@
        + r.master_replid + "\r\nmaster_repl_offset:"@ + text::chars_of(
        text::dec(r.master_repl_offset as nat),
    ) + "\r\n"@
}

/// INFO: what the server is and does, whatever the arguments are.
pub fn info(ctx: &CommandContext) -> (r: RespValue)
    ensures
        r@ == cmd::bulk(Some(utf8::encode_utf8(info_text(ctx.config@, ctx.replication@)))),
{
    let c = ctx.config.get();
    let mut t = "# Server\r\nkvdb_version:0.1.0\r\nconfig_file:".to_owned();
    match &c.config_file {
        Some(p) => t.append(p.as_str()),
        None => {
            proof {
                assert(t@ + Seq::<char>::empty() =~= t@);
            }
        },
    }
    t.append("\r\nnamespace:");
    t.append(c.server.namespace.as_str());
    t.append("\r\n\r\n# Clients\r\nmaxclients:");
    text::append_signed(&mut t, c.server.maxclients);
    t.append("\r\n\r\n# Persistence\r\ndb_path:");
    t.append(c.storage.db_path.as_str());
    t.append("\r\n\r\n# Replication\r\nrole:");
    match ctx.replication.role() {
        ReplicationRole::Master => t.append("master"),
        ReplicationRole::Replica { host, port } => {
            let mut shown = "slave:".to_owned();
            shown.append(host.as_str());
            shown.append(":");
            text::append_dec(&mut shown, port as u64);
            t.append(shown.as_str());
        },
    }
    t.append("\r\nmaster_replid:");
    t.append(ctx.replication.master_replid().as_str());
    t.append("\r\nmaster_repl_offset:");
    text::append_dec(&mut t, ctx.replication.master_repl_offset());
    t.append("\r\n");
    RespValue::BulkString(Some(text::bytes_of(t.as_str())))
}

/// How many of the first `n` records are alive.
pub open spec fn alive_among(e: Entries, ks: Seq<Seq<u8>>, now_ms: i64, n: nat) -> nat
    decreases n,
{
    if n == 0 {
        0
    } else {
        alive_among(e, ks, now_ms, (n - 1) as nat) + (if string::alive(e[ks[n - 1]], now_ms) {
            1nat
        } else {
            0nat
        })
    }
}

/// DBSIZE: how many keys of the namespace are alive.
pub open spec fn dbsize_reply(s: StoreView, ns: Seq<u8>, now_ms: i64) -> RespView {
    let ks = table::keys_with(s.metadata, encoding::ns_prefix(ns));
    RespView::Integer(alive_among(s.metadata, ks, now_ms, ks.len()) as i64)
}

fn namespace_prefix(ctx: &CommandContext) -> (p: Vec<u8>)
    ensures
        p@ == encoding::ns_prefix(ctx.namespace@),
{
    let mut p: Vec<u8> = Vec::new();
    if ctx.namespace.len() > 0 {
        p.push((ctx.namespace.len() % 256) as u8);
        encoding::extend(&mut p, &ctx.namespace);
    }
    proof {
        assert(p@ =~= encoding::ns_prefix(ctx.namespace@));
    }
    p
}

pub fn dbsize(ctx: &CommandContext, now_ms: i64) -> (r: RespValue)
    ensures
        r@ == dbsize_reply(ctx.storage@, ctx.namespace@, now_ms),
{
    let prefix = namespace_prefix(ctx);
    let items = ctx.storage.scan_in(Cf::Metadata, &prefix);
    let ghost e = ctx.storage@.metadata;
    let ghost ks = table::keys_with(e, prefix@);
    let mut count: u64 = 0;
    let mut i: usize = 0;
    proof {
        assert(table::pairs_of(items@).len() == items@.len());
        assert(table::entries_at(e, ks).len() == ks.len());
    }
    while i < items.len()
        invariant
            i <= items@.len(),
            count <= i,
            items@.len() == ks.len(),
            table::pairs_of(items@) == table::entries_at(e, ks),
            count == alive_among(e, ks, now_ms, i as nat),
        decreases items.len() - i,
    {
        proof {
            assert(table::pairs_of(items@)[i as int] == table::entries_at(e, ks)[i as int]);
        }
        if read_alive(&items[i].1, now_ms) {
            count = count + 1;
        }
        i = i + 1;
    }
    proof {
        assert(items.len() == items@.len());
    }
    RespValue::Integer(count as i64)
}

/// The store without anything of a namespace.
pub open spec fn flushed(s: StoreView, ns: Seq<u8>) -> StoreView {
    let p = encoding::ns_prefix(ns);
    StoreView {
        metadata: storage::without_prefix(s.metadata, p),
        subkey: storage::without_prefix(s.subkey, p),
        zset_score: storage::without_prefix(s.zset_score, p),
        ..s
    }
}

/// The store without the keys of any namespace.
pub open spec fn emptied(s: StoreView) -> StoreView {
    StoreView { metadata: Map::empty(), subkey: Map::empty(), zset_score: Map::empty(), ..s }
}

fn flush(ctx: &mut CommandContext, prefix: &Vec<u8>)
    ensures
        final(ctx).storage@ == (StoreView {
            metadata: storage::without_prefix(old(ctx).storage@.metadata, prefix@),
            subkey: storage::without_prefix(old(ctx).storage@.subkey, prefix@),
            zset_score: storage::without_prefix(old(ctx).storage@.zset_score, prefix@),
            ..old(ctx).storage@
        }),
        final(ctx).kept(*old(ctx)),
{
    ctx.storage.delete_prefix_in(Cf::Metadata, prefix, FLUSH_BATCH_SIZE);
    let ghost first = ctx.storage;
    ctx.storage.delete_prefix_in(Cf::Subkey, prefix, FLUSH_BATCH_SIZE);
    let ghost second = ctx.storage;
    ctx.storage.delete_prefix_in(Cf::ZsetScore, prefix, FLUSH_BATCH_SIZE);
    proof {
        second.lemma_follows_transitive(first, old(ctx).storage);
        ctx.storage.lemma_follows_transitive(second, old(ctx).storage);
    }
}

/// FLUSHDB: removes everything of the namespace.
pub fn flushdb(ctx: &mut CommandContext) -> (r: RespValue)
    ensures
        r@ == cmd::ok_reply(),
        final(ctx).storage@ == flushed(old(ctx).storage@, old(ctx).namespace@),
        final(ctx).kept(*old(ctx)),
{
    let prefix = namespace_prefix(ctx);
    flush(ctx, &prefix);
    ok()
}

/// FLUSHALL: removes everything of all namespaces.
pub fn flushall(ctx: &mut CommandContext) -> (r: RespValue)
    ensures
        r@ == cmd::ok_reply(),
        final(ctx).storage@ == emptied(old(ctx).storage@),
        final(ctx).kept(*old(ctx)),
{
    let prefix: Vec<u8> = Vec::new();
    flush(ctx, &prefix);
    proof {
        let s = old(ctx).storage@;
        assert forall|k: Seq<u8>| order::has_prefix(k, prefix@) by {
            assert(k.subrange(0, 0) =~= prefix@);
        }
        assert(storage::without_prefix(s.metadata, prefix@) =~= Map::<Seq<u8>, Seq<u8>>::empty());
        assert(storage::without_prefix(s.subkey, prefix@) =~= Map::<Seq<u8>, Seq<u8>>::empty());
        assert(storage::without_prefix(s.zset_score, prefix@) =~= Map::<
            Seq<u8>,
            Seq<u8>,
        >::empty());
    }
    ok()
}

/// The port that a text writes.
pub open spec fn port_in(s: Seq<u8>) -> Option<u16> {
    match text::unsigned_upto(s, 65535) {
        Some(n) => Some(n as u16),
        None => None,
    }
}

/// What REPLICAOF makes of the state of replication: NO ONE promotes the node
/// to a master, a host and a port make it a replica.
pub open spec fn replicaof_result(r: ReplicationView, a: Seq<Seq<u8>>) -> Result<
    ReplicationView,
    ErrorView,
> {
    if a.len() != 2 {
        Err(cmd::wrong_args("REPLICAOF"@))
    } else if text::is_word(a[0], "NO"@) && text::is_word(a[1], "ONE"@) {
        Ok(ReplicationView { role: RoleView::Master, ..r })
    } else {
        match port_in(a[1]) {
            None => Err(ErrorView::Command("port must be a valid integer"@)),
            Some(port) => Ok(
                ReplicationView {
                    role: RoleView::Replica { host: text::text_in(a[0]), port },
                    ..r
                },
            ),
        }
    }
}

pub fn replicaof(ctx: &mut CommandContext, args: &[Vec<u8>]) -> (r: KvdbResult<RespValue>)
    ensures
        match replicaof_result(old(ctx).replication@, encoding::byte_seqs(args@)) {
            Ok(after) => cmd::reply_view(r) == Ok::<RespView, ErrorView>(cmd::ok_reply())
                && final(ctx).replication@ == after,
            Err(e) => cmd::reply_view(r) == Err::<RespView, ErrorView>(e)
                && final(ctx).replication == old(ctx).replication,
        },
        *final(ctx) == (CommandContext { replication: final(ctx).replication, ..*old(ctx) }),
{
    match expect_arg_count("REPLICAOF", args, 2) {
        Ok(_) => {},
        Err(e) => return Err(e),
    }
    if text::matches_word(&args[0], "NO") && text::matches_word(&args[1], "ONE") {
        ctx.replication.set_master();
        return Ok(ok());
    }
    let port: u16 = match text::parse_u64(&args[1]) {
        Some(n) => if n <= 65535 {
            n as u16
        } else {
            return Err(error::command_error("port must be a valid integer"));
        },
        None => return Err(error::command_error("port must be a valid integer")),
    };
    ctx.replication.set_replica(text::lossy(&args[0]), port);
    Ok(ok())
}

/// An ASCII word as a bulk reply.
pub open spec fn word(w: Seq<char>) -> RespView {
    cmd::bulk(Some(utf8::encode_utf8(w)))
}

/// A number of 64 bits as a reply.
pub open spec fn offset_reply(n: u64) -> RespView {
    RespView::Integer(codec::from_bits(n as nat) as i64)
}

/// ROLE.
pub open spec fn role_reply(r: ReplicationView) -> RespView {
    match r.role {
        RoleView::Master => RespView::Array(seq![word("master"@), offset_reply(r.local_offset)]),
        RoleView::Replica { host, port } => RespView::Array(
            seq![
                word("slave"@),
                word(host),
                RespView::Integer(port as i64),
                word("connected"@),
                offset_reply(r.master_repl_offset),
            ],
        ),
    }
}

pub fn role(ctx: &CommandContext) -> (r: RespValue)
    ensures
        r@ == role_reply(ctx.replication@),
{
    let mut items: Vec<RespValue> = Vec::new();
    let ghost want = role_reply(ctx.replication@)->Array_0;
    match ctx.replication.role() {
        ReplicationRole::Master => {
            push_reply(&mut items, RespValue::BulkString(Some(text::bytes_of("master"))));
            push_reply(
                &mut items,
                RespValue::Integer(codec::signed_of(ctx.replication.local_offset())),
            );
        },
        ReplicationRole::Replica { host, port } => {
            push_reply(&mut items, RespValue::BulkString(Some(text::bytes_of("slave"))));
            push_reply(&mut items, RespValue::BulkString(Some(text::bytes_of(host.as_str()))));
            push_reply(&mut items, RespValue::Integer(port as i64));
            push_reply(&mut items, RespValue::BulkString(Some(text::bytes_of("connected"))));
            push_reply(
                &mut items,
                RespValue::Integer(codec::signed_of(ctx.replication.master_repl_offset())),
            );
        },
    }
    proof {
        assert(protocol::views(items@) =~= want);
    }
    array(items)
}

/// The records of a namespace that are alive: those without an expiry time, or
/// with one that is still to come.
pub open spec fn living(s: StoreView, ns: Seq<u8>, now_ms: i64) -> Set<Seq<u8>> {
    Set::new(
        |k: Seq<u8>|
            s.metadata.contains_key(k) && order::has_prefix(k, encoding::ns_prefix(ns)) && (
            s.metadata[k].len() < 9 || encoding::i64_at(s.metadata[k], 1) <= 0 || now_ms
                < encoding::i64_at(s.metadata[k], 1)),
    )
}

/// DBSIZE replies how many records of its namespace are alive, each counted once.
pub proof fn law_dbsize_counts_the_living(s: StoreView, ns: Seq<u8>, now_ms: i64)
    requires
        s.metadata.dom().finite(),
    ensures
        living(s, ns, now_ms).finite(),
        dbsize_reply(s, ns, now_ms) == RespView::Integer(living(s, ns, now_ms).len() as i64),
{
    let p = encoding::ns_prefix(ns);
    let ks = table::keys_with(s.metadata, p);
    table::lemma_runs_listed(s.metadata, p, Seq::empty());
    lemma_living(s, ks, now_ms, ks.len());
    let all = living_among(s, ks, now_ms, ks.len());
    assert forall|k: Seq<u8>| living(s, ns, now_ms).contains(k) == all.contains(k) by {
        assert(table::with_prefix(s.metadata, p).contains(k) == (s.metadata.contains_key(k)
            && order::has_prefix(k, p)));
        if table::with_prefix(s.metadata, p).contains(k) {
            let i = ks.index_of(k);
            assert(ks[i] == k);
        }
        if all.contains(k) {
            let i = choose|i: int| 0 <= i < ks.len() && #[trigger] ks[i] == k;
            assert(table::with_prefix(s.metadata, p).contains(ks[i]));
        }
    }
    assert(living(s, ns, now_ms) =~= all);
}

spec fn living_among(s: StoreView, ks: Seq<Seq<u8>>, now_ms: i64, n: nat) -> Set<Seq<u8>>
    decreases n,
{
    if n == 0 {
        Set::empty()
    } else if string::alive(s.metadata[ks[n - 1]], now_ms) {
        living_among(s, ks, now_ms, (n - 1) as nat).insert(ks[n - 1])
    } else {
        living_among(s, ks, now_ms, (n - 1) as nat)
    }
}

proof fn lemma_living(s: StoreView, ks: Seq<Seq<u8>>, now_ms: i64, n: nat)
    requires
        order::ascending(ks),
        n <= ks.len(),
    ensures
        ({
            let set = living_among(s, ks, now_ms, n);
            &&& set.finite()
            &&& set.len() == alive_among(s.metadata, ks, now_ms, n)
            &&& forall|k: Seq<u8>| #[trigger]
                set.contains(k) <==> string::alive(s.metadata[k], now_ms) && exists|i: int|
                    0 <= i < n && #[trigger] ks[i] == k
        }),
    decreases n,
{
    if n > 0 {
        lemma_living(s, ks, now_ms, (n - 1) as nat);
        let before = living_among(s, ks, now_ms, (n - 1) as nat);
        let set = living_among(s, ks, now_ms, n);
        let last = ks[n - 1];
        assert(!before.contains(last)) by {
            if before.contains(last) {
                let i = choose|i: int| 0 <= i < n - 1 && #[trigger] ks[i] == last;
                order::lemma_ascending_injective(ks, i, n - 1);
            }
        }
        assert forall|k: Seq<u8>| #[trigger] set.contains(k) <==> string::alive(
            s.metadata[k],
            now_ms,
        ) && exists|i: int| 0 <= i < n && #[trigger] ks[i] == k by {
            if set.contains(k) && k != last {
                assert(before.contains(k));
                let i = choose|i: int| 0 <= i < n - 1 && #[trigger] ks[i] == k;
                assert(ks[i] == k);
            }
            if k == last {
                assert(ks[n - 1] == k);
            }
            if string::alive(s.metadata[k], now_ms) && exists|i: int|
                0 <= i < n && #[trigger] ks[i] == k {
                let i = choose|i: int| 0 <= i < n && #[trigger] ks[i] == k;
                if i < n - 1 {
                    assert(before.contains(k));
                }
            }
        }
    }
}

/// After REPLICAOF with a host and a port ROLE tells that the node is a replica of
/// these, and INFO does; after REPLICAOF NO ONE both tell that it is a master.
/// The offsets stay as they are. A port that is none is refused.
pub proof fn law_replicaof(r: ReplicationView, host: Seq<u8>, port: Seq<u8>)
    ensures
        ({
            let o = replicaof_result(r, seq![host, port]);
            let none = text::is_word(host, "NO"@) && text::is_word(port, "ONE"@);
            let number = text::unsigned_in(port);
            &&& none ==> o is Ok && role_reply(o->Ok_0) == RespView::Array(
                seq![
                    RespView::BulkString(Some(utf8::encode_utf8("master"@))),
                    role_offset(r.local_offset),
                ],
            ) && role_text(o->Ok_0.role) == "master"@
            &&& !none && (number is None || number->0 > 65535) ==> o == Err::<ReplicationView, _>(
                ErrorView::Command("port must be a valid integer"@),
            )
            &&& !none && number is Some && number->0 <= 65535 ==> {
                &&& o is Ok
                &&& role_reply(o->Ok_0) == RespView::Array(
                    seq![
                        RespView::BulkString(Some(utf8::encode_utf8("slave"@))),
                        RespView::BulkString(Some(utf8::encode_utf8(text::text_in(host)))),
                        RespView::Integer(number->0 as i64),
                        RespView::BulkString(Some(utf8::encode_utf8("connected"@))),
                        role_offset(r.master_repl_offset),
                    ],
                )
                &&& o->Ok_0.role == (RoleView::Replica {
                    host: text::text_in(host),
                    port: number->0 as u16,
                })
            }
            &&& o is Ok ==> o->Ok_0.master_replid == r.master_replid && o->Ok_0.local_offset
                == r.local_offset && o->Ok_0.master_repl_offset == r.master_repl_offset
        }),
{
    let a = seq![host, port];
    assert(a[0] == host && a[1] == port);
}

/// An offset as a reply: the number itself as long as it fits.
pub open spec fn role_offset(n: u64) -> RespView {
    RespView::Integer(
        if n < 0x8000_0000_0000_0000 {
            n as i64
        } else {
            (n - 0x1_0000_0000_0000_0000) as i64
        },
    )
}

} // verus!
