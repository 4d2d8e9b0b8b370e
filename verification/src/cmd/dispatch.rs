//! Which command does what: from the name and the arguments of a command to
//! the function that runs it.

use super::zset::Floats;
use super::{admin, bitmap, cluster, hash, list, lua, pubsub, settings, stream, string, zset};
use super::{CommandContext, Moment, Outcome};
use crate::clock;
use crate::cmd;
use crate::encoding;
use crate::error;
use crate::error::{ErrorView, KvdbError, KvdbResult};
use crate::lua::{CallView, ScriptCall};
use crate::protocol::{RespValue, RespView};
use crate::storage::StoreView;
use crate::text;
use vstd::prelude::*;
use vstd::string::*;
use vstd::utf8;

verus! {

/// A family of commands ran a command, or left it to others: its reply and the
/// store are as they must be, and all else is as it was.
pub open spec fn family_ran(
    want: Option<Outcome>,
    before: CommandContext,
    after: CommandContext,
    r: Option<KvdbResult<RespValue>>,
) -> bool {
    &&& after.kept(before)
    &&& match want {
        Some(o) => r is Some && cmd::outcome(r->0, after.storage@) == o,
        None => r is None && after == before,
    }
}

/// String commands and the commands on keys of every type.
#[verifier::opaque]
pub open spec fn string_family(
    s: StoreView,
    ns: Seq<u8>,
    c: Seq<u8>,
    a: Seq<Seq<u8>>,
    at: Moment,
) -> Option<Outcome> {
    if text::is_word(c, "GET"@) {
        Some(cmd::unchanged(string::get_reply(s, ns, a, at.now_ms), s))
    } else if text::is_word(c, "SET"@) {
        Some(string::set_outcome(s, ns, a, at.now_ms))
    } else if text::is_word(c, "MGET"@) {
        Some(cmd::unchanged(string::mget_reply(s, ns, a, at.now_ms), s))
    } else if text::is_word(c, "MSET"@) {
        Some(string::mset_outcome(s, ns, a))
    } else if text::is_word(c, "DEL"@) {
        Some(string::del_outcome(s, ns, a, at.now_ms))
    } else if text::is_word(c, "EXISTS"@) {
        Some(cmd::unchanged(string::exists_reply(s, ns, a, at.now_ms), s))
    } else if text::is_word(c, "INCR"@) {
        Some(string::step_outcome(s, ns, a, at.now_ms, "INCR"@, 1))
    } else if text::is_word(c, "DECR"@) {
        Some(string::step_outcome(s, ns, a, at.now_ms, "DECR"@, -1))
    } else if text::is_word(c, "APPEND"@) {
        Some(string::append_outcome(s, ns, a, at.now_ms))
    } else if text::is_word(c, "TTL"@) {
        Some(cmd::unchanged(string::ttl_reply(s, ns, a, at.now_ms, "TTL"@, true), s))
    } else if text::is_word(c, "PTTL"@) {
        Some(cmd::unchanged(string::ttl_reply(s, ns, a, at.now_ms, "PTTL"@, false), s))
    } else if text::is_word(c, "EXPIRE"@) {
        Some(string::expire_outcome(s, ns, a, at.now_ms))
    } else if text::is_word(c, "PERSIST"@) {
        Some(string::persist_outcome(s, ns, a, at.now_ms))
    } else {
        None
    }
}

fn run_string(ctx: &mut CommandContext, c: &[u8], args: &[Vec<u8>], at: Moment) -> (r: Option<
    KvdbResult<RespValue>,
>)
    ensures
        family_ran(
            string_family(
                old(ctx).storage@,
                old(ctx).namespace@,
                c@,
                encoding::byte_seqs(args@),
                at,
            ),
            *old(ctx),
            *final(ctx),
            r,
        ),
{
    proof {
        reveal(string_family);
        ctx.storage.lemma_follows_self();
    }
    if text::matches_word(c, "GET") {
        return Some(string::get(ctx, args, at.now_ms));
    }
    if text::matches_word(c, "SET") {
        return Some(string::set(ctx, args, at.now_ms));
    }
    if text::matches_word(c, "MGET") {
        return Some(string::mget(ctx, args, at.now_ms));
    }
    if text::matches_word(c, "MSET") {
        return Some(string::mset(ctx, args));
    }
    if text::matches_word(c, "DEL") {
        return Some(string::del(ctx, args, at.now_ms));
    }
    if text::matches_word(c, "EXISTS") {
        return Some(string::exists_keys(ctx, args, at.now_ms));
    }
    if text::matches_word(c, "INCR") {
        return Some(string::incr(ctx, args, at.now_ms));
    }
    if text::matches_word(c, "DECR") {
        return Some(string::decr(ctx, args, at.now_ms));
    }
    if text::matches_word(c, "APPEND") {
        return Some(string::append(ctx, args, at.now_ms));
    }
    if text::matches_word(c, "TTL") {
        return Some(string::ttl(ctx, args, at.now_ms));
    }
    if text::matches_word(c, "PTTL") {
        return Some(string::pttl(ctx, args, at.now_ms));
    }
    if text::matches_word(c, "EXPIRE") {
        return Some(string::expire(ctx, args, at.now_ms));
    }
    if text::matches_word(c, "PERSIST") {
        return Some(string::persist(ctx, args, at.now_ms));
    }
    None
}

/// Hash commands.
#[verifier::opaque]
pub open spec fn hash_family(
    s: StoreView,
    ns: Seq<u8>,
    c: Seq<u8>,
    a: Seq<Seq<u8>>,
    at: Moment,
) -> Option<Outcome> {
    if text::is_word(c, "HSET"@) {
        Some(hash::hset_outcome(s, ns, a, at))
    } else if text::is_word(c, "HGET"@) {
        Some(cmd::unchanged(hash::hget_reply(s, ns, a, at.now_ms), s))
    } else if text::is_word(c, "HMGET"@) {
        Some(cmd::unchanged(hash::hmget_reply(s, ns, a, at.now_ms), s))
    } else if text::is_word(c, "HGETALL"@) {
        Some(cmd::unchanged(hash::hgetall_reply(s, ns, a, at.now_ms), s))
    } else if text::is_word(c, "HDEL"@) {
        Some(hash::hdel_outcome(s, ns, a, at.now_ms))
    } else if text::is_word(c, "HEXISTS"@) {
        Some(cmd::unchanged(hash::hexists_reply(s, ns, a, at.now_ms), s))
    } else if text::is_word(c, "HLEN"@) {
        Some(cmd::unchanged(hash::hlen_reply(s, ns, a, at.now_ms), s))
    } else if text::is_word(c, "HSCAN"@) {
        Some(cmd::unchanged(hash::hscan_reply(s, ns, a, at.now_ms), s))
    } else {
        None
    }
}

fn run_hash(ctx: &mut CommandContext, c: &[u8], args: &[Vec<u8>], at: Moment) -> (r: Option<
    KvdbResult<RespValue>,
>)
    ensures
        family_ran(
            hash_family(
                old(ctx).storage@,
                old(ctx).namespace@,
                c@,
                encoding::byte_seqs(args@),
                at,
            ),
            *old(ctx),
            *final(ctx),
            r,
        ),
{
    proof {
        reveal(hash_family);
        ctx.storage.lemma_follows_self();
    }
    if text::matches_word(c, "HSET") {
        return Some(hash::hset(ctx, args, at));
    }
    if text::matches_word(c, "HGET") {
        return Some(hash::hget(ctx, args, at.now_ms));
    }
    if text::matches_word(c, "HMGET") {
        return Some(hash::hmget(ctx, args, at.now_ms));
    }
    if text::matches_word(c, "HGETALL") {
        return Some(hash::hgetall(ctx, args, at.now_ms));
    }
    if text::matches_word(c, "HDEL") {
        return Some(hash::hdel(ctx, args, at.now_ms));
    }
    if text::matches_word(c, "HEXISTS") {
        return Some(hash::hexists(ctx, args, at.now_ms));
    }
    if text::matches_word(c, "HLEN") {
        return Some(hash::hlen(ctx, args, at.now_ms));
    }
    if text::matches_word(c, "HSCAN") {
        return Some(hash::hscan(ctx, args, at.now_ms));
    }
    None
}

/// List commands.
#[verifier::opaque]
pub open spec fn list_family(
    s: StoreView,
    ns: Seq<u8>,
    c: Seq<u8>,
    a: Seq<Seq<u8>>,
    at: Moment,
) -> Option<Outcome> {
    if text::is_word(c, "LPUSH"@) {
        Some(list::push_outcome(s, ns, a, at, true))
    } else if text::is_word(c, "RPUSH"@) {
        Some(list::push_outcome(s, ns, a, at, false))
    } else if text::is_word(c, "LPOP"@) {
        Some(list::pop_outcome(s, ns, a, at.now_ms, true))
    } else if text::is_word(c, "RPOP"@) {
        Some(list::pop_outcome(s, ns, a, at.now_ms, false))
    } else if text::is_word(c, "LRANGE"@) {
        Some(cmd::unchanged(list::lrange_reply(s, ns, a, at.now_ms), s))
    } else if text::is_word(c, "LINDEX"@) {
        Some(cmd::unchanged(list::lindex_reply(s, ns, a, at.now_ms), s))
    } else if text::is_word(c, "LLEN"@) {
        Some(cmd::unchanged(list::llen_reply(s, ns, a, at.now_ms), s))
    } else {
        None
    }
}

fn run_list(ctx: &mut CommandContext, c: &[u8], args: &[Vec<u8>], at: Moment) -> (r: Option<
    KvdbResult<RespValue>,
>)
    ensures
        family_ran(
            list_family(
                old(ctx).storage@,
                old(ctx).namespace@,
                c@,
                encoding::byte_seqs(args@),
                at,
            ),
            *old(ctx),
            *final(ctx),
            r,
        ),
{
    proof {
        reveal(list_family);
        ctx.storage.lemma_follows_self();
    }
    if text::matches_word(c, "LPUSH") {
        return Some(list::lpush(ctx, args, at));
    }
    if text::matches_word(c, "RPUSH") {
        return Some(list::rpush(ctx, args, at));
    }
    if text::matches_word(c, "LPOP") {
        return Some(list::lpop(ctx, args, at.now_ms));
    }
    if text::matches_word(c, "RPOP") {
        return Some(list::rpop(ctx, args, at.now_ms));
    }
    if text::matches_word(c, "LRANGE") {
        return Some(list::lrange(ctx, args, at.now_ms));
    }
    if text::matches_word(c, "LINDEX") {
        return Some(list::lindex(ctx, args, at.now_ms));
    }
    if text::matches_word(c, "LLEN") {
        return Some(list::llen(ctx, args, at.now_ms));
    }
    None
}

/// Set commands.
#[verifier::opaque]
pub open spec fn set_family(
    s: StoreView,
    ns: Seq<u8>,
    c: Seq<u8>,
    a: Seq<Seq<u8>>,
    at: Moment,
) -> Option<Outcome> {
    if text::is_word(c, "SADD"@) {
        Some(cmd::set::sadd_outcome(s, ns, a, at))
    } else if text::is_word(c, "SREM"@) {
        Some(cmd::set::srem_outcome(s, ns, a, at.now_ms))
    } else if text::is_word(c, "SPOP"@) {
        Some(cmd::set::spop_outcome(s, ns, a, at))
    } else if text::is_word(c, "SISMEMBER"@) {
        Some(cmd::unchanged(cmd::set::sismember_reply(s, ns, a, at.now_ms), s))
    } else if text::is_word(c, "SMEMBERS"@) {
        Some(cmd::unchanged(cmd::set::smembers_reply(s, ns, a, at.now_ms), s))
    } else if text::is_word(c, "SCARD"@) {
        Some(cmd::unchanged(cmd::set::scard_reply(s, ns, a, at.now_ms), s))
    } else if text::is_word(c, "SINTER"@) {
        Some(cmd::unchanged(cmd::set::sinter_reply(s, ns, a, at.now_ms), s))
    } else if text::is_word(c, "SDIFF"@) {
        Some(cmd::unchanged(cmd::set::sdiff_reply(s, ns, a, at.now_ms), s))
    } else if text::is_word(c, "SUNION"@) {
        Some(cmd::unchanged(cmd::set::sunion_reply(s, ns, a, at.now_ms), s))
    } else {
        None
    }
}

fn run_set(ctx: &mut CommandContext, c: &[u8], args: &[Vec<u8>], at: Moment) -> (r: Option<
    KvdbResult<RespValue>,
>)
    ensures
        family_ran(
            set_family(
                old(ctx).storage@,
                old(ctx).namespace@,
                c@,
                encoding::byte_seqs(args@),
                at,
            ),
            *old(ctx),
            *final(ctx),
            r,
        ),
{
    proof {
        reveal(set_family);
        ctx.storage.lemma_follows_self();
    }
    if text::matches_word(c, "SADD") {
        return Some(cmd::set::sadd(ctx, args, at));
    }
    if text::matches_word(c, "SREM") {
        return Some(cmd::set::srem(ctx, args, at.now_ms));
    }
    if text::matches_word(c, "SPOP") {
        return Some(cmd::set::spop(ctx, args, at));
    }
    if text::matches_word(c, "SISMEMBER") {
        return Some(cmd::set::sismember(ctx, args, at.now_ms));
    }
    if text::matches_word(c, "SMEMBERS") {
        return Some(cmd::set::smembers(ctx, args, at.now_ms));
    }
    if text::matches_word(c, "SCARD") {
        return Some(cmd::set::scard(ctx, args, at.now_ms));
    }
    if text::matches_word(c, "SINTER") {
        return Some(cmd::set::sinter(ctx, args, at.now_ms));
    }
    if text::matches_word(c, "SDIFF") {
        return Some(cmd::set::sdiff(ctx, args, at.now_ms));
    }
    if text::matches_word(c, "SUNION") {
        return Some(cmd::set::sunion(ctx, args, at.now_ms));
    }
    None
}

/// Sorted set commands.
#[verifier::opaque]
pub open spec fn zset_family(
    s: StoreView,
    ns: Seq<u8>,
    c: Seq<u8>,
    a: Seq<Seq<u8>>,
    at: Moment,
    scores: Seq<Option<u64>>,
    sum: u64,
) -> Option<Outcome> {
    if text::is_word(c, "ZADD"@) {
        Some(zset::zadd_outcome(s, ns, a, at, scores, sum))
    } else if text::is_word(c, "ZINCRBY"@) {
        Some(zset::zincrby_outcome(s, ns, a, at, scores, sum))
    } else if text::is_word(c, "ZREM"@) {
        Some(zset::zrem_outcome(s, ns, a, at.now_ms))
    } else if text::is_word(c, "ZSCORE"@) {
        Some(cmd::unchanged(zset::zscore_reply(s, ns, a, at.now_ms), s))
    } else if text::is_word(c, "ZCARD"@) {
        Some(cmd::unchanged(zset::zcard_reply(s, ns, a, at.now_ms), s))
    } else if text::is_word(c, "ZRANK"@) {
        Some(cmd::unchanged(zset::zrank_reply(s, ns, a, at.now_ms, false), s))
    } else if text::is_word(c, "ZREVRANK"@) {
        Some(cmd::unchanged(zset::zrank_reply(s, ns, a, at.now_ms, true), s))
    } else if text::is_word(c, "ZRANGE"@) {
        Some(cmd::unchanged(zset::zrange_reply(s, ns, a, at.now_ms, false), s))
    } else if text::is_word(c, "ZREVRANGE"@) {
        Some(cmd::unchanged(zset::zrange_reply(s, ns, a, at.now_ms, true), s))
    } else if text::is_word(c, "ZRANGEBYSCORE"@) {
        Some(cmd::unchanged(zset::zrangebyscore_reply(s, ns, a, at.now_ms, scores, false), s))
    } else if text::is_word(c, "ZREVRANGEBYSCORE"@) {
        Some(cmd::unchanged(zset::zrangebyscore_reply(s, ns, a, at.now_ms, scores, true), s))
    } else {
        None
    }
}

fn run_zset(ctx: &mut CommandContext, c: &[u8], args: &[Vec<u8>], at: Moment, floats: &Floats) -> (r: Option<
    KvdbResult<RespValue>,
>)
    ensures
        family_ran(
            zset_family(
                old(ctx).storage@,
                old(ctx).namespace@,
                c@,
                encoding::byte_seqs(args@),
                at,
                floats.scores@,
                floats.sum,
            ),
            *old(ctx),
            *final(ctx),
            r,
        ),
{
    proof {
        reveal(zset_family);
        ctx.storage.lemma_follows_self();
    }
    if text::matches_word(c, "ZADD") {
        return Some(zset::zadd(ctx, args, at, floats));
    }
    if text::matches_word(c, "ZINCRBY") {
        return Some(zset::zincrby(ctx, args, at, floats));
    }
    if text::matches_word(c, "ZREM") {
        return Some(zset::zrem(ctx, args, at.now_ms));
    }
    if text::matches_word(c, "ZSCORE") {
        return Some(zset::zscore(ctx, args, at.now_ms));
    }
    if text::matches_word(c, "ZCARD") {
        return Some(zset::zcard(ctx, args, at.now_ms));
    }
    if text::matches_word(c, "ZRANK") {
        return Some(zset::zrank(ctx, args, at.now_ms));
    }
    if text::matches_word(c, "ZREVRANK") {
        return Some(zset::zrevrank(ctx, args, at.now_ms));
    }
    if text::matches_word(c, "ZRANGE") {
        return Some(zset::zrange(ctx, args, at.now_ms));
    }
    if text::matches_word(c, "ZREVRANGE") {
        return Some(zset::zrevrange(ctx, args, at.now_ms));
    }
    if text::matches_word(c, "ZRANGEBYSCORE") {
        return Some(zset::zrangebyscore(ctx, args, at.now_ms, floats));
    }
    if text::matches_word(c, "ZREVRANGEBYSCORE") {
        return Some(zset::zrevrangebyscore(ctx, args, at.now_ms, floats));
    }
    None
}

/// Stream commands.
#[verifier::opaque]
pub open spec fn stream_family(
    s: StoreView,
    ns: Seq<u8>,
    c: Seq<u8>,
    a: Seq<Seq<u8>>,
    at: Moment,
) -> Option<Outcome> {
    if text::is_word(c, "XADD"@) {
        Some(stream::xadd_outcome(s, ns, a, at))
    } else if text::is_word(c, "XLEN"@) {
        Some(cmd::unchanged(stream::xlen_reply(s, ns, a, at.now_ms), s))
    } else if text::is_word(c, "XRANGE"@) {
        Some(cmd::unchanged(stream::xrange_reply(s, ns, a, at.now_ms), s))
    } else if text::is_word(c, "XREAD"@) {
        Some(cmd::unchanged(stream::xread_reply(s, ns, a, at.now_ms), s))
    } else {
        None
    }
}

fn run_stream(ctx: &mut CommandContext, c: &[u8], args: &[Vec<u8>], at: Moment) -> (r: Option<
    KvdbResult<RespValue>,
>)
    ensures
        family_ran(
            stream_family(
                old(ctx).storage@,
                old(ctx).namespace@,
                c@,
                encoding::byte_seqs(args@),
                at,
            ),
            *old(ctx),
            *final(ctx),
            r,
        ),
{
    proof {
        reveal(stream_family);
        ctx.storage.lemma_follows_self();
    }
    if text::matches_word(c, "XADD") {
        return Some(stream::xadd(ctx, args, at));
    }
    if text::matches_word(c, "XLEN") {
        return Some(stream::xlen(ctx, args, at.now_ms));
    }
    if text::matches_word(c, "XRANGE") {
        return Some(stream::xrange(ctx, args, at.now_ms));
    }
    if text::matches_word(c, "XREAD") {
        return Some(stream::xread(ctx, args, at.now_ms));
    }
    None
}

/// Bitmap commands.
#[verifier::opaque]
pub open spec fn bitmap_family(
    s: StoreView,
    ns: Seq<u8>,
    c: Seq<u8>,
    a: Seq<Seq<u8>>,
    at: Moment,
) -> Option<Outcome> {
    if text::is_word(c, "SETBIT"@) {
        Some(bitmap::setbit_outcome(s, ns, a, at))
    } else if text::is_word(c, "GETBIT"@) {
        Some(cmd::unchanged(bitmap::getbit_reply(s, ns, a, at.now_ms), s))
    } else if text::is_word(c, "BITCOUNT"@) {
        Some(cmd::unchanged(bitmap::bitcount_reply(s, ns, a, at.now_ms), s))
    } else if text::is_word(c, "BITOP"@) {
        Some(bitmap::bitop_outcome(s, ns, a, at))
    } else {
        None
    }
}

fn run_bitmap(ctx: &mut CommandContext, c: &[u8], args: &[Vec<u8>], at: Moment) -> (r: Option<
    KvdbResult<RespValue>,
>)
    ensures
        family_ran(
            bitmap_family(
                old(ctx).storage@,
                old(ctx).namespace@,
                c@,
                encoding::byte_seqs(args@),
                at,
            ),
            *old(ctx),
            *final(ctx),
            r,
        ),
{
    proof {
        reveal(bitmap_family);
        ctx.storage.lemma_follows_self();
    }
    if text::matches_word(c, "SETBIT") {
        return Some(bitmap::setbit(ctx, args, at));
    }
    if text::matches_word(c, "GETBIT") {
        return Some(bitmap::getbit(ctx, args, at.now_ms));
    }
    if text::matches_word(c, "BITCOUNT") {
        return Some(bitmap::bitcount(ctx, args, at.now_ms));
    }
    if text::matches_word(c, "BITOP") {
        return Some(bitmap::bitop(ctx, args, at));
    }
    None
}

/// The commands on the whole store.
#[verifier::opaque]
pub open spec fn store_family(s: StoreView, ns: Seq<u8>, c: Seq<u8>, at: Moment) -> Option<
    Outcome,
> {
    if text::is_word(c, "DBSIZE"@) {
        Some(cmd::unchanged(Ok(admin::dbsize_reply(s, ns, at.now_ms)), s))
    } else if text::is_word(c, "FLUSHDB"@) {
        Some(Outcome { reply: Ok(cmd::ok_reply()), store: admin::flushed(s, ns) })
    } else if text::is_word(c, "FLUSHALL"@) {
        Some(Outcome { reply: Ok(cmd::ok_reply()), store: admin::emptied(s) })
    } else {
        None
    }
}

fn run_store(ctx: &mut CommandContext, c: &[u8], at: Moment) -> (r: Option<KvdbResult<RespValue>>)
    ensures
        family_ran(
            store_family(old(ctx).storage@, old(ctx).namespace@, c@, at),
            *old(ctx),
            *final(ctx),
            r,
        ),
{
    proof {
        reveal(store_family);
        ctx.storage.lemma_follows_self();
    }
    if text::matches_word(c, "DBSIZE") {
        return Some(Ok(admin::dbsize(ctx, at.now_ms)));
    }
    if text::matches_word(c, "FLUSHDB") {
        return Some(Ok(admin::flushdb(ctx)));
    }
    if text::matches_word(c, "FLUSHALL") {
        return Some(Ok(admin::flushall(ctx)));
    }
    None
}

/// What a command on data does; nothing for any other command. `scores` and
/// `sum` are the floating point work that it takes as given.
pub open spec fn data_outcome(
    s: StoreView,
    ns: Seq<u8>,
    c: Seq<u8>,
    a: Seq<Seq<u8>>,
    at: Moment,
    scores: Seq<Option<u64>>,
    sum: u64,
) -> Option<Outcome> {
    either(
        string_family(s, ns, c, a, at),
        either(
            store_family(s, ns, c, at),
            either(
                hash_family(s, ns, c, a, at),
                either(
                    list_family(s, ns, c, a, at),
                    either(
                        set_family(s, ns, c, a, at),
                        either(
                            zset_family(s, ns, c, a, at, scores, sum),
                            either(
                                stream_family(s, ns, c, a, at),
                                bitmap_family(s, ns, c, a, at),
                            ),
                        ),
                    ),
                ),
            ),
        ),
    )
}

/// The first outcome, or else the second one.
pub open spec fn either(first: Option<Outcome>, second: Option<Outcome>) -> Option<Outcome> {
    if first is Some {
        first
    } else {
        second
    }
}

/// Runs a command on data.
pub fn run_data(ctx: &mut CommandContext, c: &[u8], args: &[Vec<u8>], at: Moment, floats: &Floats) -> (r:
    Option<KvdbResult<RespValue>>)
    ensures
        family_ran(
            data_outcome(
                old(ctx).storage@,
                old(ctx).namespace@,
                c@,
                encoding::byte_seqs(args@),
                at,
                floats.scores@,
                floats.sum,
            ),
            *old(ctx),
            *final(ctx),
            r,
        ),
{
    match run_string(ctx, c, args, at) {
        Some(r) => return Some(r),
        None => {},
    }
    match run_store(ctx, c, at) {
        Some(r) => return Some(r),
        None => {},
    }
    match run_hash(ctx, c, args, at) {
        Some(r) => return Some(r),
        None => {},
    }
    match run_list(ctx, c, args, at) {
        Some(r) => return Some(r),
        None => {},
    }
    match run_set(ctx, c, args, at) {
        Some(r) => return Some(r),
        None => {},
    }
    match run_zset(ctx, c, args, at, floats) {
        Some(r) => return Some(r),
        None => {},
    }
    match run_stream(ctx, c, args, at) {
        Some(r) => return Some(r),
        None => {},
    }
    run_bitmap(ctx, c, args, at)
}

/// What a dispatched command comes to: a reply, or a script that is to be run
/// first.
#[derive(Debug)]
pub enum Dispatched {
    Reply(RespValue),
    Script(ScriptCall),
}

/// A dispatched command as contracts see it.
pub enum DispatchedView {
    Reply(RespView),
    Script(CallView),
}

impl View for Dispatched {
    type V = DispatchedView;

    open spec fn view(&self) -> DispatchedView {
        match self {
            Dispatched::Reply(v) => DispatchedView::Reply(v@),
            Dispatched::Script(c) => DispatchedView::Script(c@),
        }
    }
}

/// A result as a reply: an error shows its text, behind a code.
pub open spec fn shown(r: Result<RespView, ErrorView>) -> DispatchedView {
    DispatchedView::Reply(
        match r {
            Ok(v) => v,
            Err(e) => RespView::Error(error::wire_text(e)),
        },
    )
}

/// A script command as a reply or a script.
pub open spec fn called(r: Result<CallView, ErrorView>) -> DispatchedView {
    match r {
        Ok(c) => DispatchedView::Script(c),
        Err(e) => shown(Err(e)),
    }
}

/// Shows a result as a reply.
pub fn reply_of(r: KvdbResult<RespValue>) -> (v: RespValue)
    ensures
        DispatchedView::Reply(v@) == shown(cmd::reply_view(r)),
{
    match r {
        Ok(v) => v,
        Err(e) => RespValue::Error(error::format_error(&e)),
    }
}

/// The text for a command that is not known.
pub open spec fn unknown_command(c: Seq<u8>) -> Seq<char> {
    "ERR unknown command '"@ + text::upper_chars(text::text_in(c)) + "'"@
}

/// A command on the server ran: what it came to, and what it changed.
pub open spec fn served(
    before: CommandContext,
    after: CommandContext,
    c: Seq<u8>,
    a: Seq<Seq<u8>>,
    r: DispatchedView,
) -> bool {
    if text::is_word(c, "PING"@) {
        after == before && r == shown(admin::ping_reply(a))
    } else if text::is_word(c, "ECHO"@) {
        after == before && r == shown(admin::echo_reply(a))
    } else if text::is_word(c, "INFO"@) {
        after == before && r == DispatchedView::Reply(
            cmd::bulk(
                Some(
                    utf8::encode_utf8(
                        admin::info_text(before.config@, before.replication@),
                    ),
                ),
            ),
        )
    } else if text::is_word(c, "ROLE"@) {
        after == before && r == DispatchedView::Reply(admin::role_reply(before.replication@))
    } else if text::is_word(c, "REPLICAOF"@) {
        &&& after == (CommandContext { replication: after.replication, ..before })
        &&& match admin::replicaof_result(before.replication@, a) {
            Ok(state) => r == shown(Ok(cmd::ok_reply())) && after.replication@ == state,
            Err(e) => r == shown(Err(e)) && after.replication == before.replication,
        }
    } else if text::is_word(c, "CONFIG"@) {
        &&& after == (CommandContext { config: after.config, ..before })
        &&& exists|reply: Result<RespView, ErrorView>|
            r == #[trigger] shown(reply) && settings::config_allowed(
                before.config@,
                a,
                after.config@,
                reply,
            )
    } else if text::is_word(c, "CLUSTER"@) {
        after == before && r == shown(cluster::cluster_reply(before.cluster@, a))
    } else if text::is_word(c, "SUBSCRIBE"@) {
        let (hub, reply) = pubsub::subscribe_result(before.pubsub@, before.client_id, a);
        &&& after == (CommandContext { pubsub: after.pubsub, ..before })
        &&& after.pubsub@ == hub
        &&& r == shown(reply)
    } else if text::is_word(c, "UNSUBSCRIBE"@) {
        &&& after == (CommandContext { pubsub: after.pubsub, ..before })
        &&& exists|reply: Result<RespView, ErrorView>|
            r == #[trigger] shown(reply) && pubsub::unsubscribe_allowed(
                before.pubsub@,
                before.client_id,
                a,
                after.pubsub@,
                reply,
            )
    } else if text::is_word(c, "PSUBSCRIBE"@) {
        let (hub, reply) = pubsub::psubscribe_result(before.pubsub@, before.client_id, a);
        &&& after == (CommandContext { pubsub: after.pubsub, ..before })
        &&& after.pubsub@ == hub
        &&& r == shown(reply)
    } else if text::is_word(c, "PUNSUBSCRIBE"@) {
        let (hub, reply) = pubsub::punsubscribe_result(before.pubsub@, before.client_id, a);
        &&& after == (CommandContext { pubsub: after.pubsub, ..before })
        &&& after.pubsub@ == hub
        &&& r == DispatchedView::Reply(reply)
    } else if text::is_word(c, "PUBLISH"@) {
        let (hub, reply) = pubsub::publish_result(before.pubsub@, a);
        &&& after == (CommandContext { pubsub: after.pubsub, ..before })
        &&& after.pubsub@ == hub
        &&& r == shown(reply)
    } else if text::is_word(c, "EVAL"@) {
        let (cache, call) = lua::eval_result(before.lua@, a);
        &&& after == (CommandContext { lua: after.lua, ..before })
        &&& after.lua@ == cache
        &&& r == called(call)
    } else if text::is_word(c, "EVALSHA"@) {
        after == before && r == called(lua::evalsha_result(before.lua@, a))
    } else {
        after == before && r == DispatchedView::Reply(RespView::Error(unknown_command(c)))
    }
}

fn call_of(r: KvdbResult<ScriptCall>) -> (d: Dispatched)
    ensures
        d@ == called(lua::call_view(r)),
{
    match r {
        Ok(c) => Dispatched::Script(c),
        Err(e) => Dispatched::Reply(reply_of(Err(e))),
    }
}

fn run_served(ctx: &mut CommandContext, c: &[u8], args: &[Vec<u8>]) -> (d: Dispatched)
    ensures
        served(*old(ctx), *final(ctx), c@, encoding::byte_seqs(args@), d@),
{
    if text::matches_word(c, "PING") {
        return Dispatched::Reply(reply_of(admin::ping(args)));
    }
    if text::matches_word(c, "ECHO") {
        return Dispatched::Reply(reply_of(admin::echo(args)));
    }
    if text::matches_word(c, "INFO") {
        return Dispatched::Reply(admin::info(ctx));
    }
    if text::matches_word(c, "ROLE") {
        return Dispatched::Reply(admin::role(ctx));
    }
    if text::matches_word(c, "REPLICAOF") {
        return Dispatched::Reply(reply_of(admin::replicaof(ctx, args)));
    }
    if text::matches_word(c, "CONFIG") {
        return Dispatched::Reply(reply_of(settings::config(ctx, args)));
    }
    if text::matches_word(c, "CLUSTER") {
        return Dispatched::Reply(reply_of(cluster::cluster(ctx, args)));
    }
    if text::matches_word(c, "SUBSCRIBE") {
        return Dispatched::Reply(reply_of(pubsub::subscribe(ctx, args)));
    }
    if text::matches_word(c, "UNSUBSCRIBE") {
        return Dispatched::Reply(reply_of(pubsub::unsubscribe(ctx, args)));
    }
    if text::matches_word(c, "PSUBSCRIBE") {
        return Dispatched::Reply(reply_of(pubsub::psubscribe(ctx, args)));
    }
    if text::matches_word(c, "PUNSUBSCRIBE") {
        return Dispatched::Reply(pubsub::punsubscribe(ctx, args));
    }
    if text::matches_word(c, "PUBLISH") {
        return Dispatched::Reply(reply_of(pubsub::publish(ctx, args)));
    }
    if text::matches_word(c, "EVAL") {
        return call_of(lua::eval(ctx, args));
    }
    if text::matches_word(c, "EVALSHA") {
        return call_of(lua::evalsha(ctx, args));
    }
    let name = text::lossy(c);
    let mut t = "ERR unknown command '".to_owned();
    t.append(text::uppercase(name.as_str()).as_str());
    t.append("'");
    Dispatched::Reply(RespValue::Error(t))
}

/// A command was dispatched at a moment.
pub open spec fn dispatched(
    before: CommandContext,
    after: CommandContext,
    c: Seq<u8>,
    a: Seq<Seq<u8>>,
    at: Moment,
    floats: Floats,
    r: DispatchedView,
) -> bool {
    &&& after.storage.follows(before.storage)
    &&& match data_outcome(
        before.storage@,
        before.namespace@,
        c,
        a,
        at,
        floats.scores@,
        floats.sum,
    ) {
        Some(o) => after.same_rest(before) && after.storage@ == o.store && r == shown(o.reply),
        None => served(before, after, c, a, r),
    }
}

/// The commands by their names.
pub struct CommandTable;

impl CommandTable {
    /// The table of all commands.
    pub fn new() -> (t: CommandTable)
        ensures
            t == CommandTable,
    {
        CommandTable
    }

    /// Runs the command with a name, in capital letters or not, at a moment.
    pub fn dispatch_at(
        &self,
        ctx: &mut CommandContext,
        c: &[u8],
        args: &[Vec<u8>],
        at: Moment,
        floats: &Floats,
    ) -> (d: Dispatched)
        ensures
            dispatched(
                *old(ctx),
                *final(ctx),
                c@,
                encoding::byte_seqs(args@),
                at,
                *floats,
                d@,
            ),
    {
        proof {
            ctx.storage.lemma_follows_self();
        }
        match run_data(ctx, c, args, at, floats) {
            Some(r) => Dispatched::Reply(reply_of(r)),
            None => run_served(ctx, c, args),
        }
    }

    /// Runs the command with a name, in capital letters or not, now. The moment
    /// has a version that is greater than all before; where none is left, that
    /// is the reply and nothing is done.
    pub fn dispatch(&self, ctx: &mut CommandContext, c: &[u8], args: &[Vec<u8>], floats: &Floats) -> (d:
        Dispatched)
        ensures
            old(ctx).versions.spec_last() < u64::MAX ==> exists|at: Moment|
                {
                    &&& #[trigger] clock::moment_after(old(ctx).versions.spec_last(), at)
                    &&& old(ctx).versions.spec_last() < at.version
                    &&& final(ctx).versions.spec_last() == at.version
                    &&& dispatched(
                        (CommandContext { versions: final(ctx).versions, ..*old(ctx) }),
                        *final(ctx),
                        c@,
                        encoding::byte_seqs(args@),
                        at,
                        *floats,
                        d@,
                    )
                },
            old(ctx).versions.spec_last() == u64::MAX ==> {
                &&& *final(ctx) == (CommandContext { versions: final(ctx).versions, ..*old(ctx) })
                &&& final(ctx).versions.spec_last() == u64::MAX
                &&& d@ == shown(Err(ErrorView::Storage("no version is left"@)))
            },
    {
        match clock::this_moment(&mut ctx.versions) {
            Some(at) => self.dispatch_at(ctx, c, args, at, floats),
            None => Dispatched::Reply(
                reply_of(Err(KvdbError::Storage("no version is left".to_owned()))),
            ),
        }
    }
}

} // verus!
