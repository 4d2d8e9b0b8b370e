//! What holds of the names of commands: every name of a command on data runs that
//! command and no other, in capital letters or not.

use super::{admin, bitmap, dispatch, hash, list, stream, string, zset};
use super::{Moment, Outcome};
use crate::cmd;
use crate::storage::StoreView;
use crate::text;
use vstd::prelude::*;

verus! {

/// What tells the names of commands apart: how long a name is, its first two
/// letters and its last one.
spec fn mark(c: Seq<u8>) -> (int, int, int, int) {
    (
        c.len() as int,
        text::upper(c[0]) as int,
        text::upper(c[1]) as int,
        text::upper(c[c.len() - 1]) as int,
    )
}

proof fn lemma_mark(c: Seq<u8>, w: Seq<char>)
    requires
        text::is_word(c, w),
        w.len() >= 2,
    ensures
        mark(c) == (w.len() as int, w[0] as int, w[1] as int, w[w.len() - 1] as int),
{
    assert(text::upper(c[0]) as int == w[0] as int);
    assert(text::upper(c[1]) as int == w[1] as int);
    assert(text::upper(c[c.len() - 1]) as int == w[c.len() - 1] as int);
}

proof fn lemma_string_marks(c: Seq<u8>)
    ensures
        text::is_word(c, "GET"@) ==> mark(c) == (3int, 'G' as int, 'E' as int, 'T' as int),
        text::is_word(c, "SET"@) ==> mark(c) == (3int, 'S' as int, 'E' as int, 'T' as int),
        text::is_word(c, "MGET"@) ==> mark(c) == (4int, 'M' as int, 'G' as int, 'T' as int),
        text::is_word(c, "MSET"@) ==> mark(c) == (4int, 'M' as int, 'S' as int, 'T' as int),
        text::is_word(c, "DEL"@) ==> mark(c) == (3int, 'D' as int, 'E' as int, 'L' as int),
        text::is_word(c, "EXISTS"@) ==> mark(c) == (6int, 'E' as int, 'X' as int, 'S' as int),
        text::is_word(c, "INCR"@) ==> mark(c) == (4int, 'I' as int, 'N' as int, 'R' as int),
        text::is_word(c, "DECR"@) ==> mark(c) == (4int, 'D' as int, 'E' as int, 'R' as int),
        text::is_word(c, "APPEND"@) ==> mark(c) == (6int, 'A' as int, 'P' as int, 'D' as int),
        text::is_word(c, "TTL"@) ==> mark(c) == (3int, 'T' as int, 'T' as int, 'L' as int),
        text::is_word(c, "PTTL"@) ==> mark(c) == (4int, 'P' as int, 'T' as int, 'L' as int),
        text::is_word(c, "EXPIRE"@) ==> mark(c) == (6int, 'E' as int, 'X' as int, 'E' as int),
        text::is_word(c, "PERSIST"@) ==> mark(c) == (7int, 'P' as int, 'E' as int, 'T' as int),
{
    if text::is_word(c, "GET"@) {
        reveal_strlit("GET");
        lemma_mark(c, "GET"@);
    }
    if text::is_word(c, "SET"@) {
        reveal_strlit("SET");
        lemma_mark(c, "SET"@);
    }
    if text::is_word(c, "MGET"@) {
        reveal_strlit("MGET");
        lemma_mark(c, "MGET"@);
    }
    if text::is_word(c, "MSET"@) {
        reveal_strlit("MSET");
        lemma_mark(c, "MSET"@);
    }
    if text::is_word(c, "DEL"@) {
        reveal_strlit("DEL");
        lemma_mark(c, "DEL"@);
    }
    if text::is_word(c, "EXISTS"@) {
        reveal_strlit("EXISTS");
        lemma_mark(c, "EXISTS"@);
    }
    if text::is_word(c, "INCR"@) {
        reveal_strlit("INCR");
        lemma_mark(c, "INCR"@);
    }
    if text::is_word(c, "DECR"@) {
        reveal_strlit("DECR");
        lemma_mark(c, "DECR"@);
    }
    if text::is_word(c, "APPEND"@) {
        reveal_strlit("APPEND");
        lemma_mark(c, "APPEND"@);
    }
    if text::is_word(c, "TTL"@) {
        reveal_strlit("TTL");
        lemma_mark(c, "TTL"@);
    }
    if text::is_word(c, "PTTL"@) {
        reveal_strlit("PTTL");
        lemma_mark(c, "PTTL"@);
    }
    if text::is_word(c, "EXPIRE"@) {
        reveal_strlit("EXPIRE");
        lemma_mark(c, "EXPIRE"@);
    }
    if text::is_word(c, "PERSIST"@) {
        reveal_strlit("PERSIST");
        lemma_mark(c, "PERSIST"@);
    }
}

proof fn lemma_store_marks(c: Seq<u8>)
    ensures
        text::is_word(c, "DBSIZE"@) ==> mark(c) == (6int, 'D' as int, 'B' as int, 'E' as int),
        text::is_word(c, "FLUSHDB"@) ==> mark(c) == (7int, 'F' as int, 'L' as int, 'B' as int),
        text::is_word(c, "FLUSHALL"@) ==> mark(c) == (8int, 'F' as int, 'L' as int, 'L' as int),
{
    if text::is_word(c, "DBSIZE"@) {
        reveal_strlit("DBSIZE");
        lemma_mark(c, "DBSIZE"@);
    }
    if text::is_word(c, "FLUSHDB"@) {
        reveal_strlit("FLUSHDB");
        lemma_mark(c, "FLUSHDB"@);
    }
    if text::is_word(c, "FLUSHALL"@) {
        reveal_strlit("FLUSHALL");
        lemma_mark(c, "FLUSHALL"@);
    }
}

proof fn lemma_hash_marks(c: Seq<u8>)
    ensures
        text::is_word(c, "HSET"@) ==> mark(c) == (4int, 'H' as int, 'S' as int, 'T' as int),
        text::is_word(c, "HGET"@) ==> mark(c) == (4int, 'H' as int, 'G' as int, 'T' as int),
        text::is_word(c, "HMGET"@) ==> mark(c) == (5int, 'H' as int, 'M' as int, 'T' as int),
        text::is_word(c, "HGETALL"@) ==> mark(c) == (7int, 'H' as int, 'G' as int, 'L' as int),
        text::is_word(c, "HDEL"@) ==> mark(c) == (4int, 'H' as int, 'D' as int, 'L' as int),
        text::is_word(c, "HEXISTS"@) ==> mark(c) == (7int, 'H' as int, 'E' as int, 'S' as int),
        text::is_word(c, "HLEN"@) ==> mark(c) == (4int, 'H' as int, 'L' as int, 'N' as int),
        text::is_word(c, "HSCAN"@) ==> mark(c) == (5int, 'H' as int, 'S' as int, 'N' as int),
{
    if text::is_word(c, "HSET"@) {
        reveal_strlit("HSET");
        lemma_mark(c, "HSET"@);
    }
    if text::is_word(c, "HGET"@) {
        reveal_strlit("HGET");
        lemma_mark(c, "HGET"@);
    }
    if text::is_word(c, "HMGET"@) {
        reveal_strlit("HMGET");
        lemma_mark(c, "HMGET"@);
    }
    if text::is_word(c, "HGETALL"@) {
        reveal_strlit("HGETALL");
        lemma_mark(c, "HGETALL"@);
    }
    if text::is_word(c, "HDEL"@) {
        reveal_strlit("HDEL");
        lemma_mark(c, "HDEL"@);
    }
    if text::is_word(c, "HEXISTS"@) {
        reveal_strlit("HEXISTS");
        lemma_mark(c, "HEXISTS"@);
    }
    if text::is_word(c, "HLEN"@) {
        reveal_strlit("HLEN");
        lemma_mark(c, "HLEN"@);
    }
    if text::is_word(c, "HSCAN"@) {
        reveal_strlit("HSCAN");
        lemma_mark(c, "HSCAN"@);
    }
}

proof fn lemma_list_marks(c: Seq<u8>)
    ensures
        text::is_word(c, "LPUSH"@) ==> mark(c) == (5int, 'L' as int, 'P' as int, 'H' as int),
        text::is_word(c, "RPUSH"@) ==> mark(c) == (5int, 'R' as int, 'P' as int, 'H' as int),
        text::is_word(c, "LPOP"@) ==> mark(c) == (4int, 'L' as int, 'P' as int, 'P' as int),
        text::is_word(c, "RPOP"@) ==> mark(c) == (4int, 'R' as int, 'P' as int, 'P' as int),
        text::is_word(c, "LRANGE"@) ==> mark(c) == (6int, 'L' as int, 'R' as int, 'E' as int),
        text::is_word(c, "LINDEX"@) ==> mark(c) == (6int, 'L' as int, 'I' as int, 'X' as int),
        text::is_word(c, "LLEN"@) ==> mark(c) == (4int, 'L' as int, 'L' as int, 'N' as int),
{
    if text::is_word(c, "LPUSH"@) {
        reveal_strlit("LPUSH");
        lemma_mark(c, "LPUSH"@);
    }
    if text::is_word(c, "RPUSH"@) {
        reveal_strlit("RPUSH");
        lemma_mark(c, "RPUSH"@);
    }
    if text::is_word(c, "LPOP"@) {
        reveal_strlit("LPOP");
        lemma_mark(c, "LPOP"@);
    }
    if text::is_word(c, "RPOP"@) {
        reveal_strlit("RPOP");
        lemma_mark(c, "RPOP"@);
    }
    if text::is_word(c, "LRANGE"@) {
        reveal_strlit("LRANGE");
        lemma_mark(c, "LRANGE"@);
    }
    if text::is_word(c, "LINDEX"@) {
        reveal_strlit("LINDEX");
        lemma_mark(c, "LINDEX"@);
    }
    if text::is_word(c, "LLEN"@) {
        reveal_strlit("LLEN");
        lemma_mark(c, "LLEN"@);
    }
}

proof fn lemma_set_marks(c: Seq<u8>)
    ensures
        text::is_word(c, "SADD"@) ==> mark(c) == (4int, 'S' as int, 'A' as int, 'D' as int),
        text::is_word(c, "SREM"@) ==> mark(c) == (4int, 'S' as int, 'R' as int, 'M' as int),
        text::is_word(c, "SPOP"@) ==> mark(c) == (4int, 'S' as int, 'P' as int, 'P' as int),
        text::is_word(c, "SISMEMBER"@) ==> mark(c) == (9int, 'S' as int, 'I' as int, 'R' as int),
        text::is_word(c, "SMEMBERS"@) ==> mark(c) == (8int, 'S' as int, 'M' as int, 'S' as int),
        text::is_word(c, "SCARD"@) ==> mark(c) == (5int, 'S' as int, 'C' as int, 'D' as int),
        text::is_word(c, "SINTER"@) ==> mark(c) == (6int, 'S' as int, 'I' as int, 'R' as int),
        text::is_word(c, "SDIFF"@) ==> mark(c) == (5int, 'S' as int, 'D' as int, 'F' as int),
        text::is_word(c, "SUNION"@) ==> mark(c) == (6int, 'S' as int, 'U' as int, 'N' as int),
{
    if text::is_word(c, "SADD"@) {
        reveal_strlit("SADD");
        lemma_mark(c, "SADD"@);
    }
    if text::is_word(c, "SREM"@) {
        reveal_strlit("SREM");
        lemma_mark(c, "SREM"@);
    }
    if text::is_word(c, "SPOP"@) {
        reveal_strlit("SPOP");
        lemma_mark(c, "SPOP"@);
    }
    if text::is_word(c, "SISMEMBER"@) {
        reveal_strlit("SISMEMBER");
        lemma_mark(c, "SISMEMBER"@);
    }
    if text::is_word(c, "SMEMBERS"@) {
        reveal_strlit("SMEMBERS");
        lemma_mark(c, "SMEMBERS"@);
    }
    if text::is_word(c, "SCARD"@) {
        reveal_strlit("SCARD");
        lemma_mark(c, "SCARD"@);
    }
    if text::is_word(c, "SINTER"@) {
        reveal_strlit("SINTER");
        lemma_mark(c, "SINTER"@);
    }
    if text::is_word(c, "SDIFF"@) {
        reveal_strlit("SDIFF");
        lemma_mark(c, "SDIFF"@);
    }
    if text::is_word(c, "SUNION"@) {
        reveal_strlit("SUNION");
        lemma_mark(c, "SUNION"@);
    }
}

proof fn lemma_zset_marks(c: Seq<u8>)
    ensures
        text::is_word(c, "ZADD"@) ==> mark(c) == (4int, 'Z' as int, 'A' as int, 'D' as int),
        text::is_word(c, "ZINCRBY"@) ==> mark(c) == (7int, 'Z' as int, 'I' as int, 'Y' as int),
        text::is_word(c, "ZREM"@) ==> mark(c) == (4int, 'Z' as int, 'R' as int, 'M' as int),
        text::is_word(c, "ZSCORE"@) ==> mark(c) == (6int, 'Z' as int, 'S' as int, 'E' as int),
        text::is_word(c, "ZCARD"@) ==> mark(c) == (5int, 'Z' as int, 'C' as int, 'D' as int),
        text::is_word(c, "ZRANK"@) ==> mark(c) == (5int, 'Z' as int, 'R' as int, 'K' as int),
        text::is_word(c, "ZREVRANK"@) ==> mark(c) == (8int, 'Z' as int, 'R' as int, 'K' as int),
        text::is_word(c, "ZRANGE"@) ==> mark(c) == (6int, 'Z' as int, 'R' as int, 'E' as int),
        text::is_word(c, "ZREVRANGE"@) ==> mark(c) == (9int, 'Z' as int, 'R' as int, 'E' as int),
        text::is_word(c, "ZRANGEBYSCORE"@) ==> mark(c) == (13int, 'Z' as int, 'R' as int, 'E' as int),
        text::is_word(c, "ZREVRANGEBYSCORE"@) ==> mark(c) == (16int, 'Z' as int, 'R' as int, 'E' as int),
{
    if text::is_word(c, "ZADD"@) {
        reveal_strlit("ZADD");
        lemma_mark(c, "ZADD"@);
    }
    if text::is_word(c, "ZINCRBY"@) {
        reveal_strlit("ZINCRBY");
        lemma_mark(c, "ZINCRBY"@);
    }
    if text::is_word(c, "ZREM"@) {
        reveal_strlit("ZREM");
        lemma_mark(c, "ZREM"@);
    }
    if text::is_word(c, "ZSCORE"@) {
        reveal_strlit("ZSCORE");
        lemma_mark(c, "ZSCORE"@);
    }
    if text::is_word(c, "ZCARD"@) {
        reveal_strlit("ZCARD");
        lemma_mark(c, "ZCARD"@);
    }
    if text::is_word(c, "ZRANK"@) {
        reveal_strlit("ZRANK");
        lemma_mark(c, "ZRANK"@);
    }
    if text::is_word(c, "ZREVRANK"@) {
        reveal_strlit("ZREVRANK");
        lemma_mark(c, "ZREVRANK"@);
    }
    if text::is_word(c, "ZRANGE"@) {
        reveal_strlit("ZRANGE");
        lemma_mark(c, "ZRANGE"@);
    }
    if text::is_word(c, "ZREVRANGE"@) {
        reveal_strlit("ZREVRANGE");
        lemma_mark(c, "ZREVRANGE"@);
    }
    if text::is_word(c, "ZRANGEBYSCORE"@) {
        reveal_strlit("ZRANGEBYSCORE");
        lemma_mark(c, "ZRANGEBYSCORE"@);
    }
    if text::is_word(c, "ZREVRANGEBYSCORE"@) {
        reveal_strlit("ZREVRANGEBYSCORE");
        lemma_mark(c, "ZREVRANGEBYSCORE"@);
    }
}

proof fn lemma_stream_marks(c: Seq<u8>)
    ensures
        text::is_word(c, "XADD"@) ==> mark(c) == (4int, 'X' as int, 'A' as int, 'D' as int),
        text::is_word(c, "XLEN"@) ==> mark(c) == (4int, 'X' as int, 'L' as int, 'N' as int),
        text::is_word(c, "XRANGE"@) ==> mark(c) == (6int, 'X' as int, 'R' as int, 'E' as int),
        text::is_word(c, "XREAD"@) ==> mark(c) == (5int, 'X' as int, 'R' as int, 'D' as int),
{
    if text::is_word(c, "XADD"@) {
        reveal_strlit("XADD");
        lemma_mark(c, "XADD"@);
    }
    if text::is_word(c, "XLEN"@) {
        reveal_strlit("XLEN");
        lemma_mark(c, "XLEN"@);
    }
    if text::is_word(c, "XRANGE"@) {
        reveal_strlit("XRANGE");
        lemma_mark(c, "XRANGE"@);
    }
    if text::is_word(c, "XREAD"@) {
        reveal_strlit("XREAD");
        lemma_mark(c, "XREAD"@);
    }
}

proof fn lemma_bitmap_marks(c: Seq<u8>)
    ensures
        text::is_word(c, "SETBIT"@) ==> mark(c) == (6int, 'S' as int, 'E' as int, 'T' as int),
        text::is_word(c, "GETBIT"@) ==> mark(c) == (6int, 'G' as int, 'E' as int, 'T' as int),
        text::is_word(c, "BITCOUNT"@) ==> mark(c) == (8int, 'B' as int, 'I' as int, 'T' as int),
        text::is_word(c, "BITOP"@) ==> mark(c) == (5int, 'B' as int, 'I' as int, 'P' as int),
{
    if text::is_word(c, "SETBIT"@) {
        reveal_strlit("SETBIT");
        lemma_mark(c, "SETBIT"@);
    }
    if text::is_word(c, "GETBIT"@) {
        reveal_strlit("GETBIT");
        lemma_mark(c, "GETBIT"@);
    }
    if text::is_word(c, "BITCOUNT"@) {
        reveal_strlit("BITCOUNT");
        lemma_mark(c, "BITCOUNT"@);
    }
    if text::is_word(c, "BITOP"@) {
        reveal_strlit("BITOP");
        lemma_mark(c, "BITOP"@);
    }
}

/// A command comes to an outcome.
pub open spec fn comes_to(found: Option<Outcome>, o: Outcome) -> bool {
    found == Some(o)
}

/// The names of the commands on strings and on keys of every type run these commands.
#[verifier::rlimit(60)]
pub proof fn law_string_names(
    s: StoreView,
    ns: Seq<u8>,
    c: Seq<u8>,
    a: Seq<Seq<u8>>,
    at: Moment,
    scores: Seq<Option<u64>>,
    sum: u64,
)
    ensures
        text::is_word(c, "GET"@) ==> comes_to(
            dispatch::data_outcome(s, ns, c, a, at, scores, sum),
            cmd::unchanged(string::get_reply(s, ns, a, at.now_ms), s),
        ),
        text::is_word(c, "SET"@) ==> comes_to(
            dispatch::data_outcome(s, ns, c, a, at, scores, sum),
            string::set_outcome(s, ns, a, at.now_ms),
        ),
        text::is_word(c, "MGET"@) ==> comes_to(
            dispatch::data_outcome(s, ns, c, a, at, scores, sum),
            cmd::unchanged(string::mget_reply(s, ns, a, at.now_ms), s),
        ),
        text::is_word(c, "MSET"@) ==> comes_to(
            dispatch::data_outcome(s, ns, c, a, at, scores, sum),
            string::mset_outcome(s, ns, a),
        ),
        text::is_word(c, "DEL"@) ==> comes_to(
            dispatch::data_outcome(s, ns, c, a, at, scores, sum),
            string::del_outcome(s, ns, a, at.now_ms),
        ),
        text::is_word(c, "EXISTS"@) ==> comes_to(
            dispatch::data_outcome(s, ns, c, a, at, scores, sum),
            cmd::unchanged(string::exists_reply(s, ns, a, at.now_ms), s),
        ),
        text::is_word(c, "INCR"@) ==> comes_to(
            dispatch::data_outcome(s, ns, c, a, at, scores, sum),
            string::step_outcome(s, ns, a, at.now_ms, "INCR"@, 1),
        ),
        text::is_word(c, "DECR"@) ==> comes_to(
            dispatch::data_outcome(s, ns, c, a, at, scores, sum),
            string::step_outcome(s, ns, a, at.now_ms, "DECR"@, -1),
        ),
        text::is_word(c, "APPEND"@) ==> comes_to(
            dispatch::data_outcome(s, ns, c, a, at, scores, sum),
            string::append_outcome(s, ns, a, at.now_ms),
        ),
        text::is_word(c, "TTL"@) ==> comes_to(
            dispatch::data_outcome(s, ns, c, a, at, scores, sum),
            cmd::unchanged(string::ttl_reply(s, ns, a, at.now_ms, "TTL"@, true), s),
        ),
        text::is_word(c, "PTTL"@) ==> comes_to(
            dispatch::data_outcome(s, ns, c, a, at, scores, sum),
            cmd::unchanged(string::ttl_reply(s, ns, a, at.now_ms, "PTTL"@, false), s),
        ),
        text::is_word(c, "EXPIRE"@) ==> comes_to(
            dispatch::data_outcome(s, ns, c, a, at, scores, sum),
            string::expire_outcome(s, ns, a, at.now_ms),
        ),
        text::is_word(c, "PERSIST"@) ==> comes_to(
            dispatch::data_outcome(s, ns, c, a, at, scores, sum),
            string::persist_outcome(s, ns, a, at.now_ms),
        ),
{
    lemma_string_marks(c);
    reveal(dispatch::string_family);
}

/// The names of the commands on a whole store run these commands.
#[verifier::rlimit(60)]
pub proof fn law_store_names(
    s: StoreView,
    ns: Seq<u8>,
    c: Seq<u8>,
    a: Seq<Seq<u8>>,
    at: Moment,
    scores: Seq<Option<u64>>,
    sum: u64,
)
    ensures
        text::is_word(c, "DBSIZE"@) ==> comes_to(
            dispatch::data_outcome(s, ns, c, a, at, scores, sum),
            cmd::unchanged(Ok(admin::dbsize_reply(s, ns, at.now_ms)), s),
        ),
        text::is_word(c, "FLUSHDB"@) ==> comes_to(
            dispatch::data_outcome(s, ns, c, a, at, scores, sum),
            (Outcome { reply: Ok(cmd::ok_reply()), store: admin::flushed(s, ns) }),
        ),
        text::is_word(c, "FLUSHALL"@) ==> comes_to(
            dispatch::data_outcome(s, ns, c, a, at, scores, sum),
            (Outcome { reply: Ok(cmd::ok_reply()), store: admin::emptied(s) }),
        ),
{
    lemma_string_marks(c);
    lemma_store_marks(c);
    reveal(dispatch::string_family);
    reveal(dispatch::store_family);
}

/// The names of the commands on hashes run these commands.
#[verifier::rlimit(60)]
pub proof fn law_hash_names(
    s: StoreView,
    ns: Seq<u8>,
    c: Seq<u8>,
    a: Seq<Seq<u8>>,
    at: Moment,
    scores: Seq<Option<u64>>,
    sum: u64,
)
    ensures
        text::is_word(c, "HSET"@) ==> comes_to(
            dispatch::data_outcome(s, ns, c, a, at, scores, sum),
            hash::hset_outcome(s, ns, a, at),
        ),
        text::is_word(c, "HGET"@) ==> comes_to(
            dispatch::data_outcome(s, ns, c, a, at, scores, sum),
            cmd::unchanged(hash::hget_reply(s, ns, a, at.now_ms), s),
        ),
        text::is_word(c, "HMGET"@) ==> comes_to(
            dispatch::data_outcome(s, ns, c, a, at, scores, sum),
            cmd::unchanged(hash::hmget_reply(s, ns, a, at.now_ms), s),
        ),
        text::is_word(c, "HGETALL"@) ==> comes_to(
            dispatch::data_outcome(s, ns, c, a, at, scores, sum),
            cmd::unchanged(hash::hgetall_reply(s, ns, a, at.now_ms), s),
        ),
        text::is_word(c, "HDEL"@) ==> comes_to(
            dispatch::data_outcome(s, ns, c, a, at, scores, sum),
            hash::hdel_outcome(s, ns, a, at.now_ms),
        ),
        text::is_word(c, "HEXISTS"@) ==> comes_to(
            dispatch::data_outcome(s, ns, c, a, at, scores, sum),
            cmd::unchanged(hash::hexists_reply(s, ns, a, at.now_ms), s),
        ),
        text::is_word(c, "HLEN"@) ==> comes_to(
            dispatch::data_outcome(s, ns, c, a, at, scores, sum),
            cmd::unchanged(hash::hlen_reply(s, ns, a, at.now_ms), s),
        ),
        text::is_word(c, "HSCAN"@) ==> comes_to(
            dispatch::data_outcome(s, ns, c, a, at, scores, sum),
            cmd::unchanged(hash::hscan_reply(s, ns, a, at.now_ms), s),
        ),
{
    lemma_string_marks(c);
    lemma_store_marks(c);
    lemma_hash_marks(c);
    reveal(dispatch::string_family);
    reveal(dispatch::store_family);
    reveal(dispatch::hash_family);
}

/// The names of the commands on lists run these commands.
#[verifier::rlimit(60)]
pub proof fn law_list_names(
    s: StoreView,
    ns: Seq<u8>,
    c: Seq<u8>,
    a: Seq<Seq<u8>>,
    at: Moment,
    scores: Seq<Option<u64>>,
    sum: u64,
)
    ensures
        text::is_word(c, "LPUSH"@) ==> comes_to(
            dispatch::data_outcome(s, ns, c, a, at, scores, sum),
            list::push_outcome(s, ns, a, at, true),
        ),
        text::is_word(c, "RPUSH"@) ==> comes_to(
            dispatch::data_outcome(s, ns, c, a, at, scores, sum),
            list::push_outcome(s, ns, a, at, false),
        ),
        text::is_word(c, "LPOP"@) ==> comes_to(
            dispatch::data_outcome(s, ns, c, a, at, scores, sum),
            list::pop_outcome(s, ns, a, at.now_ms, true),
        ),
        text::is_word(c, "RPOP"@) ==> comes_to(
            dispatch::data_outcome(s, ns, c, a, at, scores, sum),
            list::pop_outcome(s, ns, a, at.now_ms, false),
        ),
        text::is_word(c, "LRANGE"@) ==> comes_to(
            dispatch::data_outcome(s, ns, c, a, at, scores, sum),
            cmd::unchanged(list::lrange_reply(s, ns, a, at.now_ms), s),
        ),
        text::is_word(c, "LINDEX"@) ==> comes_to(
            dispatch::data_outcome(s, ns, c, a, at, scores, sum),
            cmd::unchanged(list::lindex_reply(s, ns, a, at.now_ms), s),
        ),
        text::is_word(c, "LLEN"@) ==> comes_to(
            dispatch::data_outcome(s, ns, c, a, at, scores, sum),
            cmd::unchanged(list::llen_reply(s, ns, a, at.now_ms), s),
        ),
{
    lemma_string_marks(c);
    lemma_store_marks(c);
    lemma_hash_marks(c);
    lemma_list_marks(c);
    reveal(dispatch::string_family);
    reveal(dispatch::store_family);
    reveal(dispatch::hash_family);
    reveal(dispatch::list_family);
}

/// The names of the commands on sets run these commands.
#[verifier::rlimit(60)]
pub proof fn law_set_names(
    s: StoreView,
    ns: Seq<u8>,
    c: Seq<u8>,
    a: Seq<Seq<u8>>,
    at: Moment,
    scores: Seq<Option<u64>>,
    sum: u64,
)
    ensures
        text::is_word(c, "SADD"@) ==> comes_to(
            dispatch::data_outcome(s, ns, c, a, at, scores, sum),
            cmd::set::sadd_outcome(s, ns, a, at),
        ),
        text::is_word(c, "SREM"@) ==> comes_to(
            dispatch::data_outcome(s, ns, c, a, at, scores, sum),
            cmd::set::srem_outcome(s, ns, a, at.now_ms),
        ),
        text::is_word(c, "SPOP"@) ==> comes_to(
            dispatch::data_outcome(s, ns, c, a, at, scores, sum),
            cmd::set::spop_outcome(s, ns, a, at),
        ),
        text::is_word(c, "SISMEMBER"@) ==> comes_to(
            dispatch::data_outcome(s, ns, c, a, at, scores, sum),
            cmd::unchanged(cmd::set::sismember_reply(s, ns, a, at.now_ms), s),
        ),
        text::is_word(c, "SMEMBERS"@) ==> comes_to(
            dispatch::data_outcome(s, ns, c, a, at, scores, sum),
            cmd::unchanged(cmd::set::smembers_reply(s, ns, a, at.now_ms), s),
        ),
        text::is_word(c, "SCARD"@) ==> comes_to(
            dispatch::data_outcome(s, ns, c, a, at, scores, sum),
            cmd::unchanged(cmd::set::scard_reply(s, ns, a, at.now_ms), s),
        ),
        text::is_word(c, "SINTER"@) ==> comes_to(
            dispatch::data_outcome(s, ns, c, a, at, scores, sum),
            cmd::unchanged(cmd::set::sinter_reply(s, ns, a, at.now_ms), s),
        ),
        text::is_word(c, "SDIFF"@) ==> comes_to(
            dispatch::data_outcome(s, ns, c, a, at, scores, sum),
            cmd::unchanged(cmd::set::sdiff_reply(s, ns, a, at.now_ms), s),
        ),
        text::is_word(c, "SUNION"@) ==> comes_to(
            dispatch::data_outcome(s, ns, c, a, at, scores, sum),
            cmd::unchanged(cmd::set::sunion_reply(s, ns, a, at.now_ms), s),
        ),
{
    lemma_string_marks(c);
    lemma_store_marks(c);
    lemma_hash_marks(c);
    lemma_list_marks(c);
    lemma_set_marks(c);
    reveal(dispatch::string_family);
    reveal(dispatch::store_family);
    reveal(dispatch::hash_family);
    reveal(dispatch::list_family);
    reveal(dispatch::set_family);
}

/// The names of the commands on sorted sets run these commands.
#[verifier::rlimit(60)]
pub proof fn law_zset_names(
    s: StoreView,
    ns: Seq<u8>,
    c: Seq<u8>,
    a: Seq<Seq<u8>>,
    at: Moment,
    scores: Seq<Option<u64>>,
    sum: u64,
)
    ensures
        text::is_word(c, "ZADD"@) ==> comes_to(
            dispatch::data_outcome(s, ns, c, a, at, scores, sum),
            zset::zadd_outcome(s, ns, a, at, scores, sum),
        ),
        text::is_word(c, "ZINCRBY"@) ==> comes_to(
            dispatch::data_outcome(s, ns, c, a, at, scores, sum),
            zset::zincrby_outcome(s, ns, a, at, scores, sum),
        ),
        text::is_word(c, "ZREM"@) ==> comes_to(
            dispatch::data_outcome(s, ns, c, a, at, scores, sum),
            zset::zrem_outcome(s, ns, a, at.now_ms),
        ),
        text::is_word(c, "ZSCORE"@) ==> comes_to(
            dispatch::data_outcome(s, ns, c, a, at, scores, sum),
            cmd::unchanged(zset::zscore_reply(s, ns, a, at.now_ms), s),
        ),
        text::is_word(c, "ZCARD"@) ==> comes_to(
            dispatch::data_outcome(s, ns, c, a, at, scores, sum),
            cmd::unchanged(zset::zcard_reply(s, ns, a, at.now_ms), s),
        ),
        text::is_word(c, "ZRANK"@) ==> comes_to(
            dispatch::data_outcome(s, ns, c, a, at, scores, sum),
            cmd::unchanged(zset::zrank_reply(s, ns, a, at.now_ms, false), s),
        ),
        text::is_word(c, "ZREVRANK"@) ==> comes_to(
            dispatch::data_outcome(s, ns, c, a, at, scores, sum),
            cmd::unchanged(zset::zrank_reply(s, ns, a, at.now_ms, true), s),
        ),
        text::is_word(c, "ZRANGE"@) ==> comes_to(
            dispatch::data_outcome(s, ns, c, a, at, scores, sum),
            cmd::unchanged(zset::zrange_reply(s, ns, a, at.now_ms, false), s),
        ),
        text::is_word(c, "ZREVRANGE"@) ==> comes_to(
            dispatch::data_outcome(s, ns, c, a, at, scores, sum),
            cmd::unchanged(zset::zrange_reply(s, ns, a, at.now_ms, true), s),
        ),
        text::is_word(c, "ZRANGEBYSCORE"@) ==> comes_to(
            dispatch::data_outcome(s, ns, c, a, at, scores, sum),
            cmd::unchanged(zset::zrangebyscore_reply(s, ns, a, at.now_ms, scores, false), s),
        ),
        text::is_word(c, "ZREVRANGEBYSCORE"@) ==> comes_to(
            dispatch::data_outcome(s, ns, c, a, at, scores, sum),
            cmd::unchanged(zset::zrangebyscore_reply(s, ns, a, at.now_ms, scores, true), s),
        ),
{
    lemma_string_marks(c);
    lemma_store_marks(c);
    lemma_hash_marks(c);
    lemma_list_marks(c);
    lemma_set_marks(c);
    lemma_zset_marks(c);
    reveal(dispatch::string_family);
    reveal(dispatch::store_family);
    reveal(dispatch::hash_family);
    reveal(dispatch::list_family);
    reveal(dispatch::set_family);
    reveal(dispatch::zset_family);
}

/// The names of the commands on streams run these commands.
#[verifier::rlimit(60)]
pub proof fn law_stream_names(
    s: StoreView,
    ns: Seq<u8>,
    c: Seq<u8>,
    a: Seq<Seq<u8>>,
    at: Moment,
    scores: Seq<Option<u64>>,
    sum: u64,
)
    ensures
        text::is_word(c, "XADD"@) ==> comes_to(
            dispatch::data_outcome(s, ns, c, a, at, scores, sum),
            stream::xadd_outcome(s, ns, a, at),
        ),
        text::is_word(c, "XLEN"@) ==> comes_to(
            dispatch::data_outcome(s, ns, c, a, at, scores, sum),
            cmd::unchanged(stream::xlen_reply(s, ns, a, at.now_ms), s),
        ),
        text::is_word(c, "XRANGE"@) ==> comes_to(
            dispatch::data_outcome(s, ns, c, a, at, scores, sum),
            cmd::unchanged(stream::xrange_reply(s, ns, a, at.now_ms), s),
        ),
        text::is_word(c, "XREAD"@) ==> comes_to(
            dispatch::data_outcome(s, ns, c, a, at, scores, sum),
            cmd::unchanged(stream::xread_reply(s, ns, a, at.now_ms), s),
        ),
{
    lemma_string_marks(c);
    lemma_store_marks(c);
    lemma_hash_marks(c);
    lemma_list_marks(c);
    lemma_set_marks(c);
    lemma_zset_marks(c);
    lemma_stream_marks(c);
    reveal(dispatch::string_family);
    reveal(dispatch::store_family);
    reveal(dispatch::hash_family);
    reveal(dispatch::list_family);
    reveal(dispatch::set_family);
    reveal(dispatch::zset_family);
    reveal(dispatch::stream_family);
}

/// The names of the commands on bitmaps run these commands.
#[verifier::rlimit(60)]
pub proof fn law_bitmap_names(
    s: StoreView,
    ns: Seq<u8>,
    c: Seq<u8>,
    a: Seq<Seq<u8>>,
    at: Moment,
    scores: Seq<Option<u64>>,
    sum: u64,
)
    ensures
        text::is_word(c, "SETBIT"@) ==> comes_to(
            dispatch::data_outcome(s, ns, c, a, at, scores, sum),
            bitmap::setbit_outcome(s, ns, a, at),
        ),
        text::is_word(c, "GETBIT"@) ==> comes_to(
            dispatch::data_outcome(s, ns, c, a, at, scores, sum),
            cmd::unchanged(bitmap::getbit_reply(s, ns, a, at.now_ms), s),
        ),
        text::is_word(c, "BITCOUNT"@) ==> comes_to(
            dispatch::data_outcome(s, ns, c, a, at, scores, sum),
            cmd::unchanged(bitmap::bitcount_reply(s, ns, a, at.now_ms), s),
        ),
        text::is_word(c, "BITOP"@) ==> comes_to(
            dispatch::data_outcome(s, ns, c, a, at, scores, sum),
            bitmap::bitop_outcome(s, ns, a, at),
        ),
{
    lemma_string_marks(c);
    lemma_store_marks(c);
    lemma_hash_marks(c);
    lemma_list_marks(c);
    lemma_set_marks(c);
    lemma_zset_marks(c);
    lemma_stream_marks(c);
    lemma_bitmap_marks(c);
    reveal(dispatch::string_family);
    reveal(dispatch::store_family);
    reveal(dispatch::hash_family);
    reveal(dispatch::list_family);
    reveal(dispatch::set_family);
    reveal(dispatch::zset_family);
    reveal(dispatch::stream_family);
    reveal(dispatch::bitmap_family);
}

} // verus!
