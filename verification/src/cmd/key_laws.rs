//! What holds of keys whatever they hold: when a value lives, what is read of a
//! key without one, and which calls are refused for their number of arguments.

use super::string_laws::there;
use super::{admin, bitmap, hash, list, stream, string, zset, Moment};
use crate::cmd;
use crate::error::ErrorView;
use crate::protocol::RespView;
use crate::storage::StoreView;
use crate::text;
use crate::types::{DataType, Metadata};
use vstd::prelude::*;

verus! {

/// The commands of every type agree with EXISTS on whether a value of the type
/// lives: where EXISTS replies 0 they find nothing, and where it replies 1 they
/// find the value.
pub proof fn law_commands_agree_on_life(
    s: StoreView,
    ns: Seq<u8>,
    key: Seq<u8>,
    now_ms: i64,
    t: DataType,
    unreadable: Seq<char>,
)
    requires
        cmd::record_type(s, ns, key) == Some(t),
    ensures
        ({
            let lives = there(s, ns, seq![key], now_ms) == 1;
            &&& there(s, ns, seq![key], now_ms) == 0 || lives
            &&& t != DataType::String ==> {
                let m = cmd::typed_meta(s, ns, key, now_ms, t, unreadable);
                m is Ok && (m->Ok_0 is Some <==> lives)
            }
            &&& t == DataType::String ==> {
                let v = string::string_value(s, ns, key, now_ms);
                v is Ok && (v->Ok_0 is Some <==> lives)
            }
            &&& t == DataType::Hash ==> {
                let m = hash::hash_meta(s, ns, key, now_ms);
                m is Ok && (m->Ok_0 is Some <==> lives)
            }
            &&& t == DataType::List ==> {
                let m = list::list_meta(s, ns, key, now_ms);
                m is Ok && (m->Ok_0 is Some <==> lives)
            }
            &&& t == DataType::SetType ==> {
                let m = cmd::set::set_meta(s, ns, key, now_ms);
                m is Ok && (m->Ok_0 is Some <==> lives)
            }
            &&& t == DataType::Bitmap ==> {
                let m = bitmap::bitmap_meta(s, ns, key, now_ms);
                m is Ok && (m->Ok_0 is Some <==> lives)
            }
            &&& t == DataType::ZSet ==> {
                let m = zset::zset_meta(s, ns, key, now_ms);
                m is Ok && (m->Ok_0 is Some <==> lives)
            }
            &&& t == DataType::Stream ==> {
                let m = stream::stream_meta(s, ns, key, now_ms);
                m is Ok && (m->Ok_0 is Some <==> lives)
            }
        }),
{
    assert(seq![key][0] == key);
    reveal_with_fuel(string::keys_there, 2);
}

/// A key without a record is there for no command: all commands on values of any
/// type find nothing.
pub proof fn law_no_record(
    s: StoreView,
    ns: Seq<u8>,
    key: Seq<u8>,
    now_ms: i64,
    t: DataType,
    unreadable: Seq<char>,
)
    requires
        cmd::stored_meta(s, ns, key) is None,
    ensures
        there(s, ns, seq![key], now_ms) == 0,
        cmd::typed_meta(s, ns, key, now_ms, t, unreadable) == Ok::<Option<Metadata>, ErrorView>(None),
        string::string_value(s, ns, key, now_ms) == Ok::<Option<Seq<u8>>, ErrorView>(None),
        zset::zset_meta(s, ns, key, now_ms) == Ok::<Option<Metadata>, ErrorView>(None),
        stream::stream_meta(s, ns, key, now_ms) == Ok::<Option<stream::StreamMeta>, ErrorView>(
            None,
        ),
{
    assert(seq![key][0] == key);
    reveal_with_fuel(string::keys_there, 2);
}

/// A key that is not there is read as an empty sorted set and an empty stream.
#[verifier::rlimit(60)]
pub proof fn law_nothing_to_read(
    s: StoreView,
    ns: Seq<u8>,
    key: Seq<u8>,
    x: Seq<u8>,
    y: Seq<u8>,
    word: Seq<u8>,
    now_ms: i64,
    scores: Seq<Option<u64>>,
    reverse: bool,
)
    ensures
        ({
            let nothing = Ok::<_, ErrorView>(RespView::Array(Seq::empty()));
            let nil = Ok::<_, ErrorView>(RespView::BulkString(None));
            let zero = Ok::<_, ErrorView>(RespView::Integer(0));
            let no_zset = zset::zset_meta(s, ns, key, now_ms) == Ok::<Option<Metadata>, ErrorView>(
                None,
            );
            let no_stream = stream::stream_meta(s, ns, key, now_ms) == Ok::<
                Option<stream::StreamMeta>,
                ErrorView,
            >(None);
            &&& no_zset ==> {
                &&& zset::zrange_reply(s, ns, seq![key, x, y], now_ms, reverse) == nothing
                &&& zset::zrangebyscore_reply(s, ns, seq![key, x, y], now_ms, scores, reverse)
                    == nothing
                &&& zset::zscore_reply(s, ns, seq![key, x], now_ms) == nil
                &&& zset::zrank_reply(s, ns, seq![key, x], now_ms, reverse) == nil
                &&& zset::zcard_reply(s, ns, seq![key], now_ms) == zero
            }
            &&& no_stream ==> {
                &&& stream::xlen_reply(s, ns, seq![key], now_ms) == zero
                &&& stream::bound_in(x) is Some && stream::bound_in(y) is Some
                    ==> stream::xrange_reply(s, ns, seq![key, x, y], now_ms) == nothing
                &&& text::is_word(word, "STREAMS"@) && stream::read_id_in(x) is Some
                    ==> stream::xread_reply(s, ns, seq![word, key, x], now_ms) == nothing
            }
        }),
{
    let (a, b, c, d) = (seq![key, x, y], seq![key, x], seq![key], seq![word, key, x]);
    assert(a[0] == key && a[1] == x && a[2] == y && b[0] == key && b[1] == x && c[0] == key);
    assert(d[0] == word && d[1] == key && d[2] == x);
    if text::is_word(word, "STREAMS"@) {
        reveal_strlit("STREAMS");
        reveal_strlit("COUNT");
    }
    reveal_with_fuel(stream::streams_read, 2);
    assert(stream::streams_read(s, ns, d, now_ms, None, 1, 0) == Ok::<_, ErrorView>(
        Seq::<RespView>::empty(),
    ));
}

/// A call that is refused for its number of arguments.
pub open spec fn refused(name: Seq<char>) -> Result<RespView, ErrorView> {
    Err(ErrorView::WrongArgCount(name))
}

/// The commands on keys refuse a call with another number of arguments than they
/// take, under their own names, and change nothing then.
#[verifier::rlimit(60)]
pub proof fn law_argument_counts_of_keys(
    s: StoreView,
    ns: Seq<u8>,
    a: Seq<Seq<u8>>,
    now_ms: i64,
)
    ensures
        string::get_reply(s, ns, a, now_ms) == refused("GET"@) <==> a.len() != 1,
        a.len() < 2 ==> string::set_outcome(s, ns, a, now_ms) == cmd::unchanged(
            refused("SET"@),
            s,
        ),
        a.len() < 1 ==> string::mget_reply(s, ns, a, now_ms) == refused("MGET"@),
        a.len() % 2 != 0 ==> string::mset_outcome(s, ns, a) == cmd::unchanged(refused("MSET"@), s),
        a.len() < 1 ==> string::del_outcome(s, ns, a, now_ms) == cmd::unchanged(refused("DEL"@), s),
        a.len() < 1 ==> string::exists_reply(s, ns, a, now_ms) == refused("EXISTS"@),
        a.len() != 1 ==> string::step_outcome(s, ns, a, now_ms, "INCR"@, 1) == cmd::unchanged(
            refused("INCR"@),
            s,
        ),
        a.len() != 1 ==> string::step_outcome(s, ns, a, now_ms, "DECR"@, -1) == cmd::unchanged(
            refused("DECR"@),
            s,
        ),
        a.len() != 2 ==> string::append_outcome(s, ns, a, now_ms) == cmd::unchanged(
            refused("APPEND"@),
            s,
        ),
        a.len() != 1 ==> string::ttl_reply(s, ns, a, now_ms, "TTL"@, true) == refused("TTL"@),
        a.len() != 1 ==> string::ttl_reply(s, ns, a, now_ms, "PTTL"@, false) == refused("PTTL"@),
        a.len() != 2 ==> string::expire_outcome(s, ns, a, now_ms) == cmd::unchanged(
            refused("EXPIRE"@),
            s,
        ),
        a.len() != 1 ==> string::persist_outcome(s, ns, a, now_ms) == cmd::unchanged(
            refused("PERSIST"@),
            s,
        ),
{
}

/// The commands on hashes and lists refuse a call with another
/// number of arguments than they take, under their own names, and change nothing
/// then.
#[verifier::rlimit(60)]
pub proof fn law_argument_counts_of_hashes_and_lists(
    s: StoreView,
    ns: Seq<u8>,
    a: Seq<Seq<u8>>,
    at: Moment,
)
    ensures
        a.len() < 3 || a.len() % 2 == 0 ==> hash::hset_outcome(s, ns, a, at) == cmd::unchanged(
            refused("HSET"@),
            s,
        ),
        a.len() != 2 ==> hash::hget_reply(s, ns, a, at.now_ms) == refused("HGET"@),
        a.len() < 2 ==> hash::hmget_reply(s, ns, a, at.now_ms) == refused("HMGET"@),
        a.len() != 1 ==> hash::hgetall_reply(s, ns, a, at.now_ms) == refused("HGETALL"@),
        a.len() < 2 ==> hash::hdel_outcome(s, ns, a, at.now_ms) == cmd::unchanged(
            refused("HDEL"@),
            s,
        ),
        a.len() != 2 ==> hash::hexists_reply(s, ns, a, at.now_ms) == refused("HEXISTS"@),
        a.len() != 1 ==> hash::hlen_reply(s, ns, a, at.now_ms) == refused("HLEN"@),
        a.len() < 2 ==> hash::hscan_reply(s, ns, a, at.now_ms) == refused("HSCAN"@),
        a.len() < 2 ==> list::push_outcome(s, ns, a, at, true) == cmd::unchanged(
            refused("LPUSH"@),
            s,
        ),
        a.len() < 2 ==> list::push_outcome(s, ns, a, at, false) == cmd::unchanged(
            refused("RPUSH"@),
            s,
        ),
        a.len() != 1 && a.len() != 2 ==> list::pop_outcome(s, ns, a, at.now_ms, true)
            == cmd::unchanged(refused("LPOP"@), s),
        a.len() != 1 && a.len() != 2 ==> list::pop_outcome(s, ns, a, at.now_ms, false)
            == cmd::unchanged(refused("RPOP"@), s),
        a.len() != 3 ==> list::lrange_reply(s, ns, a, at.now_ms) == refused("LRANGE"@),
        a.len() != 2 ==> list::lindex_reply(s, ns, a, at.now_ms) == refused("LINDEX"@),
        a.len() != 1 ==> list::llen_reply(s, ns, a, at.now_ms) == refused("LLEN"@),
{
}

/// The commands on sets refuse a call with another number of arguments than they
/// take, under their own names, and change nothing then.
#[verifier::rlimit(60)]
pub proof fn law_argument_counts_of_sets(
    s: StoreView,
    ns: Seq<u8>,
    a: Seq<Seq<u8>>,
    at: Moment,
)
    ensures
        a.len() < 2 ==> cmd::set::sadd_outcome(s, ns, a, at) == cmd::unchanged(
            refused("SADD"@),
            s,
        ),
        a.len() < 2 ==> cmd::set::srem_outcome(s, ns, a, at.now_ms) == cmd::unchanged(
            refused("SREM"@),
            s,
        ),
        a.len() < 1 || a.len() > 2 ==> cmd::set::spop_outcome(s, ns, a, at) == cmd::unchanged(
            refused("SPOP"@),
            s,
        ),
        a.len() != 2 ==> cmd::set::sismember_reply(s, ns, a, at.now_ms) == refused("SISMEMBER"@),
        a.len() != 1 ==> cmd::set::smembers_reply(s, ns, a, at.now_ms) == refused("SMEMBERS"@),
        a.len() != 1 ==> cmd::set::scard_reply(s, ns, a, at.now_ms) == refused("SCARD"@),
        a.len() < 1 ==> cmd::set::sinter_reply(s, ns, a, at.now_ms) == refused("SINTER"@),
        a.len() < 1 ==> cmd::set::sdiff_reply(s, ns, a, at.now_ms) == refused("SDIFF"@),
        a.len() < 1 ==> cmd::set::sunion_reply(s, ns, a, at.now_ms) == refused("SUNION"@),
{
}

/// The commands on bitmaps refuse a call with another number of arguments than
/// they take, under their own names, and change nothing then.
#[verifier::rlimit(60)]
pub proof fn law_argument_counts_of_bitmaps(
    s: StoreView,
    ns: Seq<u8>,
    a: Seq<Seq<u8>>,
    at: Moment,
)
    ensures
        a.len() != 3 ==> bitmap::setbit_outcome(s, ns, a, at) == cmd::unchanged(
            refused("SETBIT"@),
            s,
        ),
        a.len() != 2 ==> bitmap::getbit_reply(s, ns, a, at.now_ms) == refused("GETBIT"@),
        a.len() != 1 && a.len() != 3 ==> bitmap::bitcount_reply(s, ns, a, at.now_ms) == refused(
            "BITCOUNT"@,
        ),
        a.len() < 3 ==> bitmap::bitop_outcome(s, ns, a, at) == cmd::unchanged(
            refused("BITOP"@),
            s,
        ),
{
}

/// The commands that write to sorted sets refuse a call with another number of
/// arguments than they take, under their own names, and change nothing then.
#[verifier::rlimit(60)]
pub proof fn law_argument_counts_of_sorted_sets(
    s: StoreView,
    ns: Seq<u8>,
    a: Seq<Seq<u8>>,
    at: Moment,
    scores: Seq<Option<u64>>,
    sum: u64,
)
    ensures
        a.len() < 3 ==> zset::zadd_outcome(s, ns, a, at, scores, sum) == cmd::unchanged(
            refused("ZADD"@),
            s,
        ),
        a.len() != 3 ==> zset::zincrby_outcome(s, ns, a, at, scores, sum) == cmd::unchanged(
            refused("ZINCRBY"@),
            s,
        ),
        a.len() < 2 ==> zset::zrem_outcome(s, ns, a, at.now_ms) == cmd::unchanged(
            refused("ZREM"@),
            s,
        ),
{
}

/// The commands that read sorted sets refuse a call with another number of
/// arguments than they take, under their own names.
#[verifier::rlimit(60)]
pub proof fn law_argument_counts_of_sorted_set_reads(
    s: StoreView,
    ns: Seq<u8>,
    a: Seq<Seq<u8>>,
    at: Moment,
    scores: Seq<Option<u64>>,
)
    ensures
        a.len() != 2 ==> zset::zscore_reply(s, ns, a, at.now_ms) == refused("ZSCORE"@),
        a.len() != 1 ==> zset::zcard_reply(s, ns, a, at.now_ms) == refused("ZCARD"@),
        a.len() != 2 ==> zset::zrank_reply(s, ns, a, at.now_ms, false) == refused("ZRANK"@),
        a.len() != 2 ==> zset::zrank_reply(s, ns, a, at.now_ms, true) == refused("ZREVRANK"@),
        a.len() != 3 && a.len() != 4 ==> zset::zrange_reply(s, ns, a, at.now_ms, false) == refused(
            "ZRANGE"@,
        ),
        a.len() != 3 && a.len() != 4 ==> zset::zrange_reply(s, ns, a, at.now_ms, true) == refused(
            "ZREVRANGE"@,
        ),
        a.len() < 3 ==> zset::zrangebyscore_reply(s, ns, a, at.now_ms, scores, false) == refused(
            "ZRANGEBYSCORE"@,
        ),
        a.len() < 3 ==> zset::zrangebyscore_reply(s, ns, a, at.now_ms, scores, true) == refused(
            "ZREVRANGEBYSCORE"@,
        ),
{
}

/// The commands on streams refuse a call with another number of arguments than
/// they take, under their own names, and change nothing then.
#[verifier::rlimit(60)]
pub proof fn law_argument_counts_of_streams(
    s: StoreView,
    ns: Seq<u8>,
    a: Seq<Seq<u8>>,
    at: Moment,
)
    ensures
        a.len() < 3 || a.len() % 2 != 0 ==> stream::xadd_outcome(s, ns, a, at) == cmd::unchanged(
            refused("XADD"@),
            s,
        ),
        a.len() != 1 ==> stream::xlen_reply(s, ns, a, at.now_ms) == refused("XLEN"@),
        a.len() < 3 || a.len() > 5 ==> stream::xrange_reply(s, ns, a, at.now_ms) == refused(
            "XRANGE"@,
        ),
        a.len() < 3 ==> stream::xread_reply(s, ns, a, at.now_ms) == refused("XREAD"@),
{
}

/// PING replies its argument or a word, and ECHO its only argument.
pub proof fn law_ping_and_echo(a: Seq<Seq<u8>>)
    ensures
        admin::echo_reply(a) == refused("ECHO"@) <==> a.len() != 1,
        a.len() == 1 ==> admin::echo_reply(a) == Ok::<_, ErrorView>(
            RespView::BulkString(Some(a[0])),
        ),
        admin::ping_reply(a) == Ok::<_, ErrorView>(
            if a.len() == 0 {
                RespView::SimpleString("PONG"@)
            } else {
                RespView::BulkString(Some(a[0]))
            },
        ),
{
}

/// A command that fails with an error and changes nothing.
pub open spec fn fails(o: cmd::Outcome, e: ErrorView, s: StoreView) -> bool {
    o.reply == Err::<RespView, ErrorView>(e) && o.store == s
}

/// A reply that is an error.
pub open spec fn is_error(r: Result<RespView, ErrorView>, e: ErrorView) -> bool {
    r == Err::<RespView, ErrorView>(e)
}

/// The commands on strings, hashes and lists report it where a key holds something
/// else, or something that cannot be read, and leave it as it is.
#[verifier::rlimit(60)]
pub proof fn law_faults_of_strings_hashes_and_lists(
    s: StoreView,
    ns: Seq<u8>,
    a: Seq<Seq<u8>>,
    at: Moment,
    left: bool,
)
    requires
        a.len() > 0,
    ensures
        ({
            let found = string::string_value(s, ns, a[0], at.now_ms);
            let e = found->Err_0;
            found is Err ==> {
                &&& a.len() == 1 ==> is_error(string::get_reply(s, ns, a, at.now_ms), e)
                &&& a.len() == 1 ==> fails(
                    string::step_outcome(s, ns, a, at.now_ms, "INCR"@, 1),
                    e,
                    s,
                )
                &&& a.len() == 1 ==> fails(
                    string::step_outcome(s, ns, a, at.now_ms, "DECR"@, -1),
                    e,
                    s,
                )
                &&& a.len() == 2 ==> fails(string::append_outcome(s, ns, a, at.now_ms), e, s)
            }
        }),
        ({
            let found = hash::hash_meta(s, ns, a[0], at.now_ms);
            let e = found->Err_0;
            found is Err ==> {
                &&& a.len() >= 3 && a.len() % 2 == 1 ==> fails(
                    hash::hset_outcome(s, ns, a, at),
                    e,
                    s,
                )
                &&& a.len() == 2 ==> is_error(hash::hget_reply(s, ns, a, at.now_ms), e)
                &&& a.len() == 2 ==> is_error(hash::hexists_reply(s, ns, a, at.now_ms), e)
                &&& a.len() >= 2 ==> is_error(hash::hmget_reply(s, ns, a, at.now_ms), e)
                &&& a.len() >= 2 ==> fails(hash::hdel_outcome(s, ns, a, at.now_ms), e, s)
                &&& a.len() == 1 ==> is_error(hash::hgetall_reply(s, ns, a, at.now_ms), e)
                &&& a.len() == 1 ==> is_error(hash::hlen_reply(s, ns, a, at.now_ms), e)
            }
        }),
        ({
            let found = list::list_meta(s, ns, a[0], at.now_ms);
            let e = found->Err_0;
            found is Err ==> {
                &&& a.len() >= 2 ==> fails(list::push_outcome(s, ns, a, at, left), e, s)
                &&& a.len() == 1 ==> fails(list::pop_outcome(s, ns, a, at.now_ms, left), e, s)
                &&& a.len() == 1 ==> is_error(list::llen_reply(s, ns, a, at.now_ms), e)
                &&& a.len() == 2 && text::i64_in(a[1]) is Some ==> is_error(
                    list::lindex_reply(s, ns, a, at.now_ms),
                    e,
                )
                &&& a.len() == 3 && text::i64_in(a[1]) is Some && text::i64_in(a[2]) is Some
                    ==> is_error(list::lrange_reply(s, ns, a, at.now_ms), e)
            }
        }),
{
}

/// The commands on sets, bitmaps and streams report it where a key holds something
/// else, or something that cannot be read, and leave it as it is.
#[verifier::rlimit(60)]
pub proof fn law_faults_of_sets_bitmaps_and_streams(
    s: StoreView,
    ns: Seq<u8>,
    a: Seq<Seq<u8>>,
    at: Moment,
)
    requires
        a.len() > 0,
    ensures
        ({
            let found = cmd::set::set_meta(s, ns, a[0], at.now_ms);
            let e = found->Err_0;
            found is Err ==> {
                &&& a.len() >= 2 ==> fails(cmd::set::sadd_outcome(s, ns, a, at), e, s)
                &&& a.len() >= 2 ==> fails(cmd::set::srem_outcome(s, ns, a, at.now_ms), e, s)
                &&& a.len() == 1 ==> fails(cmd::set::spop_outcome(s, ns, a, at), e, s)
                &&& a.len() == 2 ==> is_error(cmd::set::sismember_reply(s, ns, a, at.now_ms), e)
                &&& a.len() == 1 ==> is_error(cmd::set::smembers_reply(s, ns, a, at.now_ms), e)
                &&& a.len() == 1 ==> is_error(cmd::set::scard_reply(s, ns, a, at.now_ms), e)
            }
        }),
        ({
            let found = bitmap::bitmap_meta(s, ns, a[0], at.now_ms);
            let e = found->Err_0;
            found is Err ==> {
                &&& a.len() == 3 && text::u64_in(a[1]) is Some && (a[2] == seq![48u8] || a[2]
                    == seq![49u8]) ==> fails(bitmap::setbit_outcome(s, ns, a, at), e, s)
                &&& a.len() == 2 && text::u64_in(a[1]) is Some ==> is_error(
                    bitmap::getbit_reply(s, ns, a, at.now_ms),
                    e,
                )
                &&& a.len() == 1 ==> is_error(bitmap::bitcount_reply(s, ns, a, at.now_ms), e)
            }
        }),
        ({
            let found = stream::stream_meta(s, ns, a[0], at.now_ms);
            let e = found->Err_0;
            found is Err ==> {
                &&& a.len() >= 4 && a.len() % 2 == 0 ==> fails(
                    stream::xadd_outcome(s, ns, a, at),
                    e,
                    s,
                )
                &&& a.len() == 1 ==> is_error(stream::xlen_reply(s, ns, a, at.now_ms), e)
                &&& a.len() == 3 && stream::bound_in(a[1]) is Some && stream::bound_in(a[2]) is Some
                    ==> is_error(stream::xrange_reply(s, ns, a, at.now_ms), e)
            }
        }),
{
    assert(seq![48u8][0] != seq![49u8][0]);
}

/// The commands on sorted sets report it where a key holds something else, or
/// something that cannot be read, and leave it as it is.
#[verifier::rlimit(60)]
pub proof fn law_faults_of_sorted_sets(
    s: StoreView,
    ns: Seq<u8>,
    a: Seq<Seq<u8>>,
    at: Moment,
    scores: Seq<Option<u64>>,
    sum: u64,
    reverse: bool,
)
    requires
        a.len() > 0,
        zset::zset_meta(s, ns, a[0], at.now_ms) is Err,
    ensures
        ({
            let e = zset::zset_meta(s, ns, a[0], at.now_ms)->Err_0;
            &&& a.len() >= 2 ==> fails(zset::zrem_outcome(s, ns, a, at.now_ms), e, s)
            &&& a.len() == 2 ==> is_error(zset::zscore_reply(s, ns, a, at.now_ms), e)
            &&& a.len() == 1 ==> is_error(zset::zcard_reply(s, ns, a, at.now_ms), e)
            &&& a.len() == 2 ==> is_error(zset::zrank_reply(s, ns, a, at.now_ms, reverse), e)
            &&& a.len() == 3 ==> is_error(zset::zrange_reply(s, ns, a, at.now_ms, reverse), e)
            &&& a.len() >= 3 ==> is_error(
                zset::zrangebyscore_reply(s, ns, a, at.now_ms, scores, reverse),
                e,
            )
            &&& a.len() == 3 && zset::score_arg(scores, 1) is Some ==> fails(
                zset::zincrby_outcome(s, ns, a, at, scores, sum),
                e,
                s,
            )
            &&& zset::zadd_outcome(s, ns, a, at, scores, sum).reply is Err
            &&& zset::zadd_outcome(s, ns, a, at, scores, sum).store == s
        }),
{
}

} // verus!
