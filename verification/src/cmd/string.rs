//! String commands, and the commands that work on keys of every type.

use super::{
    array, expect_arg_count, expect_min_arg_count, ok, push_reply, wrong_type_error,
    CommandContext, Outcome,
};
use crate::cmd;
use crate::codec;
use crate::encoding;
use crate::error;
use crate::error::{ErrorView, KvdbError, KvdbResult};
use crate::protocol;
use crate::protocol::{RespValue, RespView};
use crate::storage;
use crate::storage::{Cf, StoreView, WriteBatch};
use crate::text;
use crate::types;
use crate::types::DataType;
use vstd::prelude::*;

verus! {

/// The string that a key holds: nothing if there is none or it has expired.
pub open spec fn string_value(s: StoreView, ns: Seq<u8>, key: Seq<u8>, now_ms: i64) -> Result<
    Option<Seq<u8>>,
    ErrorView,
> {
    match cmd::stored_meta(s, ns, key) {
        None => Ok(None),
        Some(v) => match encoding::string_in(v) {
            None => Err(ErrorView::Protocol("invalid string encoding"@)),
            Some((flags, expire, payload)) => if types::type_of_flags(flags) != Some(
                DataType::String,
            ) {
                Err(cmd::wrong_type())
            } else if types::expired(expire, now_ms) {
                Ok(None)
            } else {
                Ok(Some(payload))
            },
        },
    }
}

/// The stored form of a string.
pub open spec fn string_record(payload: Seq<u8>, expire: i64) -> Seq<u8> {
    encoding::string_bytes(types::flags_of(DataType::String), expire, payload)
}

/// The store with a string at a key.
pub open spec fn with_string(
    s: StoreView,
    ns: Seq<u8>,
    key: Seq<u8>,
    payload: Seq<u8>,
    expire: i64,
) -> StoreView {
    s.put(Cf::Metadata, encoding::meta_key_of(key, ns), string_record(payload, expire))
}

/// Reads the string that a key holds.
fn read_string(ctx: &CommandContext, user_key: &[u8], now_ms: i64) -> (r: KvdbResult<
    Option<Vec<u8>>,
>)
    ensures
        match r {
            Ok(Some(v)) => string_value(ctx.storage@, ctx.namespace@, user_key@, now_ms) == Ok::<
                _,
                ErrorView,
            >(Some(v@)),
            Ok(None) => string_value(ctx.storage@, ctx.namespace@, user_key@, now_ms) == Ok::<
                Option<Seq<u8>>,
                ErrorView,
            >(None),
            Err(e) => string_value(ctx.storage@, ctx.namespace@, user_key@, now_ms) == Err::<
                Option<Seq<u8>>,
                _,
            >(e@),
        },
{
    let v = match ctx.get_meta(user_key) {
        Some(v) => v,
        None => return Ok(None),
    };
    match encoding::decode_string(&v) {
        None => Err(error::protocol_error("invalid string encoding")),
        Some((flags, expire, payload)) => {
            match types::data_type_from_flags(flags) {
                Some(DataType::String) => {},
                _ => return Err(wrong_type_error()),
            }
            if expire > 0 && expire <= now_ms {
                return Ok(None);
            }
            Ok(Some(encoding::copy(payload)))
        },
    }
}

/// Stores a string at a key.
fn write_string(ctx: &mut CommandContext, user_key: &[u8], payload: &[u8], expire: i64)
    ensures
        final(ctx).storage@ == with_string(
            old(ctx).storage@,
            old(ctx).namespace@,
            user_key@,
            payload@,
            expire,
        ),
        final(ctx).kept(*old(ctx)),
{
    let key = ctx.meta_key(user_key);
    let value = encoding::encode_string(types::build_flags(DataType::String), expire, payload);
    ctx.storage.put_in(Cf::Metadata, &key, &value);
}

/// GET key.
pub open spec fn get_reply(s: StoreView, ns: Seq<u8>, a: Seq<Seq<u8>>, now_ms: i64) -> Result<
    RespView,
    ErrorView,
> {
    if a.len() != 1 {
        Err(cmd::wrong_args("GET"@))
    } else {
        match string_value(s, ns, a[0], now_ms) {
            Err(e) => Err(e),
            Ok(v) => Ok(cmd::bulk(v)),
        }
    }
}

pub fn get(ctx: &CommandContext, args: &[Vec<u8>], now_ms: i64) -> (r: KvdbResult<RespValue>)
    ensures
        cmd::reply_view(r) == get_reply(
            ctx.storage@,
            ctx.namespace@,
            encoding::byte_seqs(args@),
            now_ms,
        ),
{
    match expect_arg_count("GET", args, 1) {
        Ok(_) => {},
        Err(e) => return Err(e),
    }
    match read_string(ctx, &args[0], now_ms) {
        Ok(v) => Ok(RespValue::BulkString(v)),
        Err(e) => Err(e),
    }
}

/// A record is alive: it has no expiry time, or one that is still to come. A
/// record without room for one is alive too.
pub open spec fn alive(v: Seq<u8>, now_ms: i64) -> bool {
    v.len() >= 9 ==> !types::expired(encoding::i64_at(v, 1), now_ms)
}

/// Tells whether a record is alive.
pub fn read_alive(v: &[u8], now_ms: i64) -> (r: bool)
    ensures
        r == alive(v@, now_ms),
{
    if v.len() < 9 {
        return true;
    }
    let expire: i64 = encoding::read_i64(v, 1);
    !(expire > 0 && expire <= now_ms)
}

/// The record of a key of any type, if it is alive.
pub open spec fn live_record(s: StoreView, ns: Seq<u8>, key: Seq<u8>, now_ms: i64) -> Option<
    Seq<u8>,
> {
    match cmd::stored_meta(s, ns, key) {
        Some(v) => if alive(v, now_ms) {
            Some(v)
        } else {
            None
        },
        None => None,
    }
}

/// Reads the record of a key of any type.
fn read_live(ctx: &CommandContext, user_key: &[u8], now_ms: i64) -> (r: Option<Vec<u8>>)
    ensures
        crate::table::opt_bytes(r) == live_record(
            ctx.storage@,
            ctx.namespace@,
            user_key@,
            now_ms,
        ),
{
    let v = match ctx.get_meta(user_key) {
        Some(v) => v,
        None => return None,
    };
    if read_alive(&v, now_ms) {
        Some(v)
    } else {
        None
    }
}

/// What SET was asked for besides the value.
#[derive(Debug, Clone, Copy)]
pub struct SetOptions {
    /// Set only a key that is not there.
    pub nx: bool,
    /// Set only a key that is there.
    pub xx: bool,
    /// When the value expires; 0 for never.
    pub expire: i64,
}

/// The error for an expiry time that cannot be.
pub open spec fn bad_set_expire() -> ErrorView {
    ErrorView::Command("invalid expire time in 'set' command"@)
}

/// The expiry time after so many milliseconds.
pub open spec fn expire_after(now_ms: i64, left: int) -> Option<i64> {
    if left <= 0 || now_ms + left > i64::MAX || now_ms + left <= 0 {
        None
    } else {
        Some((now_ms + left) as i64)
    }
}

/// The options among the arguments from `i` on. EX and PX take a number, of
/// seconds or milliseconds, and the last one counts; other words are skipped.
pub open spec fn options_from(a: Seq<Seq<u8>>, i: int, o: SetOptions, now_ms: i64) -> Result<
    SetOptions,
    ErrorView,
>
    decreases a.len() - i,
{
    if i >= a.len() {
        Ok(o)
    } else if text::is_word(a[i], "NX"@) {
        options_from(a, i + 1, SetOptions { nx: true, ..o }, now_ms)
    } else if text::is_word(a[i], "XX"@) {
        options_from(a, i + 1, SetOptions { xx: true, ..o }, now_ms)
    } else if text::is_word(a[i], "EX"@) || text::is_word(a[i], "PX"@) {
        if i + 1 >= a.len() {
            Err(ErrorView::Command("syntax error"@))
        } else {
            match text::i64_in(a[i + 1]) {
                None => Err(ErrorView::NotInteger),
                Some(n) => {
                    let unit = if text::is_word(a[i], "EX"@) {
                        1000
                    } else {
                        1int
                    };
                    match expire_after(now_ms, n * unit) {
                        None => Err(bad_set_expire()),
                        Some(t) => options_from(a, i + 2, SetOptions { expire: t, ..o }, now_ms),
                    }
                },
            }
        }
    } else {
        options_from(a, i + 1, o, now_ms)
    }
}

/// SET key value [NX | XX] [EX seconds | PX milliseconds].
pub open spec fn set_outcome(s: StoreView, ns: Seq<u8>, a: Seq<Seq<u8>>, now_ms: i64) -> Outcome {
    if a.len() < 2 {
        cmd::unchanged(Err(cmd::wrong_args("SET"@)), s)
    } else {
        match options_from(a, 2, SetOptions { nx: false, xx: false, expire: 0 }, now_ms) {
            Err(e) => cmd::unchanged(Err(e), s),
            Ok(o) => {
                let there = live_record(s, ns, a[0], now_ms) is Some;
                if (o.nx && there) || (o.xx && !there) {
                    cmd::unchanged(Ok(cmd::bulk(None)), s)
                } else {
                    Outcome {
                        reply: Ok(cmd::ok_reply()),
                        store: with_string(s, ns, a[0], a[1], o.expire),
                    }
                }
            },
        }
    }
}

fn after_ms(now_ms: i64, n: i64, seconds: bool) -> (r: Option<i64>)
    ensures
        r == expire_after(
            now_ms,
            n * (if seconds {
                1000
            } else {
                1int
            }),
        ),
{
    if n <= 0 {
        return None;
    }
    let left: i128 = if seconds {
        n as i128 * 1000
    } else {
        n as i128
    };
    let t: i128 = now_ms as i128 + left;
    if t > i64::MAX as i128 || t <= 0 {
        return None;
    }
    Some(t as i64)
}

/// Reads the options of SET.
pub fn parse_set_options(args: &[Vec<u8>], now_ms: i64) -> (r: KvdbResult<SetOptions>)
    ensures
        ({
            let want = options_from(
                encoding::byte_seqs(args@),
                2,
                SetOptions { nx: false, xx: false, expire: 0 },
                now_ms,
            );
            match r {
                Ok(o) => want == Ok::<_, ErrorView>(o),
                Err(e) => want == Err::<SetOptions, _>(e@),
            }
        }),
{
    let ghost a = encoding::byte_seqs(args@);
    let mut o = SetOptions { nx: false, xx: false, expire: 0 };
    let ghost want = options_from(a, 2, o, now_ms);
    let mut i: usize = 2;
    while i < args.len()
        invariant
            2 <= i,
            i <= args@.len() || i == 2,
            a == encoding::byte_seqs(args@),
            want == options_from(a, 2, SetOptions { nx: false, xx: false, expire: 0 }, now_ms),
            want == options_from(a, i as int, o, now_ms),
        decreases args.len() - i,
    {
        proof {
            assert(a[i as int] == args@[i as int]@);
            assert(args.len() == args@.len());
        }
        if text::matches_word(&args[i], "NX") {
            o.nx = true;
            i = i + 1;
        } else if text::matches_word(&args[i], "XX") {
            o.xx = true;
            i = i + 1;
        } else {
            let seconds = text::matches_word(&args[i], "EX");
            if seconds || text::matches_word(&args[i], "PX") {
                if args.len() - i < 2 {
                    return Err(error::command_error("syntax error"));
                }
                proof {
                    assert(a[i + 1] == args@[i + 1]@);
                }
                let n: i64 = match text::parse_i64(&args[i + 1]) {
                    Some(n) => n,
                    None => return Err(KvdbError::NotInteger),
                };
                o.expire = match after_ms(now_ms, n, seconds) {
                    Some(t) => t,
                    None => return Err(error::command_error("invalid expire time in 'set' command")),
                };
                i = i + 2;
            } else {
                i = i + 1;
            }
        }
    }
    Ok(o)
}

pub fn set(ctx: &mut CommandContext, args: &[Vec<u8>], now_ms: i64) -> (r: KvdbResult<RespValue>)
    ensures
        cmd::outcome(r, final(ctx).storage@) == set_outcome(
            old(ctx).storage@,
            old(ctx).namespace@,
            encoding::byte_seqs(args@),
            now_ms,
        ),
        final(ctx).kept(*old(ctx)),
{
    proof {
        ctx.storage.lemma_follows_self();
    }
    match expect_min_arg_count("SET", args, 2) {
        Ok(_) => {},
        Err(e) => return Err(e),
    }
    let o = match parse_set_options(args, now_ms) {
        Ok(o) => o,
        Err(e) => return Err(e),
    };
    if o.nx || o.xx {
        let there = read_live(ctx, &args[0], now_ms).is_some();
        if (o.nx && there) || (o.xx && !there) {
            return Ok(RespValue::BulkString(None));
        }
    }
    write_string(ctx, &args[0], &args[1], o.expire);
    Ok(ok())
}

/// The strings of the first `n` keys as replies, or the first error.
pub open spec fn values_of(s: StoreView, ns: Seq<u8>, a: Seq<Seq<u8>>, now_ms: i64, n: nat) -> Result<
    Seq<RespView>,
    ErrorView,
>
    decreases n,
{
    if n == 0 {
        Ok(Seq::empty())
    } else {
        match values_of(s, ns, a, now_ms, (n - 1) as nat) {
            Err(e) => Err(e),
            Ok(before) => match string_value(s, ns, a[n - 1], now_ms) {
                Err(e) => Err(e),
                Ok(v) => Ok(before.push(cmd::bulk(v))),
            },
        }
    }
}

/// MGET key [key ...].
pub open spec fn mget_reply(s: StoreView, ns: Seq<u8>, a: Seq<Seq<u8>>, now_ms: i64) -> Result<
    RespView,
    ErrorView,
> {
    if a.len() < 1 {
        Err(cmd::wrong_args("MGET"@))
    } else {
        match values_of(s, ns, a, now_ms, a.len()) {
            Err(e) => Err(e),
            Ok(vs) => Ok(RespView::Array(vs)),
        }
    }
}

proof fn lemma_values_error(s: StoreView, ns: Seq<u8>, a: Seq<Seq<u8>>, now_ms: i64, n: nat, m: nat)
    requires
        n <= m,
        values_of(s, ns, a, now_ms, n) is Err,
    ensures
        values_of(s, ns, a, now_ms, m) == values_of(s, ns, a, now_ms, n),
    decreases m,
{
    if n < m {
        lemma_values_error(s, ns, a, now_ms, n, (m - 1) as nat);
    }
}

pub fn mget(ctx: &CommandContext, args: &[Vec<u8>], now_ms: i64) -> (r: KvdbResult<RespValue>)
    ensures
        cmd::reply_view(r) == mget_reply(
            ctx.storage@,
            ctx.namespace@,
            encoding::byte_seqs(args@),
            now_ms,
        ),
{
    match expect_min_arg_count("MGET", args, 1) {
        Ok(_) => {},
        Err(e) => return Err(e),
    }
    let ghost a = encoding::byte_seqs(args@);
    let ghost s = ctx.storage@;
    let ghost ns = ctx.namespace@;
    let mut result: Vec<RespValue> = Vec::new();
    let mut i: usize = 0;
    proof {
        assert(protocol::views(result@) =~= Seq::<RespView>::empty());
    }
    while i < args.len()
        invariant
            i <= args@.len(),
            a == encoding::byte_seqs(args@),
            a.len() >= 1,
            s == ctx.storage@,
            ns == ctx.namespace@,
            values_of(s, ns, a, now_ms, i as nat) == Ok::<_, ErrorView>(protocol::views(result@)),
        decreases args.len() - i,
    {
        proof {
            assert(a[i as int] == args@[i as int]@);
        }
        match read_string(ctx, &args[i], now_ms) {
            Ok(v) => {
                push_reply(&mut result, RespValue::BulkString(v));
            },
            Err(e) => {
                proof {
                    lemma_values_error(s, ns, a, now_ms, (i + 1) as nat, a.len());
                }
                return Err(e);
            },
        }
        i = i + 1;
    }
    Ok(array(result))
}

/// The store with the first `n` pairs among the arguments set.
pub open spec fn pairs_set(s: StoreView, ns: Seq<u8>, a: Seq<Seq<u8>>, n: nat) -> StoreView
    decreases n,
{
    if n == 0 {
        s
    } else {
        with_string(
            pairs_set(s, ns, a, (n - 1) as nat),
            ns,
            a[2 * n - 2],
            a[2 * n - 1],
            0,
        )
    }
}

/// MSET key value [key value ...]: sets all the keys at once.
pub open spec fn mset_outcome(s: StoreView, ns: Seq<u8>, a: Seq<Seq<u8>>) -> Outcome {
    if a.len() % 2 != 0 {
        cmd::unchanged(Err(cmd::wrong_args("MSET"@)), s)
    } else {
        Outcome { reply: Ok(cmd::ok_reply()), store: pairs_set(s, ns, a, (a.len() / 2) as nat) }
    }
}

pub fn mset(ctx: &mut CommandContext, args: &[Vec<u8>]) -> (r: KvdbResult<RespValue>)
    ensures
        cmd::outcome(r, final(ctx).storage@) == mset_outcome(
            old(ctx).storage@,
            old(ctx).namespace@,
            encoding::byte_seqs(args@),
        ),
        final(ctx).kept(*old(ctx)),
        final(ctx).storage.pending().len() <= old(ctx).storage.pending().len() + 1,
{
    proof {
        ctx.storage.lemma_follows_self();
    }
    if args.len() % 2 != 0 {
        return Err(KvdbError::WrongArgCount("MSET"));
    }
    let ghost a = encoding::byte_seqs(args@);
    let ghost s = ctx.storage@;
    let ghost ns = ctx.namespace@;
    let mut batch = WriteBatch::new();
    let mut i: usize = 0;
    while i < args.len()
        invariant
            i <= args@.len(),
            i % 2 == 0,
            args@.len() % 2 == 0,
            a == encoding::byte_seqs(args@),
            *ctx == *old(ctx),
            s == ctx.storage@,
            ns == ctx.namespace@,
            storage::applied(s, batch@) == pairs_set(s, ns, a, (i / 2) as nat),
        decreases args.len() - i,
    {
        let key = ctx.meta_key(&args[i]);
        let value = encoding::encode_string(
            types::build_flags(DataType::String),
            0,
            &args[i + 1],
        );
        proof {
            let n = (i / 2 + 1) as nat;
            assert(a[2 * n - 2] == args@[i as int]@);
            assert(a[2 * n - 1] == args@[i + 1]@);
            assert((i + 2) / 2 == n);
        }
        batch.put(Cf::Metadata, &key, &value);
        i = i + 2;
    }
    ctx.storage.write(batch);
    Ok(ok())
}

/// The store without the first `n` keys among the arguments, taken one by one,
/// and how many of them were there.
pub open spec fn keys_deleted(
    s: StoreView,
    ns: Seq<u8>,
    a: Seq<Seq<u8>>,
    now_ms: i64,
    n: nat,
) -> (StoreView, nat)
    decreases n,
{
    if n == 0 {
        (s, 0)
    } else {
        let (before, count) = keys_deleted(s, ns, a, now_ms, (n - 1) as nat);
        if live_record(before, ns, a[n - 1], now_ms) is Some {
            (before.del(Cf::Metadata, encoding::meta_key_of(a[n - 1], ns)), count + 1)
        } else {
            (before, count)
        }
    }
}

/// DEL key [key ...]: removes keys of any type and replies how many were
/// there.
pub open spec fn del_outcome(s: StoreView, ns: Seq<u8>, a: Seq<Seq<u8>>, now_ms: i64) -> Outcome {
    if a.len() < 1 {
        cmd::unchanged(Err(cmd::wrong_args("DEL"@)), s)
    } else {
        let (after, count) = keys_deleted(s, ns, a, now_ms, a.len());
        Outcome { reply: Ok(RespView::Integer(count as i64)), store: after }
    }
}

pub fn del(ctx: &mut CommandContext, args: &[Vec<u8>], now_ms: i64) -> (r: KvdbResult<RespValue>)
    ensures
        cmd::outcome(r, final(ctx).storage@) == del_outcome(
            old(ctx).storage@,
            old(ctx).namespace@,
            encoding::byte_seqs(args@),
            now_ms,
        ),
        final(ctx).kept(*old(ctx)),
{
    proof {
        ctx.storage.lemma_follows_self();
    }
    match expect_min_arg_count("DEL", args, 1) {
        Ok(_) => {},
        Err(e) => return Err(e),
    }
    let ghost a = encoding::byte_seqs(args@);
    let ghost s = ctx.storage@;
    let ghost ns = ctx.namespace@;
    let mut count: u64 = 0;
    let mut i: usize = 0;
    while i < args.len()
        invariant
            i <= args@.len(),
            count <= i,
            a == encoding::byte_seqs(args@),
            ns == old(ctx).namespace@,
            s == old(ctx).storage@,
            ctx.kept(*old(ctx)),
            keys_deleted(s, ns, a, now_ms, i as nat) == (ctx.storage@, count as nat),
        decreases args.len() - i,
    {
        proof {
            assert(a[i as int] == args@[i as int]@);
        }
        if read_live(ctx, &args[i], now_ms).is_some() {
            let key = ctx.meta_key(&args[i]);
            let ghost before = ctx.storage;
            ctx.storage.delete_in(Cf::Metadata, &key);
            proof {
                ctx.storage.lemma_follows_transitive(before, old(ctx).storage);
            }
            count = count + 1;
        }
        i = i + 1;
    }
    proof {
        assert(args.len() == args@.len());
    }
    Ok(RespValue::Integer(count as i64))
}

/// How many of the first `n` keys are there. A key that is named twice counts
/// twice.
pub open spec fn keys_there(s: StoreView, ns: Seq<u8>, a: Seq<Seq<u8>>, now_ms: i64, n: nat) -> nat
    decreases n,
{
    if n == 0 {
        0
    } else {
        keys_there(s, ns, a, now_ms, (n - 1) as nat) + (if live_record(
            s,
            ns,
            a[n - 1],
            now_ms,
        ) is Some {
            1nat
        } else {
            0nat
        })
    }
}

/// EXISTS key [key ...]: how many of the keys, of any type, are there.
pub open spec fn exists_reply(s: StoreView, ns: Seq<u8>, a: Seq<Seq<u8>>, now_ms: i64) -> Result<
    RespView,
    ErrorView,
> {
    if a.len() < 1 {
        Err(cmd::wrong_args("EXISTS"@))
    } else {
        Ok(RespView::Integer(keys_there(s, ns, a, now_ms, a.len()) as i64))
    }
}

pub fn exists_keys(ctx: &CommandContext, args: &[Vec<u8>], now_ms: i64) -> (r: KvdbResult<RespValue>)
    ensures
        cmd::reply_view(r) == exists_reply(
            ctx.storage@,
            ctx.namespace@,
            encoding::byte_seqs(args@),
            now_ms,
        ),
{
    match expect_min_arg_count("EXISTS", args, 1) {
        Ok(_) => {},
        Err(e) => return Err(e),
    }
    let ghost a = encoding::byte_seqs(args@);
    let mut count: u64 = 0;
    let mut i: usize = 0;
    while i < args.len()
        invariant
            i <= args@.len(),
            count <= i,
            a == encoding::byte_seqs(args@),
            count == keys_there(ctx.storage@, ctx.namespace@, a, now_ms, i as nat),
        decreases args.len() - i,
    {
        proof {
            assert(a[i as int] == args@[i as int]@);
        }
        if read_live(ctx, &args[i], now_ms).is_some() {
            count = count + 1;
        }
        i = i + 1;
    }
    proof {
        assert(args.len() == args@.len());
    }
    Ok(RespValue::Integer(count as i64))
}

/// INCR and DECR key: adds `step` to the number that the key holds, 0 if it
/// holds none, and replies the sum. The new value does not expire.
pub open spec fn step_outcome(
    s: StoreView,
    ns: Seq<u8>,
    a: Seq<Seq<u8>>,
    now_ms: i64,
    name: Seq<char>,
    step: int,
) -> Outcome {
    if a.len() != 1 {
        cmd::unchanged(Err(cmd::wrong_args(name)), s)
    } else {
        match string_value(s, ns, a[0], now_ms) {
            Err(e) => cmd::unchanged(Err(e), s),
            Ok(v) => {
                let current = match v {
                    None => Some(0i64),
                    Some(t) => text::i64_in(t),
                };
                match current {
                    None => cmd::unchanged(Err(ErrorView::NotInteger), s),
                    Some(n) => if n + step > i64::MAX || n + step < i64::MIN {
                        cmd::unchanged(Err(ErrorView::OutOfRange), s)
                    } else {
                        Outcome {
                            reply: Ok(RespView::Integer((n + step) as i64)),
                            store: with_string(s, ns, a[0], text::dec_signed(n + step), 0),
                        }
                    },
                }
            },
        }
    }
}

fn step_by(
    ctx: &mut CommandContext,
    name: &'static str,
    args: &[Vec<u8>],
    now_ms: i64,
    step: i64,
) -> (r: KvdbResult<RespValue>)
    ensures
        cmd::outcome(r, final(ctx).storage@) == step_outcome(
            old(ctx).storage@,
            old(ctx).namespace@,
            encoding::byte_seqs(args@),
            now_ms,
            name@,
            step as int,
        ),
        final(ctx).kept(*old(ctx)),
{
    proof {
        ctx.storage.lemma_follows_self();
    }
    match expect_arg_count(name, args, 1) {
        Ok(_) => {},
        Err(e) => return Err(e),
    }
    let current: i64 = match read_string(ctx, &args[0], now_ms) {
        Ok(Some(v)) => match text::parse_i64(&v) {
            Some(n) => n,
            None => return Err(KvdbError::NotInteger),
        },
        Ok(None) => 0,
        Err(e) => return Err(e),
    };
    let new: i64 = match current.checked_add(step) {
        Some(n) => n,
        None => return Err(KvdbError::OutOfRange),
    };
    let digits = text::signed_text(new);
    write_string(ctx, &args[0], &digits, 0);
    Ok(RespValue::Integer(new))
}

pub fn incr(ctx: &mut CommandContext, args: &[Vec<u8>], now_ms: i64) -> (r: KvdbResult<RespValue>)
    ensures
        cmd::outcome(r, final(ctx).storage@) == step_outcome(
            old(ctx).storage@,
            old(ctx).namespace@,
            encoding::byte_seqs(args@),
            now_ms,
            "INCR"@,
            1,
        ),
        final(ctx).kept(*old(ctx)),
{
    step_by(ctx, "INCR", args, now_ms, 1)
}

pub fn decr(ctx: &mut CommandContext, args: &[Vec<u8>], now_ms: i64) -> (r: KvdbResult<RespValue>)
    ensures
        cmd::outcome(r, final(ctx).storage@) == step_outcome(
            old(ctx).storage@,
            old(ctx).namespace@,
            encoding::byte_seqs(args@),
            now_ms,
            "DECR"@,
            -1,
        ),
        final(ctx).kept(*old(ctx)),
{
    step_by(ctx, "DECR", args, now_ms, -1)
}

/// APPEND key value: puts the value behind the string and replies its length.
/// The new value does not expire.
pub open spec fn append_outcome(s: StoreView, ns: Seq<u8>, a: Seq<Seq<u8>>, now_ms: i64) -> Outcome {
    if a.len() != 2 {
        cmd::unchanged(Err(cmd::wrong_args("APPEND"@)), s)
    } else {
        match string_value(s, ns, a[0], now_ms) {
            Err(e) => cmd::unchanged(Err(e), s),
            Ok(v) => {
                let whole = match v {
                    Some(t) => t + a[1],
                    None => a[1],
                };
                Outcome {
                    reply: Ok(cmd::count_reply(whole.len() as u64)),
                    store: with_string(s, ns, a[0], whole, 0),
                }
            },
        }
    }
}

pub fn append(ctx: &mut CommandContext, args: &[Vec<u8>], now_ms: i64) -> (r: KvdbResult<RespValue>)
    ensures
        cmd::outcome(r, final(ctx).storage@) == append_outcome(
            old(ctx).storage@,
            old(ctx).namespace@,
            encoding::byte_seqs(args@),
            now_ms,
        ),
        final(ctx).kept(*old(ctx)),
{
    proof {
        ctx.storage.lemma_follows_self();
    }
    match expect_arg_count("APPEND", args, 2) {
        Ok(_) => {},
        Err(e) => return Err(e),
    }
    let mut current = match read_string(ctx, &args[0], now_ms) {
        Ok(Some(v)) => v,
        Ok(None) => Vec::new(),
        Err(e) => return Err(e),
    };
    encoding::extend(&mut current, &args[1]);
    proof {
        assert(Seq::<u8>::empty() + args@[1]@ =~= args@[1]@);
    }
    let len: u64 = current.len() as u64;
    write_string(ctx, &args[0], &current, 0);
    Ok(super::count_value(len))
}

/// How long a record lives, in milliseconds: nothing if it does not expire. A
/// time that no reply can carry is given as the greatest that one can.
pub open spec fn time_left(v: Seq<u8>, now_ms: i64) -> Option<i64> {
    if v.len() < 9 || encoding::i64_at(v, 1) <= 0 {
        None
    } else {
        let left = encoding::i64_at(v, 1) - now_ms;
        if left > i64::MAX {
            Some(i64::MAX)
        } else {
            Some(left as i64)
        }
    }
}

/// Milliseconds as seconds, rounded.
pub open spec fn rounded_seconds(ms: i64) -> int {
    (ms + 500) / 1000
}

/// TTL and PTTL key: the time that a key has left, -1 if it does not expire,
/// -2 if it is not there.
pub open spec fn ttl_reply(
    s: StoreView,
    ns: Seq<u8>,
    a: Seq<Seq<u8>>,
    now_ms: i64,
    name: Seq<char>,
    seconds: bool,
) -> Result<RespView, ErrorView> {
    if a.len() != 1 {
        Err(cmd::wrong_args(name))
    } else {
        Ok(
            RespView::Integer(
                match live_record(s, ns, a[0], now_ms) {
                    None => -2i64,
                    Some(v) => match time_left(v, now_ms) {
                        None => -1i64,
                        Some(ms) => if seconds {
                            rounded_seconds(ms) as i64
                        } else {
                            ms
                        },
                    },
                },
            ),
        )
    }
}

fn time_to_live(
    ctx: &CommandContext,
    name: &'static str,
    args: &[Vec<u8>],
    now_ms: i64,
    seconds: bool,
) -> (r: KvdbResult<RespValue>)
    ensures
        cmd::reply_view(r) == ttl_reply(
            ctx.storage@,
            ctx.namespace@,
            encoding::byte_seqs(args@),
            now_ms,
            name@,
            seconds,
        ),
{
    match expect_arg_count(name, args, 1) {
        Ok(_) => {},
        Err(e) => return Err(e),
    }
    let v = match read_live(ctx, &args[0], now_ms) {
        Some(v) => v,
        None => return Ok(RespValue::Integer(-2)),
    };
    if v.len() < 9 {
        return Ok(RespValue::Integer(-1));
    }
    let expire: i64 = encoding::read_i64(&v, 1);
    if expire <= 0 {
        return Ok(RespValue::Integer(-1));
    }
    let left: i64 = match expire.checked_sub(now_ms) {
        Some(n) => n,
        None => i64::MAX,
    };
    if seconds {
        let more: i64 = if left % 1000 >= 500 {
            1
        } else {
            0
        };
        Ok(RespValue::Integer(left / 1000 + more))
    } else {
        Ok(RespValue::Integer(left))
    }
}

pub fn ttl(ctx: &CommandContext, args: &[Vec<u8>], now_ms: i64) -> (r: KvdbResult<RespValue>)
    ensures
        cmd::reply_view(r) == ttl_reply(
            ctx.storage@,
            ctx.namespace@,
            encoding::byte_seqs(args@),
            now_ms,
            "TTL"@,
            true,
        ),
{
    time_to_live(ctx, "TTL", args, now_ms, true)
}

pub fn pttl(ctx: &CommandContext, args: &[Vec<u8>], now_ms: i64) -> (r: KvdbResult<RespValue>)
    ensures
        cmd::reply_view(r) == ttl_reply(
            ctx.storage@,
            ctx.namespace@,
            encoding::byte_seqs(args@),
            now_ms,
            "PTTL"@,
            false,
        ),
{
    time_to_live(ctx, "PTTL", args, now_ms, false)
}

/// A record with another expiry time.
pub open spec fn with_expire(v: Seq<u8>, expire: i64) -> Seq<u8> {
    v.take(1) + codec::be_i64(expire as int) + v.skip(9)
}

fn set_expire(v: &Vec<u8>, expire: i64) -> (r: Vec<u8>)
    requires
        v@.len() >= 9,
    ensures
        r@ == with_expire(v@, expire),
{
    let mut r: Vec<u8> = Vec::new();
    r.push(v[0]);
    codec::push_be(&mut r, codec::bits_of(expire), 8);
    encoding::extend(&mut r, vstd::slice::slice_subrange(v.as_slice(), 9, v.len()));
    proof {
        assert(r@ =~= with_expire(v@, expire));
    }
    r
}

/// EXPIRE key seconds: gives a key of any type so long to live and replies 1,
/// or 0 if it is not there. No time at all removes the key.
pub open spec fn expire_outcome(s: StoreView, ns: Seq<u8>, a: Seq<Seq<u8>>, now_ms: i64) -> Outcome {
    if a.len() != 2 {
        cmd::unchanged(Err(cmd::wrong_args("EXPIRE"@)), s)
    } else {
        match text::i64_in(a[1]) {
            None => cmd::unchanged(Err(ErrorView::NotInteger), s),
            Some(n) => match live_record(s, ns, a[0], now_ms) {
                None => cmd::unchanged(Ok(RespView::Integer(0)), s),
                Some(v) => if n <= 0 {
                    Outcome {
                        reply: Ok(RespView::Integer(1)),
                        store: s.del(Cf::Metadata, encoding::meta_key_of(a[0], ns)),
                    }
                } else {
                    match expire_after(now_ms, n * 1000) {
                        None => cmd::unchanged(
                            Err(ErrorView::Command("invalid expire time in 'expire' command"@)),
                            s,
                        ),
                        Some(t) => if v.len() < 9 {
                            cmd::unchanged(
                                Err(ErrorView::Protocol("invalid metadata encoding"@)),
                                s,
                            )
                        } else {
                            Outcome {
                                reply: Ok(RespView::Integer(1)),
                                store: s.put(
                                    Cf::Metadata,
                                    encoding::meta_key_of(a[0], ns),
                                    with_expire(v, t),
                                ),
                            }
                        },
                    }
                },
            },
        }
    }
}

pub fn expire(ctx: &mut CommandContext, args: &[Vec<u8>], now_ms: i64) -> (r: KvdbResult<RespValue>)
    ensures
        cmd::outcome(r, final(ctx).storage@) == expire_outcome(
            old(ctx).storage@,
            old(ctx).namespace@,
            encoding::byte_seqs(args@),
            now_ms,
        ),
        final(ctx).kept(*old(ctx)),
{
    proof {
        ctx.storage.lemma_follows_self();
    }
    match expect_arg_count("EXPIRE", args, 2) {
        Ok(_) => {},
        Err(e) => return Err(e),
    }
    let n: i64 = match text::parse_i64(&args[1]) {
        Some(n) => n,
        None => return Err(KvdbError::NotInteger),
    };
    let v = match read_live(ctx, &args[0], now_ms) {
        Some(v) => v,
        None => return Ok(RespValue::Integer(0)),
    };
    let key = ctx.meta_key(&args[0]);
    if n <= 0 {
        ctx.storage.delete_in(Cf::Metadata, &key);
        return Ok(RespValue::Integer(1));
    }
    let t: i64 = match after_ms(now_ms, n, true) {
        Some(t) => t,
        None => return Err(error::command_error("invalid expire time in 'expire' command")),
    };
    if v.len() < 9 {
        return Err(error::protocol_error("invalid metadata encoding"));
    }
    let record = set_expire(&v, t);
    ctx.storage.put_in(Cf::Metadata, &key, &record);
    Ok(RespValue::Integer(1))
}

/// PERSIST key: takes the expiry time away and replies 1, or 0 if the key is
/// not there or does not expire.
pub open spec fn persist_outcome(
    s: StoreView,
    ns: Seq<u8>,
    a: Seq<Seq<u8>>,
    now_ms: i64,
) -> Outcome {
    if a.len() != 1 {
        cmd::unchanged(Err(cmd::wrong_args("PERSIST"@)), s)
    } else {
        match live_record(s, ns, a[0], now_ms) {
            None => cmd::unchanged(Ok(RespView::Integer(0)), s),
            Some(v) => if v.len() < 9 || encoding::i64_at(v, 1) <= 0 {
                cmd::unchanged(Ok(RespView::Integer(0)), s)
            } else {
                Outcome {
                    reply: Ok(RespView::Integer(1)),
                    store: s.put(
                        Cf::Metadata,
                        encoding::meta_key_of(a[0], ns),
                        with_expire(v, 0),
                    ),
                }
            },
        }
    }
}

pub fn persist(ctx: &mut CommandContext, args: &[Vec<u8>], now_ms: i64) -> (r: KvdbResult<
    RespValue,
>)
    ensures
        cmd::outcome(r, final(ctx).storage@) == persist_outcome(
            old(ctx).storage@,
            old(ctx).namespace@,
            encoding::byte_seqs(args@),
            now_ms,
        ),
        final(ctx).kept(*old(ctx)),
{
    proof {
        ctx.storage.lemma_follows_self();
    }
    match expect_arg_count("PERSIST", args, 1) {
        Ok(_) => {},
        Err(e) => return Err(e),
    }
    let v = match read_live(ctx, &args[0], now_ms) {
        Some(v) => v,
        None => return Ok(RespValue::Integer(0)),
    };
    if v.len() < 9 {
        return Ok(RespValue::Integer(0));
    }
    let t: i64 = encoding::read_i64(&v, 1);
    if t <= 0 {
        return Ok(RespValue::Integer(0));
    }
    let key = ctx.meta_key(&args[0]);
    let record = set_expire(&v, 0);
    ctx.storage.put_in(Cf::Metadata, &key, &record);
    Ok(RespValue::Integer(1))
}

/// The string that was stored is read back until it expires, and the values of
/// all other keys stay as they are.
pub proof fn law_string_is_read_back(
    s: StoreView,
    ns: Seq<u8>,
    key: Seq<u8>,
    payload: Seq<u8>,
    expire: i64,
    other: Seq<u8>,
    now_ms: i64,
)
    ensures
        string_value(with_string(s, ns, key, payload, expire), ns, key, now_ms) == Ok::<
            _,
            ErrorView,
        >(
            if types::expired(expire, now_ms) {
                None
            } else {
                Some(payload)
            },
        ),
        cmd::kept_apart(key, other, ns) ==> string_value(
            with_string(s, ns, key, payload, expire),
            ns,
            other,
            now_ms,
        ) == string_value(s, ns, other, now_ms),
        cmd::kept_apart(key, other, ns) ==> live_record(
            with_string(s, ns, key, payload, expire),
            ns,
            other,
            now_ms,
        ) == live_record(s, ns, other, now_ms),
{
    let flags = types::flags_of(DataType::String);
    cmd::law_records_are_separate(s, ns, key, string_record(payload, expire), other);
    lemma_string_record(payload, expire);
}

proof fn lemma_string_record(payload: Seq<u8>, expire: i64)
    ensures
        encoding::string_in(string_record(payload, expire)) == Some(
            (types::flags_of(DataType::String), expire, payload),
        ),
        types::type_of_flags(types::flags_of(DataType::String)) == Some(DataType::String),
{
    let m = types::fresh_metadata(DataType::Hash, 0);
    types::law_flags_round_trip(DataType::String);
    types::law_flags_round_trip(DataType::Hash);
    encoding::law_values_round_trip(m, types::flags_of(DataType::String), expire, payload);
}

/// GET after SET gives the value that was set, if the options let it be set.
pub proof fn law_get_after_set(s: StoreView, ns: Seq<u8>, a: Seq<Seq<u8>>, at_ms: i64, now_ms: i64)
    requires
        a.len() >= 2,
        set_outcome(s, ns, a, at_ms).reply == Ok::<_, ErrorView>(cmd::ok_reply()),
    ensures
        ({
            let o = options_from(
                a,
                2,
                SetOptions { nx: false, xx: false, expire: 0 },
                at_ms,
            )->Ok_0;
            get_reply(set_outcome(s, ns, a, at_ms).store, ns, seq![a[0]], now_ms) == Ok::<
                _,
                ErrorView,
            >(
                cmd::bulk(
                    if types::expired(o.expire, now_ms) {
                        None
                    } else {
                        Some(a[1])
                    },
                ),
            )
        }),
{
    let o = options_from(a, 2, SetOptions { nx: false, xx: false, expire: 0 }, at_ms)->Ok_0;
    law_string_is_read_back(s, ns, a[0], a[1], o.expire, a[0], now_ms);
}

/// NX never changes a key that is there, and XX never makes one.
pub proof fn law_set_conditions(s: StoreView, ns: Seq<u8>, a: Seq<Seq<u8>>, now_ms: i64)
    requires
        a.len() >= 2,
        options_from(a, 2, SetOptions { nx: false, xx: false, expire: 0 }, now_ms) is Ok,
    ensures
        ({
            let o = options_from(
                a,
                2,
                SetOptions { nx: false, xx: false, expire: 0 },
                now_ms,
            )->Ok_0;
            let there = live_record(s, ns, a[0], now_ms) is Some;
            (o.nx && there) || (o.xx && !there) <==> set_outcome(s, ns, a, now_ms)
                == cmd::unchanged(Ok(cmd::bulk(None)), s)
        }),
{
    reveal_strlit("OK");
}

/// DEL leaves no key of the list there: neither DEL nor EXISTS counts it
/// again, and GET finds nothing. The default namespace must not have a record
/// for it.
pub proof fn law_deleted_key_is_gone(
    s: StoreView,
    ns: Seq<u8>,
    key: Seq<u8>,
    other: Seq<u8>,
    now_ms: i64,
    later_ms: i64,
)
    requires
        ns.len() > 0 ==> !s.metadata.contains_key(encoding::meta_key_of(key, Seq::empty())),
        live_record(s, ns, key, now_ms) is Some,
    ensures
        ({
            let o = del_outcome(s, ns, seq![key], now_ms);
            &&& o.reply == Ok::<_, ErrorView>(RespView::Integer(1))
            &&& live_record(o.store, ns, key, later_ms) is None
            &&& get_reply(o.store, ns, seq![key], later_ms) == Ok::<_, ErrorView>(cmd::bulk(None))
            &&& exists_reply(o.store, ns, seq![key], later_ms) == Ok::<_, ErrorView>(
                RespView::Integer(0),
            )
            &&& cmd::kept_apart(key, other, ns) ==> live_record(o.store, ns, other, later_ms) == live_record(
                s,
                ns,
                other,
                later_ms,
            )
        }),
{
    let a = seq![key];
    reveal_with_fuel(keys_deleted, 2);
    reveal_with_fuel(keys_there, 2);
    cmd::law_records_are_separate(s, ns, key, Seq::empty(), other);
    assert(keys_deleted(s, ns, a, now_ms, 0) == (s, 0nat));
    assert(keys_deleted(s, ns, a, now_ms, 1) == (
        s.del(Cf::Metadata, encoding::meta_key_of(key, ns)),
        1nat,
    ));
}

/// A key that has expired is as good as gone: GET finds nothing, EXISTS does
/// not count it, TTL says that it is not there.
pub proof fn law_expired_key_is_gone(s: StoreView, ns: Seq<u8>, key: Seq<u8>, now_ms: i64)
    requires
        cmd::stored_meta(s, ns, key) is Some,
        (cmd::stored_meta(s, ns, key)->0).len() >= 9,
        types::expired(encoding::i64_at(cmd::stored_meta(s, ns, key)->0, 1), now_ms),
    ensures
        live_record(s, ns, key, now_ms) is None,
        keys_there(s, ns, seq![key], now_ms, 1) == 0,
        ttl_reply(s, ns, seq![key], now_ms, "TTL"@, true) == Ok::<_, ErrorView>(
            RespView::Integer(-2i64),
        ),
        string_value(s, ns, key, now_ms) == Ok::<Option<Seq<u8>>, ErrorView>(None)
            || string_value(s, ns, key, now_ms) == Err::<Option<Seq<u8>>, _>(cmd::wrong_type()),
{
    reveal_with_fuel(keys_there, 2);
}

/// INCR and DECR undo each other, and both leave a number that reads back.
pub proof fn law_incr_and_decr_undo(s: StoreView, ns: Seq<u8>, key: Seq<u8>, now_ms: i64)
    requires
        step_outcome(s, ns, seq![key], now_ms, "INCR"@, 1).reply is Ok,
    ensures
        ({
            let up = step_outcome(s, ns, seq![key], now_ms, "INCR"@, 1);
            let down = step_outcome(up.store, ns, seq![key], now_ms, "DECR"@, -1);
            let n = (up.reply->Ok_0)->Integer_0;
            &&& string_value(up.store, ns, key, now_ms) == Ok::<_, ErrorView>(
                Some(text::dec_signed(n as int)),
            )
            &&& down.reply == Ok::<_, ErrorView>(RespView::Integer((n - 1) as i64))
            &&& string_value(down.store, ns, key, now_ms) == Ok::<_, ErrorView>(
                Some(text::dec_signed(n - 1)),
            )
        }),
{
    let up = step_outcome(s, ns, seq![key], now_ms, "INCR"@, 1);
    let n = (up.reply->Ok_0)->Integer_0;
    law_string_is_read_back(s, ns, key, text::dec_signed(n as int), 0, key, now_ms);
    text::law_decimal_round_trip(0, n as int);
    law_string_is_read_back(up.store, ns, key, text::dec_signed(n - 1), 0, key, now_ms);
}

/// The store after INCR was called `n` times for a key.
pub open spec fn counted_up(s: StoreView, ns: Seq<u8>, key: Seq<u8>, now_ms: i64, n: nat) -> StoreView
    decreases n,
{
    if n == 0 {
        s
    } else {
        step_outcome(
            counted_up(s, ns, key, now_ms, (n - 1) as nat),
            ns,
            seq![key],
            now_ms,
            "INCR"@,
            1,
        ).store
    }
}

/// The number that a key holds; one that is not there counts as 0.
pub open spec fn number_held(s: StoreView, ns: Seq<u8>, key: Seq<u8>, now_ms: i64) -> Option<i64> {
    match string_value(s, ns, key, now_ms) {
        Ok(Some(v)) => text::i64_in(v),
        Ok(None) => Some(0),
        Err(_) => None,
    }
}

/// INCR called `n` times adds `n`: every call replies one more than the one
/// before, and GET then gives the sum.
pub proof fn law_incr_counts_up(s: StoreView, ns: Seq<u8>, key: Seq<u8>, now_ms: i64, n: nat)
    requires
        n > 0,
        number_held(s, ns, key, now_ms) is Some,
        number_held(s, ns, key, now_ms)->0 + n <= i64::MAX,
    ensures
        ({
            let start = number_held(s, ns, key, now_ms)->0;
            let last = step_outcome(
                counted_up(s, ns, key, now_ms, (n - 1) as nat),
                ns,
                seq![key],
                now_ms,
                "INCR"@,
                1,
            );
            let after = counted_up(s, ns, key, now_ms, n);
            &&& last.reply == Ok::<_, ErrorView>(RespView::Integer((start + n) as i64))
            &&& string_value(after, ns, key, now_ms) == Ok::<_, ErrorView>(
                Some(text::dec_signed(start + n)),
            )
            &&& number_held(after, ns, key, now_ms) == Some((start + n) as i64)
        }),
    decreases n,
{
    let start = number_held(s, ns, key, now_ms)->0;
    let before = counted_up(s, ns, key, now_ms, (n - 1) as nat);
    if n > 1 {
        law_incr_counts_up(s, ns, key, now_ms, (n - 1) as nat);
    }
    assert(number_held(before, ns, key, now_ms) == Some((start + n - 1) as i64));
    assert(seq![key][0] == key);
    law_string_is_read_back(before, ns, key, text::dec_signed(start + n), 0, key, now_ms);
    text::law_decimal_round_trip(0, start + n);
}

/// APPEND puts the value behind what GET gave before.
pub proof fn law_get_after_append(
    s: StoreView,
    ns: Seq<u8>,
    key: Seq<u8>,
    value: Seq<u8>,
    now_ms: i64,
)
    requires
        string_value(s, ns, key, now_ms) is Ok,
    ensures
        ({
            let before = match string_value(s, ns, key, now_ms)->Ok_0 {
                Some(t) => t,
                None => Seq::empty(),
            };
            string_value(
                append_outcome(s, ns, seq![key, value], now_ms).store,
                ns,
                key,
                now_ms,
            ) == Ok::<_, ErrorView>(Some(before + value))
        }),
{
    let a = seq![key, value];
    let whole = match string_value(s, ns, key, now_ms)->Ok_0 {
        Some(t) => t + value,
        None => value,
    };
    assert(Seq::<u8>::empty() + value =~= value);
    law_string_is_read_back(s, ns, key, whole, 0, key, now_ms);
}

/// MSET sets every key to the last value that the arguments give it: a value
/// stays if no key behind it is the same.
pub proof fn law_mset_sets_all(
    s: StoreView,
    ns: Seq<u8>,
    a: Seq<Seq<u8>>,
    n: nat,
    i: int,
    now_ms: i64,
)
    requires
        2 * n <= a.len(),
        0 <= i < n,
        forall|j: int| i < j < n ==> cmd::kept_apart(#[trigger] a[2 * j], a[2 * i], ns),
    ensures
        string_value(pairs_set(s, ns, a, n), ns, a[2 * i], now_ms) == Ok::<_, ErrorView>(
            Some(a[2 * i + 1]),
        ),
    decreases n,
{
    let before = pairs_set(s, ns, a, (n - 1) as nat);
    law_string_is_read_back(before, ns, a[2 * n - 2], a[2 * n - 1], 0, a[2 * i], now_ms);
    if i < n - 1 {
        assert(cmd::kept_apart(a[2 * (n - 1)], a[2 * i], ns));
        law_mset_sets_all(s, ns, a, (n - 1) as nat, i, now_ms);
    }
}

/// EXPIRE gives a key of any type the time that TTL then shows, and PERSIST
/// takes it away again.
pub proof fn law_expire_ttl_persist(
    s: StoreView,
    ns: Seq<u8>,
    key: Seq<u8>,
    seconds: Seq<u8>,
    now_ms: i64,
)
    requires
        live_record(s, ns, key, now_ms) is Some,
        (live_record(s, ns, key, now_ms)->0).len() >= 9,
        text::i64_in(seconds) is Some,
        text::i64_in(seconds)->0 > 0,
        expire_after(now_ms, text::i64_in(seconds)->0 * 1000) is Some,
        0 <= now_ms,
    ensures
        ({
            let after = expire_outcome(s, ns, seq![key, seconds], now_ms);
            let back = persist_outcome(after.store, ns, seq![key], now_ms);
            &&& after.reply == Ok::<_, ErrorView>(RespView::Integer(1))
            &&& ttl_reply(after.store, ns, seq![key], now_ms, "TTL"@, true) == Ok::<_, ErrorView>(
                RespView::Integer(text::i64_in(seconds)->0),
            )
            &&& back.reply == Ok::<_, ErrorView>(RespView::Integer(1))
            &&& ttl_reply(back.store, ns, seq![key], now_ms, "TTL"@, true) == Ok::<_, ErrorView>(
                RespView::Integer(-1i64),
            )
        }),
{
    let v = live_record(s, ns, key, now_ms)->0;
    let n = text::i64_in(seconds)->0;
    let t = expire_after(now_ms, n * 1000)->0;
    let w = with_expire(v, t);
    let x = with_expire(w, 0);
    cmd::law_records_are_separate(s, ns, key, w, key);
    let after = expire_outcome(s, ns, seq![key, seconds], now_ms);
    cmd::law_records_are_separate(after.store, ns, key, x, key);
    lemma_expire_read_back(v, t);
    lemma_expire_read_back(w, 0);
    assert((n * 1000 + 500) / 1000 == n);
}

pub(crate) proof fn lemma_expire_read_back(v: Seq<u8>, t: i64)
    requires
        v.len() >= 9,
    ensures
        with_expire(v, t).len() == v.len(),
        encoding::i64_at(with_expire(v, t), 1) == t,
{
    codec::lemma_pow256_values();
    codec::lemma_bits_round_trip(t);
    codec::lemma_be_round_trip(codec::to_bits(t as int), 8);
    codec::lemma_be_len(codec::to_bits(t as int), 8);
    assert(with_expire(v, t).subrange(1, 9) =~= codec::be_i64(t as int));
}

} // verus!
