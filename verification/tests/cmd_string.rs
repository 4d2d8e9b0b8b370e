//! String commands and the commands on keys of every type.

use kvdb_rs::clock;
use kvdb_rs::cmd::dispatch::Dispatched;
use kvdb_rs::cmd::zset::{self, Floats};
use kvdb_rs::cmd::{CommandContext, CommandTable};
use kvdb_rs::protocol::RespValue;
use kvdb_rs::Config;

/// The number that an argument writes, as its bits.
fn number(arg: &[u8]) -> Option<u64> {
    let text = std::str::from_utf8(arg).ok()?;
    let score: f64 = text.parse().ok()?;
    if score.is_nan() {
        return None;
    }
    Some(score.to_bits())
}

/// The floating point work that a command takes as given.
fn floats(ctx: &CommandContext, name: &[u8], args: &[Vec<u8>], now_ms: i64) -> Floats {
    let scores = args.iter().map(|a| number(a)).collect();
    let mut given = Floats { scores, sum: 0 };
    if let Some((a, b)) = zset::increment_addends(ctx, name, args, &given, now_ms) {
        given.sum = (f64::from_bits(a) + f64::from_bits(b)).to_bits();
    }
    given
}

/// The reply with scores as decimal text.
fn rendered(value: RespValue) -> RespValue {
    match value {
        RespValue::Score(bits) => {
            let score = f64::from_bits(bits);
            let text = if score.fract() == 0.0 && score.is_finite() {
                format!("{:.0}", score)
            } else {
                score.to_string()
            };
            RespValue::BulkString(Some(text.into_bytes()))
        }
        RespValue::Array(items) => RespValue::Array(items.into_iter().map(rendered).collect()),
        other => other,
    }
}

fn run(ctx: &mut CommandContext, name: &[u8], args: &[Vec<u8>]) -> RespValue {
    let at = clock::this_moment(&mut ctx.versions).unwrap();
    let given = floats(ctx, name, args, at.now_ms);
    match CommandTable::new().dispatch_at(ctx, name, args, at, &given) {
        Dispatched::Reply(v) => rendered(v),
        Dispatched::Script(call) => panic!("script: {:?}", call),
    }
}

fn setup() -> CommandContext {
    CommandContext::new(Config::default())
}

fn dispatch(ctx: &mut CommandContext, name: &str, args: &[&str]) -> RespValue {
    let args: Vec<Vec<u8>> = args.iter().map(|s| s.as_bytes().to_vec()).collect();
    run(ctx, name.as_bytes(), &args)
}

#[test]
fn set_get_del_basic() {
    let mut ctx = setup();

    assert_eq!(
        dispatch(&mut ctx, "SET", &["k", "v"]),
        RespValue::SimpleString("OK".to_string())
    );
    assert_eq!(
        dispatch(&mut ctx, "GET", &["k"]),
        RespValue::BulkString(Some(b"v".to_vec()))
    );
    assert_eq!(
        dispatch(&mut ctx, "EXISTS", &["k"]),
        RespValue::Integer(1)
    );
    assert_eq!(dispatch(&mut ctx, "DEL", &["k"]), RespValue::Integer(1));
    assert_eq!(
        dispatch(&mut ctx, "GET", &["k"]),
        RespValue::BulkString(None)
    );
    assert_eq!(
        dispatch(&mut ctx, "EXISTS", &["k"]),
        RespValue::Integer(0)
    );
}

#[test]
fn exists_and_del_work_across_types() {
    let mut ctx = setup();

    // Hash
    dispatch(&mut ctx, "HSET", &["h", "f", "v"]);
    assert_eq!(
        dispatch(&mut ctx, "EXISTS", &["h"]),
        RespValue::Integer(1)
    );
    assert_eq!(dispatch(&mut ctx, "DEL", &["h"]), RespValue::Integer(1));
    assert_eq!(
        dispatch(&mut ctx, "HGET", &["h", "f"]),
        RespValue::BulkString(None)
    );

    // Set
    dispatch(&mut ctx, "SADD", &["s", "m"]);
    assert_eq!(
        dispatch(&mut ctx, "EXISTS", &["s"]),
        RespValue::Integer(1)
    );
    assert_eq!(dispatch(&mut ctx, "DEL", &["s"]), RespValue::Integer(1));
    assert_eq!(
        dispatch(&mut ctx, "SISMEMBER", &["s", "m"]),
        RespValue::Integer(0)
    );

    // ZSet
    dispatch(&mut ctx, "ZADD", &["z", "1", "m"]);
    assert_eq!(
        dispatch(&mut ctx, "EXISTS", &["z"]),
        RespValue::Integer(1)
    );
    assert_eq!(dispatch(&mut ctx, "DEL", &["z"]), RespValue::Integer(1));
    assert_eq!(
        dispatch(&mut ctx, "ZSCORE", &["z", "m"]),
        RespValue::BulkString(None)
    );

    // List
    dispatch(&mut ctx, "LPUSH", &["l", "a"]);
    assert_eq!(
        dispatch(&mut ctx, "EXISTS", &["l"]),
        RespValue::Integer(1)
    );
    assert_eq!(dispatch(&mut ctx, "DEL", &["l"]), RespValue::Integer(1));
    assert_eq!(
        dispatch(&mut ctx, "LLEN", &["l"]),
        RespValue::Integer(0)
    );

    // Stream
    dispatch(&mut ctx, "XADD", &["st", "1-0", "f", "v"]);
    assert_eq!(
        dispatch(&mut ctx, "EXISTS", &["st"]),
        RespValue::Integer(1)
    );
    assert_eq!(
        dispatch(&mut ctx, "DEL", &["st"]),
        RespValue::Integer(1)
    );
    assert_eq!(
        dispatch(&mut ctx, "XLEN", &["st"]),
        RespValue::Integer(0)
    );
}

#[test]
fn del_counts_only_existing_keys() {
    let mut ctx = setup();

    dispatch(&mut ctx, "SET", &["k1", "v"]);
    dispatch(&mut ctx, "SET", &["k2", "v"]);
    assert_eq!(
        dispatch(&mut ctx, "DEL", &["k1", "no-such", "k2"]),
        RespValue::Integer(2)
    );
}

#[test]
fn mset_writes_multiple_keys() {
    let mut ctx = setup();

    assert_eq!(
        dispatch(&mut ctx, "MSET", &["a", "1", "b", "2", "c", "3"]),
        RespValue::SimpleString("OK".to_string())
    );
    assert_eq!(
        dispatch(&mut ctx, "MGET", &["a", "b", "c"]),
        RespValue::Array(vec![
            RespValue::BulkString(Some(b"1".to_vec())),
            RespValue::BulkString(Some(b"2".to_vec())),
            RespValue::BulkString(Some(b"3".to_vec())),
        ])
    );
}

#[test]
fn mset_rejects_odd_arguments() {
    let mut ctx = setup();

    let reply = dispatch(&mut ctx, "MSET", &["a", "1", "b"]);
    assert!(matches!(reply, RespValue::Error(_)), "expected error");
}

#[test]
fn incr_decr_append_basic() {
    let mut ctx = setup();

    assert_eq!(
        dispatch(&mut ctx, "INCR", &["n"]),
        RespValue::Integer(1)
    );
    assert_eq!(
        dispatch(&mut ctx, "INCR", &["n"]),
        RespValue::Integer(2)
    );
    assert_eq!(
        dispatch(&mut ctx, "DECR", &["n"]),
        RespValue::Integer(1)
    );

    dispatch(&mut ctx, "SET", &["s", "hello"]);
    assert_eq!(
        dispatch(&mut ctx, "APPEND", &["s", " world"]),
        RespValue::Integer(11)
    );
    assert_eq!(
        dispatch(&mut ctx, "GET", &["s"]),
        RespValue::BulkString(Some(b"hello world".to_vec()))
    );
}

#[test]
fn set_nx_xx_options() {
    let mut ctx = setup();

    assert_eq!(
        dispatch(&mut ctx, "SET", &["k", "v1", "NX"]),
        RespValue::SimpleString("OK".to_string())
    );
    assert_eq!(
        dispatch(&mut ctx, "GET", &["k"]),
        RespValue::BulkString(Some(b"v1".to_vec()))
    );

    assert_eq!(
        dispatch(&mut ctx, "SET", &["k", "v2", "NX"]),
        RespValue::BulkString(None)
    );
    assert_eq!(
        dispatch(&mut ctx, "GET", &["k"]),
        RespValue::BulkString(Some(b"v1".to_vec()))
    );

    assert_eq!(
        dispatch(&mut ctx, "SET", &["k", "v3", "XX"]),
        RespValue::SimpleString("OK".to_string())
    );
    assert_eq!(
        dispatch(&mut ctx, "GET", &["k"]),
        RespValue::BulkString(Some(b"v3".to_vec()))
    );

    assert_eq!(
        dispatch(&mut ctx, "SET", &["missing", "v", "XX"]),
        RespValue::BulkString(None)
    );
}

#[test]
fn set_ex_px_options() {
    let mut ctx = setup();

    // SET with EX
    dispatch(&mut ctx, "SET", &["k1", "v", "EX", "100"]);
    let ttl = dispatch(&mut ctx, "TTL", &["k1"]);
    assert!(
        matches!(ttl, RespValue::Integer(n) if n > 0 && n <= 100),
        "expected TTL in (0, 100], got {:?}",
        ttl
    );

    // SET with PX
    dispatch(&mut ctx, "SET", &["k2", "v", "PX", "5000"]);
    let pttl = dispatch(&mut ctx, "PTTL", &["k2"]);
    assert!(
        matches!(pttl, RespValue::Integer(n) if n > 0 && n <= 5000),
        "expected PTTL in (0, 5000], got {:?}",
        pttl
    );
}

#[test]
fn expire_ttl_persist() {
    let mut ctx = setup();

    // EXPIRE on String
    dispatch(&mut ctx, "SET", &["s", "v"]);
    assert_eq!(
        dispatch(&mut ctx, "TTL", &["s"]),
        RespValue::Integer(-1)
    );
    assert_eq!(
        dispatch(&mut ctx, "EXPIRE", &["s", "100"]),
        RespValue::Integer(1)
    );
    let ttl = dispatch(&mut ctx, "TTL", &["s"]);
    assert!(matches!(ttl, RespValue::Integer(n) if n > 0 && n <= 100));

    // PERSIST
    assert_eq!(
        dispatch(&mut ctx, "PERSIST", &["s"]),
        RespValue::Integer(1)
    );
    assert_eq!(
        dispatch(&mut ctx, "TTL", &["s"]),
        RespValue::Integer(-1)
    );

    // EXPIRE on Hash (composite type)
    dispatch(&mut ctx, "HSET", &["h", "f", "v"]);
    assert_eq!(
        dispatch(&mut ctx, "EXPIRE", &["h", "200"]),
        RespValue::Integer(1)
    );
    let ttl = dispatch(&mut ctx, "TTL", &["h"]);
    assert!(matches!(ttl, RespValue::Integer(n) if n > 0 && n <= 200));

    assert_eq!(
        dispatch(&mut ctx, "TTL", &["noexist"]),
        RespValue::Integer(-2)
    );

    assert_eq!(
        dispatch(&mut ctx, "EXPIRE", &["noexist", "100"]),
        RespValue::Integer(0)
    );
}

#[test]
fn wrongtype_message_consistent_across_types() {
    let expected_msg = "WRONGTYPE Operation against a key holding the wrong kind of value";

    let mut ctx = setup();

    dispatch(&mut ctx, "SET", &["k", "v"]);

    let reply = dispatch(&mut ctx, "HSET", &["k", "f", "v"]);
    assert!(
        matches!(reply, RespValue::Error(ref e) if e == expected_msg),
        "HSET on String: {:?}",
        reply
    );

    let reply = dispatch(&mut ctx, "LPUSH", &["k", "v"]);
    assert!(
        matches!(reply, RespValue::Error(ref e) if e == expected_msg),
        "LPUSH on String: {:?}",
        reply
    );

    let reply = dispatch(&mut ctx, "SADD", &["k", "m"]);
    assert!(
        matches!(reply, RespValue::Error(ref e) if e == expected_msg),
        "SADD on String: {:?}",
        reply
    );

    let reply = dispatch(&mut ctx, "ZADD", &["k", "1", "m"]);
    assert!(
        matches!(reply, RespValue::Error(ref e) if e == expected_msg),
        "ZADD on String: {:?}",
        reply
    );

    let reply = dispatch(&mut ctx, "SETBIT", &["k", "0", "1"]);
    assert!(
        matches!(reply, RespValue::Error(ref e) if e == expected_msg),
        "SETBIT on String: {:?}",
        reply
    );

    let reply = dispatch(&mut ctx, "XADD", &["k", "1-0", "f", "v"]);
    assert!(
        matches!(reply, RespValue::Error(ref e) if e == expected_msg),
        "XADD on String: {:?}",
        reply
    );

    dispatch(&mut ctx, "HSET", &["h", "f", "v"]);
    let reply = dispatch(&mut ctx, "GET", &["h"]);
    assert!(
        matches!(reply, RespValue::Error(ref e) if e == expected_msg),
        "GET on Hash: {:?}",
        reply
    );

    dispatch(&mut ctx, "LPUSH", &["l", "v"]);
    let reply = dispatch(&mut ctx, "GET", &["l"]);
    assert!(
        matches!(reply, RespValue::Error(ref e) if e == expected_msg),
        "GET on List: {:?}",
        reply
    );

    dispatch(&mut ctx, "SADD", &["s", "m"]);
    let reply = dispatch(&mut ctx, "GET", &["s"]);
    assert!(
        matches!(reply, RespValue::Error(ref e) if e == expected_msg),
        "GET on Set: {:?}",
        reply
    );

    dispatch(&mut ctx, "ZADD", &["z", "1", "m"]);
    let reply = dispatch(&mut ctx, "GET", &["z"]);
    assert!(
        matches!(reply, RespValue::Error(ref e) if e == expected_msg),
        "GET on ZSet: {:?}",
        reply
    );

    dispatch(&mut ctx, "SETBIT", &["b", "0", "1"]);
    let reply = dispatch(&mut ctx, "GET", &["b"]);
    assert!(
        matches!(reply, RespValue::Error(ref e) if e == expected_msg),
        "GET on Bitmap: {:?}",
        reply
    );

    dispatch(&mut ctx, "XADD", &["st", "1-0", "f", "v"]);
    let reply = dispatch(&mut ctx, "GET", &["st"]);
    assert!(
        matches!(reply, RespValue::Error(ref e) if e == expected_msg),
        "GET on Stream: {:?}",
        reply
    );
}
