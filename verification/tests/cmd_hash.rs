//! Hash commands.

use kvdb_rs::clock;
use kvdb_rs::cmd::dispatch::Dispatched;
use kvdb_rs::cmd::zset::{self, Floats};
use kvdb_rs::cmd::{CommandContext, CommandTable};
use kvdb_rs::protocol::RespValue;
use kvdb_rs::Config;

/// The number that an argument writes, as its bits.
fn number(arg: &[u8]) -> Option<u64> {
    let text = std::str::from_utf8(arg).ok()?;
    let score: f64 = text.parse().ok()?;
    if score.is_nan() {
        return None;
    }
    Some(score.to_bits())
}

/// The floating point work that a command takes as given.
fn floats(ctx: &CommandContext, name: &[u8], args: &[Vec<u8>], now_ms: i64) -> Floats {
    let scores = args.iter().map(|a| number(a)).collect();
    let mut given = Floats { scores, sum: 0 };
    if let Some((a, b)) = zset::increment_addends(ctx, name, args, &given, now_ms) {
        given.sum = (f64::from_bits(a) + f64::from_bits(b)).to_bits();
    }
    given
}

/// The reply with scores as decimal text.
fn rendered(value: RespValue) -> RespValue {
    match value {
        RespValue::Score(bits) => {
            let score = f64::from_bits(bits);
            let text = if score.fract() == 0.0 && score.is_finite() {
                format!("{:.0}", score)
            } else {
                score.to_string()
            };
            RespValue::BulkString(Some(text.into_bytes()))
        }
        RespValue::Array(items) => RespValue::Array(items.into_iter().map(rendered).collect()),
        other => other,
    }
}

fn run(ctx: &mut CommandContext, name: &[u8], args: &[Vec<u8>]) -> RespValue {
    let at = clock::this_moment(&mut ctx.versions).unwrap();
    let given = floats(ctx, name, args, at.now_ms);
    match CommandTable::new().dispatch_at(ctx, name, args, at, &given) {
        Dispatched::Reply(v) => rendered(v),
        Dispatched::Script(call) => panic!("script: {:?}", call),
    }
}

fn setup() -> CommandContext {
    CommandContext::new(Config::default())
}

fn dispatch(ctx: &mut CommandContext, name: &str, args: &[&str]) -> RespValue {
    let args: Vec<Vec<u8>> = args.iter().map(|s| s.as_bytes().to_vec()).collect();
    run(ctx, name.as_bytes(), &args)
}

#[test]
fn hset_hget_basic() {
    let mut ctx = setup();

    let reply = dispatch(&mut ctx, "HSET", &["h", "f1", "v1", "f2", "v2"]);
    assert_eq!(reply, RespValue::Integer(2));

    let reply = dispatch(&mut ctx, "HGET", &["h", "f1"]);
    assert_eq!(
        reply,
        RespValue::BulkString(Some(b"v1".to_vec()))
    );

    let reply = dispatch(&mut ctx, "HGET", &["h", "f2"]);
    assert_eq!(
        reply,
        RespValue::BulkString(Some(b"v2".to_vec()))
    );

    let reply = dispatch(&mut ctx, "HGET", &["h", "missing"]);
    assert_eq!(reply, RespValue::BulkString(None));
}

#[test]
fn hset_update_existing_field() {
    let mut ctx = setup();

    let reply = dispatch(&mut ctx, "HSET", &["h", "f1", "v1"]);
    assert_eq!(reply, RespValue::Integer(1));

    let reply = dispatch(&mut ctx, "HSET", &["h", "f1", "v1_new"]);
    assert_eq!(reply, RespValue::Integer(0));

    let reply = dispatch(&mut ctx, "HGET", &["h", "f1"]);
    assert_eq!(
        reply,
        RespValue::BulkString(Some(b"v1_new".to_vec()))
    );
}

#[test]
fn hmget_returns_array() {
    let mut ctx = setup();

    dispatch(&mut ctx, "HSET", &["h", "a", "1", "b", "2"]);
    let reply = dispatch(&mut ctx, "HMGET", &["h", "a", "missing", "b"]);
    assert_eq!(
        reply,
        RespValue::Array(vec![
            RespValue::BulkString(Some(b"1".to_vec())),
            RespValue::BulkString(None),
            RespValue::BulkString(Some(b"2".to_vec())),
        ])
    );
}

#[test]
fn hgetall_returns_fields_and_values() {
    let mut ctx = setup();

    dispatch(&mut ctx, "HSET", &["h", "a", "1", "b", "2"]);
    let reply = dispatch(&mut ctx, "HGETALL", &["h"]);
    let RespValue::Array(arr) = reply else {
        panic!("expected array, got {:?}", reply);
    };
    assert_eq!(arr.len(), 4);

    let mut map = std::collections::HashMap::new();
    for chunk in arr.chunks_exact(2) {
        let key = match &chunk[0] {
            RespValue::BulkString(Some(b)) => String::from_utf8_lossy(b).to_string(),
            _ => panic!("expected bulk string key"),
        };
        let value = match &chunk[1] {
            RespValue::BulkString(Some(b)) => String::from_utf8_lossy(b).to_string(),
            _ => panic!("expected bulk string value"),
        };
        map.insert(key, value);
    }
    assert_eq!(map.len(), 2);
    assert_eq!(map.get("a"), Some(&"1".to_string()));
    assert_eq!(map.get("b"), Some(&"2".to_string()));
}

#[test]
fn hdel_removes_fields() {
    let mut ctx = setup();

    dispatch(&mut ctx, "HSET", &["h", "a", "1", "b", "2"]);
    let reply = dispatch(&mut ctx, "HDEL", &["h", "a", "missing"]);
    assert_eq!(reply, RespValue::Integer(1));

    let reply = dispatch(&mut ctx, "HLEN", &["h"]);
    assert_eq!(reply, RespValue::Integer(1));

    let reply = dispatch(&mut ctx, "HEXISTS", &["h", "a"]);
    assert_eq!(reply, RespValue::Integer(0));

    let reply = dispatch(&mut ctx, "HEXISTS", &["h", "b"]);
    assert_eq!(reply, RespValue::Integer(1));
}

#[test]
fn hlen_counts_fields() {
    let mut ctx = setup();

    let reply = dispatch(&mut ctx, "HLEN", &["empty"]);
    assert_eq!(reply, RespValue::Integer(0));

    dispatch(&mut ctx, "HSET", &["h", "a", "1", "b", "2", "c", "3"]);
    let reply = dispatch(&mut ctx, "HLEN", &["h"]);
    assert_eq!(reply, RespValue::Integer(3));
}
