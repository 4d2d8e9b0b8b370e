//! Namespaces.

use kvdb_rs::clock;
use kvdb_rs::cmd::dispatch::Dispatched;
use kvdb_rs::cmd::zset::{self, Floats};
use kvdb_rs::cmd::{CommandContext, CommandTable};
use kvdb_rs::protocol::RespValue;
use kvdb_rs::Config;

/// The number that an argument writes, as its bits.
fn number(arg: &[u8]) -> Option<u64> {
    let text = std::str::from_utf8(arg).ok()?;
    let score: f64 = text.parse().ok()?;
    if score.is_nan() {
        return None;
    }
    Some(score.to_bits())
}

/// The floating point work that a command takes as given.
fn floats(ctx: &CommandContext, name: &[u8], args: &[Vec<u8>], now_ms: i64) -> Floats {
    let scores = args.iter().map(|a| number(a)).collect();
    let mut given = Floats { scores, sum: 0 };
    if let Some((a, b)) = zset::increment_addends(ctx, name, args, &given, now_ms) {
        given.sum = (f64::from_bits(a) + f64::from_bits(b)).to_bits();
    }
    given
}

/// The reply with scores as decimal text.
fn rendered(value: RespValue) -> RespValue {
    match value {
        RespValue::Score(bits) => {
            let score = f64::from_bits(bits);
            let text = if score.fract() == 0.0 && score.is_finite() {
                format!("{:.0}", score)
            } else {
                score.to_string()
            };
            RespValue::BulkString(Some(text.into_bytes()))
        }
        RespValue::Array(items) => RespValue::Array(items.into_iter().map(rendered).collect()),
        other => other,
    }
}

fn run(ctx: &mut CommandContext, name: &[u8], args: &[Vec<u8>]) -> RespValue {
    let at = clock::this_moment(&mut ctx.versions).unwrap();
    let given = floats(ctx, name, args, at.now_ms);
    match CommandTable::new().dispatch_at(ctx, name, args, at, &given) {
        Dispatched::Reply(v) => rendered(v),
        Dispatched::Script(call) => panic!("script: {:?}", call),
    }
}

fn setup() -> CommandContext {
    CommandContext::new(Config::default())
}

/// Runs a command in a namespace of the one store.
fn dispatch(ctx: &mut CommandContext, namespace: &[u8], name: &str, args: &[&str]) -> RespValue {
    ctx.namespace = namespace.to_vec();
    let args: Vec<Vec<u8>> = args.iter().map(|s| s.as_bytes().to_vec()).collect();
    run(ctx, name.as_bytes(), &args)
}

#[test]
fn namespace_isolation() {
    let mut ctx = setup();
    let ns1 = b"ns1";
    let ns2 = b"ns2";

    dispatch(&mut ctx, ns1, "SET", &["k", "v1"]);
    dispatch(&mut ctx, ns1, "SADD", &["set", "a"]);
    dispatch(&mut ctx, ns1, "XADD", &["stream", "1-0", "f", "v"]);

    assert_eq!(
        dispatch(&mut ctx, ns2, "GET", &["k"]),
        RespValue::BulkString(None)
    );
    assert_eq!(
        dispatch(&mut ctx, ns2, "EXISTS", &["k"]),
        RespValue::Integer(0)
    );
    assert_eq!(
        dispatch(&mut ctx, ns2, "SMEMBERS", &["set"]),
        RespValue::Array(vec![])
    );
    assert_eq!(
        dispatch(&mut ctx, ns2, "XLEN", &["stream"]),
        RespValue::Integer(0)
    );
    assert_eq!(dispatch(&mut ctx, ns2, "DBSIZE", &[]), RespValue::Integer(0));

    dispatch(&mut ctx, ns2, "SET", &["k", "v2"]);
    assert_eq!(
        dispatch(&mut ctx, ns2, "GET", &["k"]),
        RespValue::BulkString(Some(b"v2".to_vec()))
    );

    assert_eq!(
        dispatch(&mut ctx, ns1, "GET", &["k"]),
        RespValue::BulkString(Some(b"v1".to_vec()))
    );
}

#[test]
fn namespace_backward_compatible() {
    let mut ctx = setup();
    let old = b"";
    dispatch(&mut ctx, old, "SET", &["k", "old_v"]);

    let ns = b"ns1";
    assert_eq!(
        dispatch(&mut ctx, ns, "GET", &["k"]),
        RespValue::BulkString(Some(b"old_v".to_vec()))
    );

    dispatch(&mut ctx, ns, "SET", &["k", "new_v"]);
    assert_eq!(
        dispatch(&mut ctx, ns, "GET", &["k"]),
        RespValue::BulkString(Some(b"new_v".to_vec()))
    );

    assert_eq!(
        dispatch(&mut ctx, old, "GET", &["k"]),
        RespValue::BulkString(Some(b"old_v".to_vec()))
    );
}

#[test]
fn namespace_flushdb_isolated() {
    let mut ctx = setup();
    let ns1 = b"ns1";
    dispatch(&mut ctx, ns1, "SET", &["k", "v1"]);

    let ns2 = b"ns2";
    dispatch(&mut ctx, ns2, "SET", &["k", "v2"]);

    dispatch(&mut ctx, ns1, "FLUSHDB", &[]);
    assert_eq!(dispatch(&mut ctx, ns1, "DBSIZE", &[]), RespValue::Integer(0));
    assert_eq!(
        dispatch(&mut ctx, ns2, "GET", &["k"]),
        RespValue::BulkString(Some(b"v2".to_vec()))
    );
}
