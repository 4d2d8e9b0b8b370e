//! Sorted set commands over the wire.

use kvdb_rs::clock;
use kvdb_rs::cmd::dispatch::Dispatched;
use kvdb_rs::cmd::zset::{self, Floats};
use kvdb_rs::cmd::{CommandContext, CommandTable};
use kvdb_rs::protocol::{RespParser, RespSerializer, RespValue};
use kvdb_rs::server::{Action, QueueRun, TransactionState};
use kvdb_rs::Config;

/// The number that an argument writes, as its bits.
fn number(arg: &[u8]) -> Option<u64> {
    let text = std::str::from_utf8(arg).ok()?;
    let score: f64 = text.parse().ok()?;
    if score.is_nan() {
        return None;
    }
    Some(score.to_bits())
}

/// The floating point work that a command takes as given.
fn floats(ctx: &CommandContext, name: &[u8], args: &[Vec<u8>], now_ms: i64) -> Floats {
    let scores = args.iter().map(|a| number(a)).collect();
    let mut given = Floats { scores, sum: 0 };
    if let Some((a, b)) = zset::increment_addends(ctx, name, args, &given, now_ms) {
        given.sum = (f64::from_bits(a) + f64::from_bits(b)).to_bits();
    }
    given
}

/// The reply with scores as decimal text.
fn rendered(value: RespValue) -> RespValue {
    match value {
        RespValue::Score(bits) => {
            let score = f64::from_bits(bits);
            let text = if score.fract() == 0.0 && score.is_finite() {
                format!("{:.0}", score)
            } else {
                score.to_string()
            };
            RespValue::BulkString(Some(text.into_bytes()))
        }
        RespValue::Array(items) => RespValue::Array(items.into_iter().map(rendered).collect()),
        other => other,
    }
}

fn run(ctx: &mut CommandContext, name: &[u8], args: &[Vec<u8>]) -> RespValue {
    let at = clock::this_moment(&mut ctx.versions).unwrap();
    let given = floats(ctx, name, args, at.now_ms);
    match CommandTable::new().dispatch_at(ctx, name, args, at, &given) {
        Dispatched::Reply(v) => rendered(v),
        Dispatched::Script(call) => panic!("script: {:?}", call),
    }
}

/// A server with its connections, without the sockets between.
struct Server {
    ctx: CommandContext,
}

/// A connection: its id and its transaction.
struct Connection {
    id: u64,
    transaction: TransactionState,
}

fn start() -> Server {
    Server { ctx: CommandContext::new(Config::default()) }
}

fn connect(server: &mut Server) -> Connection {
    let id = server.ctx.pubsub.alloc_client_id();
    Connection { id, transaction: TransactionState::new() }
}

/// Sends a command over a connection: the request and the reply go through
/// their bytes on the wire.
fn send_over(server: &mut Server, conn: &mut Connection, parts: &[&str]) -> RespValue {
    let mut request = format!("*{}\r\n", parts.len()).into_bytes();
    for p in parts {
        request.extend_from_slice(format!("${}\r\n{}\r\n", p.len(), p).as_bytes());
    }
    let (line, consumed) = RespParser::parse_cmd(&request).unwrap();
    assert_eq!(consumed, request.len());
    let ctx = &mut server.ctx;
    ctx.client_id = conn.id;
    let reply = match conn.transaction.step(ctx, line) {
        Action::Reply(v) => v,
        Action::Run(c) => run(ctx, &c.name, &c.args),
        Action::RunQueue(queue) => {
            let mut q = QueueRun::new(queue);
            loop {
                let reply = match q.next() {
                    Some(c) => run(ctx, &c.name, &c.args),
                    None => break,
                };
                q.answer(reply);
            }
            q.finish()
        }
    };
    let bytes = RespSerializer::serialize(&reply);
    let (value, read) = RespParser::parse_one(&bytes).unwrap();
    assert_eq!(read, bytes.len());
    value
}

/// A server and one connection to it.
struct Client {
    server: Server,
    conn: Connection,
}

fn start_server() -> Client {
    let mut server = start();
    let conn = connect(&mut server);
    Client { server, conn }
}

fn send_cmd(client: &mut Client, parts: &[&str]) -> RespValue {
    send_over(&mut client.server, &mut client.conn, parts)
}

fn bulk(s: &str) -> RespValue {
    RespValue::BulkString(Some(s.as_bytes().to_vec()))
}

#[test]
fn zadd_zcard_zscore_basic() {
    let mut stream = start_server();

    let reply = send_cmd(&mut stream, &["ZADD", "z", "1", "a", "2", "b", "3", "c"]);
    assert_eq!(reply, RespValue::Integer(3));

    // ZCARD
    let reply = send_cmd(&mut stream, &["ZCARD", "z"]);
    assert_eq!(reply, RespValue::Integer(3));

    // ZSCORE
    let reply = send_cmd(&mut stream, &["ZSCORE", "z", "b"]);
    assert_eq!(reply, bulk("2"));

    let reply = send_cmd(&mut stream, &["ZSCORE", "z", "notexist"]);
    assert_eq!(reply, RespValue::BulkString(None));

    let reply = send_cmd(&mut stream, &["ZADD", "z", "5", "a"]);
    assert_eq!(reply, RespValue::Integer(0));

    let reply = send_cmd(&mut stream, &["ZSCORE", "z", "a"]);
    assert_eq!(reply, bulk("5"));

    let reply = send_cmd(&mut stream, &["ZCARD", "z"]);
    assert_eq!(reply, RespValue::Integer(3));
}

#[test]
fn zrange_and_withscores() {
    let mut stream = start_server();

    send_cmd(
        &mut stream,
        &["ZADD", "z", "1", "a", "2", "b", "3", "c", "4", "d"],
    );

    let reply = send_cmd(&mut stream, &["ZRANGE", "z", "0", "-1"]);
    assert_eq!(
        reply,
        RespValue::Array(vec![bulk("a"), bulk("b"), bulk("c"), bulk("d")])
    );

    let reply = send_cmd(&mut stream, &["ZRANGE", "z", "1", "2"]);
    assert_eq!(reply, RespValue::Array(vec![bulk("b"), bulk("c")]));

    // WITHSCORES
    let reply = send_cmd(&mut stream, &["ZRANGE", "z", "0", "-1", "WITHSCORES"]);
    assert_eq!(
        reply,
        RespValue::Array(vec![
            bulk("a"),
            bulk("1"),
            bulk("b"),
            bulk("2"),
            bulk("c"),
            bulk("3"),
            bulk("d"),
            bulk("4"),
        ])
    );

    let reply = send_cmd(&mut stream, &["ZRANGE", "z", "10", "20"]);
    assert_eq!(reply, RespValue::Array(vec![]));
}

#[test]
fn zrangebyscore() {
    let mut stream = start_server();

    send_cmd(
        &mut stream,
        &["ZADD", "z", "1", "a", "2", "b", "3", "c", "4", "d"],
    );

    let reply = send_cmd(&mut stream, &["ZRANGEBYSCORE", "z", "2", "3"]);
    assert_eq!(reply, RespValue::Array(vec![bulk("b"), bulk("c")]));

    let reply = send_cmd(&mut stream, &["ZRANGEBYSCORE", "z", "-inf", "+inf"]);
    assert_eq!(
        reply,
        RespValue::Array(vec![bulk("a"), bulk("b"), bulk("c"), bulk("d")])
    );

    let reply = send_cmd(
        &mut stream,
        &["ZRANGEBYSCORE", "z", "2.5", "3.5", "WITHSCORES"],
    );
    assert_eq!(reply, RespValue::Array(vec![bulk("c"), bulk("3")]));
}

#[test]
fn zrank_and_zrem() {
    let mut stream = start_server();

    send_cmd(&mut stream, &["ZADD", "z", "1", "a", "2", "b", "3", "c"]);

    let reply = send_cmd(&mut stream, &["ZRANK", "z", "b"]);
    assert_eq!(reply, RespValue::Integer(1));

    let reply = send_cmd(&mut stream, &["ZRANK", "z", "notexist"]);
    assert_eq!(reply, RespValue::BulkString(None));

    let reply = send_cmd(&mut stream, &["ZREM", "z", "b", "notexist"]);
    assert_eq!(reply, RespValue::Integer(1));

    let reply = send_cmd(&mut stream, &["ZCARD", "z"]);
    assert_eq!(reply, RespValue::Integer(2));

    let reply = send_cmd(&mut stream, &["ZRANGE", "z", "0", "-1"]);
    assert_eq!(reply, RespValue::Array(vec![bulk("a"), bulk("c")]));
}

#[test]
fn zadd_multiple_scores_same_member() {
    let mut stream = start_server();

    let reply = send_cmd(&mut stream, &["ZADD", "z", "1", "a", "2", "a", "3", "a"]);
    assert_eq!(reply, RespValue::Integer(1));

    let reply = send_cmd(&mut stream, &["ZSCORE", "z", "a"]);
    assert_eq!(reply, bulk("3"));
}

#[test]
fn wrong_type_error() {
    let mut stream = start_server();

    send_cmd(&mut stream, &["SET", "k", "v"]);

    let reply = send_cmd(&mut stream, &["ZADD", "k", "1", "m"]);
    assert!(
        matches!(reply, RespValue::Error(ref e) if e.contains("WRONGTYPE")),
        "expected WRONGTYPE, got {:?}",
        reply
    );

    let reply = send_cmd(&mut stream, &["ZCARD", "k"]);
    assert!(
        matches!(reply, RespValue::Error(ref e) if e.contains("WRONGTYPE")),
        "expected WRONGTYPE, got {:?}",
        reply
    );
}

#[test]
fn zrevrange_and_withscores() {
    let mut stream = start_server();

    send_cmd(
        &mut stream,
        &["ZADD", "z", "1", "a", "2", "b", "3", "c", "4", "d"],
    );

    let reply = send_cmd(&mut stream, &["ZREVRANGE", "z", "0", "-1"]);
    assert_eq!(
        reply,
        RespValue::Array(vec![bulk("d"), bulk("c"), bulk("b"), bulk("a")])
    );

    let reply = send_cmd(&mut stream, &["ZREVRANGE", "z", "1", "2"]);
    assert_eq!(reply, RespValue::Array(vec![bulk("c"), bulk("b")]));

    let reply = send_cmd(&mut stream, &["ZREVRANGE", "z", "0", "-1", "WITHSCORES"]);
    assert_eq!(
        reply,
        RespValue::Array(vec![
            bulk("d"),
            bulk("4"),
            bulk("c"),
            bulk("3"),
            bulk("b"),
            bulk("2"),
            bulk("a"),
            bulk("1"),
        ])
    );
}

#[test]
fn zrevrangebyscore() {
    let mut stream = start_server();

    send_cmd(
        &mut stream,
        &["ZADD", "z", "1", "a", "2", "b", "3", "c", "4", "d"],
    );

    let reply = send_cmd(&mut stream, &["ZREVRANGEBYSCORE", "z", "3", "2"]);
    assert_eq!(reply, RespValue::Array(vec![bulk("c"), bulk("b")]));

    let reply = send_cmd(&mut stream, &["ZREVRANGEBYSCORE", "z", "+inf", "-inf"]);
    assert_eq!(
        reply,
        RespValue::Array(vec![bulk("d"), bulk("c"), bulk("b"), bulk("a")])
    );

    let reply = send_cmd(
        &mut stream,
        &["ZREVRANGEBYSCORE", "z", "3.5", "2.5", "WITHSCORES"],
    );
    assert_eq!(reply, RespValue::Array(vec![bulk("c"), bulk("3")]));
}

#[test]
fn zrevrank_and_zincrby() {
    let mut stream = start_server();

    send_cmd(&mut stream, &["ZADD", "z", "1", "a", "2", "b", "3", "c"]);

    let reply = send_cmd(&mut stream, &["ZREVRANK", "z", "b"]);
    assert_eq!(reply, RespValue::Integer(1));

    let reply = send_cmd(&mut stream, &["ZREVRANK", "z", "notexist"]);
    assert_eq!(reply, RespValue::BulkString(None));

    let reply = send_cmd(&mut stream, &["ZINCRBY", "z", "5", "b"]);
    assert_eq!(reply, bulk("7"));

    let reply = send_cmd(&mut stream, &["ZSCORE", "z", "b"]);
    assert_eq!(reply, bulk("7"));

    let reply = send_cmd(&mut stream, &["ZREVRANK", "z", "b"]);
    assert_eq!(reply, RespValue::Integer(0));

    let reply = send_cmd(&mut stream, &["ZINCRBY", "z", "10", "d"]);
    assert_eq!(reply, bulk("10"));

    let reply = send_cmd(&mut stream, &["ZCARD", "z"]);
    assert_eq!(reply, RespValue::Integer(4));
}

#[test]
fn zrangebyscore_with_limit() {
    let mut stream = start_server();

    send_cmd(
        &mut stream,
        &[
            "ZADD", "z", "1", "a", "2", "b", "3", "c", "4", "d", "5", "e",
        ],
    );

    // LIMIT offset count
    let reply = send_cmd(
        &mut stream,
        &["ZRANGEBYSCORE", "z", "1", "5", "LIMIT", "1", "2"],
    );
    assert_eq!(reply, RespValue::Array(vec![bulk("b"), bulk("c")]));

    let reply = send_cmd(
        &mut stream,
        &[
            "ZRANGEBYSCORE",
            "z",
            "1",
            "5",
            "WITHSCORES",
            "LIMIT",
            "2",
            "2",
        ],
    );
    assert_eq!(
        reply,
        RespValue::Array(vec![bulk("c"), bulk("3"), bulk("d"), bulk("4")])
    );

    let reply = send_cmd(
        &mut stream,
        &["ZRANGEBYSCORE", "z", "1", "5", "LIMIT", "10", "2"],
    );
    assert_eq!(reply, RespValue::Array(vec![]));
}

#[test]
fn zrevrangebyscore_with_limit() {
    let mut stream = start_server();

    send_cmd(
        &mut stream,
        &[
            "ZADD", "z", "1", "a", "2", "b", "3", "c", "4", "d", "5", "e",
        ],
    );

    let reply = send_cmd(
        &mut stream,
        &["ZREVRANGEBYSCORE", "z", "5", "1", "LIMIT", "1", "2"],
    );
    assert_eq!(reply, RespValue::Array(vec![bulk("d"), bulk("c")]));

    let reply = send_cmd(
        &mut stream,
        &[
            "ZREVRANGEBYSCORE",
            "z",
            "5",
            "1",
            "WITHSCORES",
            "LIMIT",
            "0",
            "3",
        ],
    );
    assert_eq!(
        reply,
        RespValue::Array(vec![
            bulk("e"),
            bulk("5"),
            bulk("d"),
            bulk("4"),
            bulk("c"),
            bulk("3"),
        ])
    );
}

#[test]
fn zrange_does_not_load_whole_set() {
    let mut stream = start_server();

    let mut owned_parts = vec!["ZADD".to_string(), "z".to_string()];
    for i in 0..50 {
        owned_parts.push((i + 1).to_string());
        owned_parts.push(format!("m{:02}", i));
    }
    let parts: Vec<&str> = owned_parts.iter().map(|s| s.as_str()).collect();
    send_cmd(&mut stream, &parts);

    let reply = send_cmd(&mut stream, &["ZRANGE", "z", "10", "12"]);
    let mut expected: Vec<RespValue> = Vec::new();
    for i in 10..=12 {
        expected.push(bulk(&format!("m{:02}", i)));
    }
    assert_eq!(reply, RespValue::Array(expected));

    let reply = send_cmd(&mut stream, &["ZREVRANGE", "z", "0", "2"]);
    assert_eq!(
        reply,
        RespValue::Array(vec![bulk("m49"), bulk("m48"), bulk("m47"),])
    );
}

#[test]
fn empty_key_returns_zero_or_empty() {
    let mut stream = start_server();

    let reply = send_cmd(&mut stream, &["ZCARD", "nonexistent"]);
    assert_eq!(reply, RespValue::Integer(0));

    let reply = send_cmd(&mut stream, &["ZRANGE", "nonexistent", "0", "-1"]);
    assert_eq!(reply, RespValue::Array(vec![]));

    let reply = send_cmd(&mut stream, &["ZSCORE", "nonexistent", "m"]);
    assert_eq!(reply, RespValue::BulkString(None));

    let reply = send_cmd(&mut stream, &["ZRANK", "nonexistent", "m"]);
    assert_eq!(reply, RespValue::BulkString(None));

    let reply = send_cmd(&mut stream, &["ZREVRANK", "nonexistent", "m"]);
    assert_eq!(reply, RespValue::BulkString(None));

    let reply = send_cmd(&mut stream, &["ZREM", "nonexistent", "m"]);
    assert_eq!(reply, RespValue::Integer(0));
}

#[test]
fn zadd_nx_only_add_new() {
    let mut stream = start_server();

    send_cmd(&mut stream, &["ZADD", "z", "1", "a"]);

    let reply = send_cmd(&mut stream, &["ZADD", "z", "NX", "5", "a", "2", "b"]);
    assert_eq!(reply, RespValue::Integer(1));

    let reply = send_cmd(&mut stream, &["ZSCORE", "z", "a"]);
    assert_eq!(reply, bulk("1"), "NX should not update existing member");

    let reply = send_cmd(&mut stream, &["ZSCORE", "z", "b"]);
    assert_eq!(reply, bulk("2"));
}

#[test]
fn zadd_xx_only_update_existing() {
    let mut stream = start_server();

    send_cmd(&mut stream, &["ZADD", "z", "1", "a"]);

    let reply = send_cmd(&mut stream, &["ZADD", "z", "XX", "5", "a", "2", "b"]);
    assert_eq!(reply, RespValue::Integer(0));

    let reply = send_cmd(&mut stream, &["ZSCORE", "z", "a"]);
    assert_eq!(reply, bulk("5"));

    let reply = send_cmd(&mut stream, &["ZSCORE", "z", "b"]);
    assert_eq!(reply, RespValue::BulkString(None));
}

#[test]
fn zadd_gt_only_greater() {
    let mut stream = start_server();

    send_cmd(&mut stream, &["ZADD", "z", "5", "a", "5", "b"]);

    let reply = send_cmd(&mut stream, &["ZADD", "z", "GT", "10", "a", "3", "b"]);
    assert_eq!(reply, RespValue::Integer(0));

    let reply = send_cmd(&mut stream, &["ZSCORE", "z", "a"]);
    assert_eq!(reply, bulk("10"));

    let reply = send_cmd(&mut stream, &["ZSCORE", "z", "b"]);
    assert_eq!(reply, bulk("5"));
}

#[test]
fn zadd_lt_only_less() {
    let mut stream = start_server();

    send_cmd(&mut stream, &["ZADD", "z", "5", "a", "5", "b"]);

    let reply = send_cmd(&mut stream, &["ZADD", "z", "LT", "3", "a", "10", "b"]);
    assert_eq!(reply, RespValue::Integer(0));

    let reply = send_cmd(&mut stream, &["ZSCORE", "z", "a"]);
    assert_eq!(reply, bulk("3"));

    let reply = send_cmd(&mut stream, &["ZSCORE", "z", "b"]);
    assert_eq!(reply, bulk("5"));
}

#[test]
fn zadd_ch_returns_changed() {
    let mut stream = start_server();

    send_cmd(&mut stream, &["ZADD", "z", "1", "a"]);

    let reply = send_cmd(&mut stream, &["ZADD", "z", "CH", "5", "a", "2", "b"]);
    assert_eq!(reply, RespValue::Integer(2));

    let reply = send_cmd(&mut stream, &["ZSCORE", "z", "a"]);
    assert_eq!(reply, bulk("5"));
    let reply = send_cmd(&mut stream, &["ZSCORE", "z", "b"]);
    assert_eq!(reply, bulk("2"));
}

#[test]
fn zadd_incr_mode() {
    let mut stream = start_server();

    send_cmd(&mut stream, &["ZADD", "z", "5", "a"]);

    let reply = send_cmd(&mut stream, &["ZADD", "z", "INCR", "3", "a"]);
    assert_eq!(reply, bulk("8"));

    let reply = send_cmd(&mut stream, &["ZADD", "z", "INCR", "2", "b"]);
    assert_eq!(reply, bulk("2"));

    let reply = send_cmd(&mut stream, &["ZADD", "z", "INCR", "NX", "1", "a"]);
    assert_eq!(reply, RespValue::BulkString(None));

    let reply = send_cmd(&mut stream, &["ZADD", "z", "INCR", "XX", "1", "noexist"]);
    assert_eq!(reply, RespValue::BulkString(None));
}

#[test]
fn zadd_rejects_invalid_combinations() {
    let mut stream = start_server();

    let reply = send_cmd(&mut stream, &["ZADD", "z", "NX", "XX", "1", "a"]);
    assert!(matches!(reply, RespValue::Error(_)));

    let reply = send_cmd(&mut stream, &["ZADD", "z", "GT", "LT", "1", "a"]);
    assert!(matches!(reply, RespValue::Error(_)));

    let reply = send_cmd(&mut stream, &["ZADD", "z", "INCR", "1", "a", "2", "b"]);
    assert!(matches!(reply, RespValue::Error(_)));
}

#[test]
fn zadd_gt_adds_new_members() {
    let mut stream = start_server();

    let reply = send_cmd(&mut stream, &["ZADD", "z", "GT", "1", "a"]);
    assert_eq!(reply, RespValue::Integer(1));
    let reply = send_cmd(&mut stream, &["ZSCORE", "z", "a"]);
    assert_eq!(reply, bulk("1"));
}
