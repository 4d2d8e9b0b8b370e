//! Stream commands over the wire.

use kvdb_rs::clock;
use kvdb_rs::cmd::dispatch::Dispatched;
use kvdb_rs::cmd::zset::{self, Floats};
use kvdb_rs::cmd::{CommandContext, CommandTable};
use kvdb_rs::protocol::{RespParser, RespSerializer, RespValue};
use kvdb_rs::server::{Action, QueueRun, TransactionState};
use kvdb_rs::Config;

/// The number that an argument writes, as its bits.
fn number(arg: &[u8]) -> Option<u64> {
    let text = std::str::from_utf8(arg).ok()?;
    let score: f64 = text.parse().ok()?;
    if score.is_nan() {
        return None;
    }
    Some(score.to_bits())
}

/// The floating point work that a command takes as given.
fn floats(ctx: &CommandContext, name: &[u8], args: &[Vec<u8>], now_ms: i64) -> Floats {
    let scores = args.iter().map(|a| number(a)).collect();
    let mut given = Floats { scores, sum: 0 };
    if let Some((a, b)) = zset::increment_addends(ctx, name, args, &given, now_ms) {
        given.sum = (f64::from_bits(a) + f64::from_bits(b)).to_bits();
    }
    given
}

/// The reply with scores as decimal text.
fn rendered(value: RespValue) -> RespValue {
    match value {
        RespValue::Score(bits) => {
            let score = f64::from_bits(bits);
            let text = if score.fract() == 0.0 && score.is_finite() {
                format!("{:.0}", score)
            } else {
                score.to_string()
            };
            RespValue::BulkString(Some(text.into_bytes()))
        }
        RespValue::Array(items) => RespValue::Array(items.into_iter().map(rendered).collect()),
        other => other,
    }
}

fn run(ctx: &mut CommandContext, name: &[u8], args: &[Vec<u8>]) -> RespValue {
    let at = clock::this_moment(&mut ctx.versions).unwrap();
    let given = floats(ctx, name, args, at.now_ms);
    match CommandTable::new().dispatch_at(ctx, name, args, at, &given) {
        Dispatched::Reply(v) => rendered(v),
        Dispatched::Script(call) => panic!("script: {:?}", call),
    }
}

/// A server with its connections, without the sockets between.
struct Server {
    ctx: CommandContext,
}

/// A connection: its id and its transaction.
struct Connection {
    id: u64,
    transaction: TransactionState,
}

fn start() -> Server {
    Server { ctx: CommandContext::new(Config::default()) }
}

fn connect(server: &mut Server) -> Connection {
    let id = server.ctx.pubsub.alloc_client_id();
    Connection { id, transaction: TransactionState::new() }
}

/// Sends a command over a connection: the request and the reply go through
/// their bytes on the wire.
fn send_over(server: &mut Server, conn: &mut Connection, parts: &[&str]) -> RespValue {
    let mut request = format!("*{}\r\n", parts.len()).into_bytes();
    for p in parts {
        request.extend_from_slice(format!("${}\r\n{}\r\n", p.len(), p).as_bytes());
    }
    let (line, consumed) = RespParser::parse_cmd(&request).unwrap();
    assert_eq!(consumed, request.len());
    let ctx = &mut server.ctx;
    ctx.client_id = conn.id;
    let reply = match conn.transaction.step(ctx, line) {
        Action::Reply(v) => v,
        Action::Run(c) => run(ctx, &c.name, &c.args),
        Action::RunQueue(queue) => {
            let mut q = QueueRun::new(queue);
            loop {
                let reply = match q.next() {
                    Some(c) => run(ctx, &c.name, &c.args),
                    None => break,
                };
                q.answer(reply);
            }
            q.finish()
        }
    };
    let bytes = RespSerializer::serialize(&reply);
    let (value, read) = RespParser::parse_one(&bytes).unwrap();
    assert_eq!(read, bytes.len());
    value
}

/// A server and one connection to it.
struct Client {
    server: Server,
    conn: Connection,
}

fn start_server() -> Client {
    let mut server = start();
    let conn = connect(&mut server);
    Client { server, conn }
}

fn send_cmd(client: &mut Client, parts: &[&str]) -> RespValue {
    send_over(&mut client.server, &mut client.conn, parts)
}

fn bulk(s: &str) -> RespValue {
    RespValue::BulkString(Some(s.as_bytes().to_vec()))
}

#[test]
fn xadd_xlen_xrange_basic() {
    let mut stream = start_server();

    let reply = send_cmd(
        &mut stream,
        &[
            "XADD", "mystream", "1-0", "field1", "value1", "field2", "value2",
        ],
    );
    assert_eq!(reply, bulk("1-0"));

    let reply = send_cmd(&mut stream, &["XLEN", "mystream"]);
    assert_eq!(reply, RespValue::Integer(1));

    let reply = send_cmd(&mut stream, &["XRANGE", "mystream", "-", "+"]);
    assert_eq!(
        reply,
        RespValue::Array(vec![RespValue::Array(vec![
            bulk("1-0"),
            RespValue::Array(vec![
                bulk("field1"),
                bulk("value1"),
                bulk("field2"),
                bulk("value2"),
            ]),
        ])])
    );
}

#[test]
fn xadd_auto_id() {
    let mut stream = start_server();

    let id1 = send_cmd(&mut stream, &["XADD", "s", "*", "k", "v1"]);
    let id2 = send_cmd(&mut stream, &["XADD", "s", "*", "k", "v2"]);

    assert_ne!(id1, id2);
    let id1_str = match id1 {
        RespValue::BulkString(Some(b)) => String::from_utf8_lossy(&b).to_string(),
        _ => panic!("expected bulk string"),
    };
    assert!(id1_str.contains('-'));

    let len = send_cmd(&mut stream, &["XLEN", "s"]);
    assert_eq!(len, RespValue::Integer(2));
}

#[test]
fn xrange_range_and_count() {
    let mut stream = start_server();

    send_cmd(&mut stream, &["XADD", "s", "1-0", "k", "a"]);
    send_cmd(&mut stream, &["XADD", "s", "2-0", "k", "b"]);
    send_cmd(&mut stream, &["XADD", "s", "3-0", "k", "c"]);
    send_cmd(&mut stream, &["XADD", "s", "4-0", "k", "d"]);

    let reply = send_cmd(&mut stream, &["XRANGE", "s", "2-0", "3-0"]);
    assert_eq!(
        reply,
        RespValue::Array(vec![
            RespValue::Array(vec![
                bulk("2-0"),
                RespValue::Array(vec![bulk("k"), bulk("b")])
            ]),
            RespValue::Array(vec![
                bulk("3-0"),
                RespValue::Array(vec![bulk("k"), bulk("c")])
            ]),
        ])
    );

    let reply = send_cmd(&mut stream, &["XRANGE", "s", "-", "+", "COUNT", "2"]);
    if let RespValue::Array(items) = reply {
        assert_eq!(items.len(), 2);
    } else {
        panic!("expected array");
    }
}

#[test]
fn xread_basic() {
    let mut stream = start_server();

    send_cmd(&mut stream, &["XADD", "s1", "1-0", "k", "a"]);
    send_cmd(&mut stream, &["XADD", "s1", "2-0", "k", "b"]);
    send_cmd(&mut stream, &["XADD", "s2", "1-0", "k", "x"]);

    let reply = send_cmd(&mut stream, &["XREAD", "STREAMS", "s1", "s2", "0-0", "0-0"]);
    if let RespValue::Array(streams) = reply {
        assert_eq!(streams.len(), 2);
    } else {
        panic!("expected array, got {:?}", reply);
    }

    let reply = send_cmd(&mut stream, &["XREAD", "STREAMS", "s1", "1-0"]);
    if let RespValue::Array(streams) = reply {
        assert_eq!(streams.len(), 1);
        if let RespValue::Array(ref inner) = streams[0] {
            assert_eq!(inner[0], bulk("s1"));
        } else {
            panic!("expected stream array");
        }
    } else {
        panic!("expected array");
    }
}

#[test]
fn xadd_wrong_type() {
    let mut stream = start_server();

    send_cmd(&mut stream, &["SET", "k", "v"]);
    let reply = send_cmd(&mut stream, &["XADD", "k", "1-0", "f", "v"]);
    assert!(
        matches!(reply, RespValue::Error(ref e) if e.contains("WRONGTYPE")),
        "expected WRONGTYPE, got {:?}",
        reply
    );

    send_cmd(&mut stream, &["SADD", "setk", "m"]);
    let reply = send_cmd(&mut stream, &["XLEN", "setk"]);
    assert!(
        matches!(reply, RespValue::Error(ref e) if e.contains("WRONGTYPE")),
        "expected WRONGTYPE, got {:?}",
        reply
    );
}

#[test]
fn xadd_duplicate_id_rejected() {
    let mut stream = start_server();

    send_cmd(&mut stream, &["XADD", "s", "1-5", "k", "v"]);
    let reply = send_cmd(&mut stream, &["XADD", "s", "1-5", "k", "v2"]);
    assert!(
        matches!(reply, RespValue::Error(_)),
        "expected error for duplicate ID, got {:?}",
        reply
    );

    let reply = send_cmd(&mut stream, &["XADD", "s", "1-4", "k", "v3"]);
    assert!(
        matches!(reply, RespValue::Error(_)),
        "expected error for decreasing ID, got {:?}",
        reply
    );
}

#[test]
fn xread_empty_stream() {
    let mut stream = start_server();

    let reply = send_cmd(&mut stream, &["XREAD", "STREAMS", "nosuch", "0-0"]);
    assert_eq!(reply, RespValue::Array(vec![]));
}
