//! List commands over the wire.

use kvdb_rs::clock;
use kvdb_rs::cmd::dispatch::Dispatched;
use kvdb_rs::cmd::zset::{self, Floats};
use kvdb_rs::cmd::{CommandContext, CommandTable};
use kvdb_rs::protocol::{RespParser, RespSerializer, RespValue};
use kvdb_rs::server::{Action, QueueRun, TransactionState};
use kvdb_rs::Config;

/// The number that an argument writes, as its bits.
fn number(arg: &[u8]) -> Option<u64> {
    let text = std::str::from_utf8(arg).ok()?;
    let score: f64 = text.parse().ok()?;
    if score.is_nan() {
        return None;
    }
    Some(score.to_bits())
}

/// The floating point work that a command takes as given.
fn floats(ctx: &CommandContext, name: &[u8], args: &[Vec<u8>], now_ms: i64) -> Floats {
    let scores = args.iter().map(|a| number(a)).collect();
    let mut given = Floats { scores, sum: 0 };
    if let Some((a, b)) = zset::increment_addends(ctx, name, args, &given, now_ms) {
        given.sum = (f64::from_bits(a) + f64::from_bits(b)).to_bits();
    }
    given
}

/// The reply with scores as decimal text.
fn rendered(value: RespValue) -> RespValue {
    match value {
        RespValue::Score(bits) => {
            let score = f64::from_bits(bits);
            let text = if score.fract() == 0.0 && score.is_finite() {
                format!("{:.0}", score)
            } else {
                score.to_string()
            };
            RespValue::BulkString(Some(text.into_bytes()))
        }
        RespValue::Array(items) => RespValue::Array(items.into_iter().map(rendered).collect()),
        other => other,
    }
}

fn run(ctx: &mut CommandContext, name: &[u8], args: &[Vec<u8>]) -> RespValue {
    let at = clock::this_moment(&mut ctx.versions).unwrap();
    let given = floats(ctx, name, args, at.now_ms);
    match CommandTable::new().dispatch_at(ctx, name, args, at, &given) {
        Dispatched::Reply(v) => rendered(v),
        Dispatched::Script(call) => panic!("script: {:?}", call),
    }
}

/// A server with its connections, without the sockets between.
struct Server {
    ctx: CommandContext,
}

/// A connection: its id and its transaction.
struct Connection {
    id: u64,
    transaction: TransactionState,
}

fn start() -> Server {
    Server { ctx: CommandContext::new(Config::default()) }
}

fn connect(server: &mut Server) -> Connection {
    let id = server.ctx.pubsub.alloc_client_id();
    Connection { id, transaction: TransactionState::new() }
}

/// Sends a command over a connection: the request and the reply go through
/// their bytes on the wire.
fn send_over(server: &mut Server, conn: &mut Connection, parts: &[&str]) -> RespValue {
    let mut request = format!("*{}\r\n", parts.len()).into_bytes();
    for p in parts {
        request.extend_from_slice(format!("${}\r\n{}\r\n", p.len(), p).as_bytes());
    }
    let (line, consumed) = RespParser::parse_cmd(&request).unwrap();
    assert_eq!(consumed, request.len());
    let ctx = &mut server.ctx;
    ctx.client_id = conn.id;
    let reply = match conn.transaction.step(ctx, line) {
        Action::Reply(v) => v,
        Action::Run(c) => run(ctx, &c.name, &c.args),
        Action::RunQueue(queue) => {
            let mut q = QueueRun::new(queue);
            loop {
                let reply = match q.next() {
                    Some(c) => run(ctx, &c.name, &c.args),
                    None => break,
                };
                q.answer(reply);
            }
            q.finish()
        }
    };
    let bytes = RespSerializer::serialize(&reply);
    let (value, read) = RespParser::parse_one(&bytes).unwrap();
    assert_eq!(read, bytes.len());
    value
}

/// A server and one connection to it.
struct Client {
    server: Server,
    conn: Connection,
}

fn start_server() -> Client {
    let mut server = start();
    let conn = connect(&mut server);
    Client { server, conn }
}

fn send_cmd(client: &mut Client, parts: &[&str]) -> RespValue {
    send_over(&mut client.server, &mut client.conn, parts)
}

fn bulk(s: &str) -> RespValue {
    RespValue::BulkString(Some(s.as_bytes().to_vec()))
}

fn array(items: &[&str]) -> RespValue {
    RespValue::Array(items.iter().map(|s| bulk(s)).collect())
}

#[test]
fn test_push_pop_and_length() {
    let mut stream = start_server();

    assert_eq!(
        send_cmd(&mut stream, &["RPUSH", "mylist", "a", "b", "c"]),
        RespValue::Integer(3)
    );
    assert_eq!(
        send_cmd(&mut stream, &["LLEN", "mylist"]),
        RespValue::Integer(3)
    );

    assert_eq!(
        send_cmd(&mut stream, &["LPUSH", "mylist", "x", "y"]),
        RespValue::Integer(5)
    );
    assert_eq!(
        send_cmd(&mut stream, &["LRANGE", "mylist", "0", "-1"]),
        array(&["y", "x", "a", "b", "c"])
    );

    // LPOP / RPOP
    assert_eq!(send_cmd(&mut stream, &["LPOP", "mylist"]), bulk("y"));
    assert_eq!(send_cmd(&mut stream, &["RPOP", "mylist"]), bulk("c"));
    assert_eq!(
        send_cmd(&mut stream, &["LLEN", "mylist"]),
        RespValue::Integer(3)
    );
    assert_eq!(
        send_cmd(&mut stream, &["LRANGE", "mylist", "0", "-1"]),
        array(&["x", "a", "b"])
    );
}

#[test]
fn test_lrange_and_lindex() {
    let mut stream = start_server();

    send_cmd(&mut stream, &["RPUSH", "list", "one", "two", "three"]);

    assert_eq!(
        send_cmd(&mut stream, &["LINDEX", "list", "0"]),
        bulk("one")
    );
    assert_eq!(
        send_cmd(&mut stream, &["LINDEX", "list", "-1"]),
        bulk("three")
    );
    assert_eq!(
        send_cmd(&mut stream, &["LINDEX", "list", "5"]),
        RespValue::BulkString(None)
    );

    assert_eq!(
        send_cmd(&mut stream, &["LRANGE", "list", "0", "0"]),
        array(&["one"])
    );
    assert_eq!(
        send_cmd(&mut stream, &["LRANGE", "list", "-2", "-1"]),
        array(&["two", "three"])
    );
    assert_eq!(
        send_cmd(&mut stream, &["LRANGE", "list", "1", "10"]),
        array(&["two", "three"])
    );
    assert_eq!(
        send_cmd(&mut stream, &["LRANGE", "list", "5", "10"]),
        RespValue::Array(vec![])
    );
}

#[test]
fn test_pop_until_empty() {
    let mut stream = start_server();

    send_cmd(&mut stream, &["RPUSH", "emptylist", "a", "b"]);
    assert_eq!(
        send_cmd(&mut stream, &["LPOP", "emptylist"]),
        bulk("a")
    );
    assert_eq!(
        send_cmd(&mut stream, &["LPOP", "emptylist"]),
        bulk("b")
    );
    assert_eq!(
        send_cmd(&mut stream, &["LPOP", "emptylist"]),
        RespValue::BulkString(None)
    );
    assert_eq!(
        send_cmd(&mut stream, &["LLEN", "emptylist"]),
        RespValue::Integer(0)
    );
    assert_eq!(
        send_cmd(&mut stream, &["LRANGE", "emptylist", "0", "-1"]),
        RespValue::Array(vec![])
    );
}

#[test]
fn test_wrong_type() {
    let mut stream = start_server();

    send_cmd(&mut stream, &["SET", "strkey", "value"]);
    let reply = send_cmd(&mut stream, &["LLEN", "strkey"]);
    assert!(
        matches!(reply, RespValue::Error(ref e) if e.contains("WRONGTYPE")),
        "expected WRONGTYPE error, got {:?}",
        reply
    );

    let reply = send_cmd(&mut stream, &["LPUSH", "strkey", "x"]);
    assert!(matches!(reply, RespValue::Error(ref e) if e.contains("WRONGTYPE")));

    let reply = send_cmd(&mut stream, &["LRANGE", "strkey", "0", "-1"]);
    assert!(matches!(reply, RespValue::Error(ref e) if e.contains("WRONGTYPE")));
}
