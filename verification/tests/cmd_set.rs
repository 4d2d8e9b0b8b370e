//! Set commands over the wire.

use std::collections::HashSet;

use kvdb_rs::clock;
use kvdb_rs::cmd::dispatch::Dispatched;
use kvdb_rs::cmd::zset::{self, Floats};
use kvdb_rs::cmd::{CommandContext, CommandTable};
use kvdb_rs::protocol::{RespParser, RespSerializer, RespValue};
use kvdb_rs::server::{Action, QueueRun, TransactionState};
use kvdb_rs::Config;

/// The number that an argument writes, as its bits.
fn number(arg: &[u8]) -> Option<u64> {
    let text = std::str::from_utf8(arg).ok()?;
    let score: f64 = text.parse().ok()?;
    if score.is_nan() {
        return None;
    }
    Some(score.to_bits())
}

/// The floating point work that a command takes as given.
fn floats(ctx: &CommandContext, name: &[u8], args: &[Vec<u8>], now_ms: i64) -> Floats {
    let scores = args.iter().map(|a| number(a)).collect();
    let mut given = Floats { scores, sum: 0 };
    if let Some((a, b)) = zset::increment_addends(ctx, name, args, &given, now_ms) {
        given.sum = (f64::from_bits(a) + f64::from_bits(b)).to_bits();
    }
    given
}

/// The reply with scores as decimal text.
fn rendered(value: RespValue) -> RespValue {
    match value {
        RespValue::Score(bits) => {
            let score = f64::from_bits(bits);
            let text = if score.fract() == 0.0 && score.is_finite() {
                format!("{:.0}", score)
            } else {
                score.to_string()
            };
            RespValue::BulkString(Some(text.into_bytes()))
        }
        RespValue::Array(items) => RespValue::Array(items.into_iter().map(rendered).collect()),
        other => other,
    }
}

fn run(ctx: &mut CommandContext, name: &[u8], args: &[Vec<u8>]) -> RespValue {
    let at = clock::this_moment(&mut ctx.versions).unwrap();
    let given = floats(ctx, name, args, at.now_ms);
    match CommandTable::new().dispatch_at(ctx, name, args, at, &given) {
        Dispatched::Reply(v) => rendered(v),
        Dispatched::Script(call) => panic!("script: {:?}", call),
    }
}

/// A server with its connections, without the sockets between.
struct Server {
    ctx: CommandContext,
}

/// A connection: its id and its transaction.
struct Connection {
    id: u64,
    transaction: TransactionState,
}

fn start() -> Server {
    Server { ctx: CommandContext::new(Config::default()) }
}

fn connect(server: &mut Server) -> Connection {
    let id = server.ctx.pubsub.alloc_client_id();
    Connection { id, transaction: TransactionState::new() }
}

/// Sends a command over a connection: the request and the reply go through
/// their bytes on the wire.
fn send_over(server: &mut Server, conn: &mut Connection, parts: &[&str]) -> RespValue {
    let mut request = format!("*{}\r\n", parts.len()).into_bytes();
    for p in parts {
        request.extend_from_slice(format!("${}\r\n{}\r\n", p.len(), p).as_bytes());
    }
    let (line, consumed) = RespParser::parse_cmd(&request).unwrap();
    assert_eq!(consumed, request.len());
    let ctx = &mut server.ctx;
    ctx.client_id = conn.id;
    let reply = match conn.transaction.step(ctx, line) {
        Action::Reply(v) => v,
        Action::Run(c) => run(ctx, &c.name, &c.args),
        Action::RunQueue(queue) => {
            let mut q = QueueRun::new(queue);
            loop {
                let reply = match q.next() {
                    Some(c) => run(ctx, &c.name, &c.args),
                    None => break,
                };
                q.answer(reply);
            }
            q.finish()
        }
    };
    let bytes = RespSerializer::serialize(&reply);
    let (value, read) = RespParser::parse_one(&bytes).unwrap();
    assert_eq!(read, bytes.len());
    value
}

/// A server and one connection to it.
struct Client {
    server: Server,
    conn: Connection,
}

fn start_server() -> Client {
    let mut server = start();
    let conn = connect(&mut server);
    Client { server, conn }
}

fn send_cmd(client: &mut Client, parts: &[&str]) -> RespValue {
    send_over(&mut client.server, &mut client.conn, parts)
}

fn array_to_set(value: RespValue) -> HashSet<Vec<u8>> {
    match value {
        RespValue::Array(items) => items
            .into_iter()
            .map(|v| match v {
                RespValue::BulkString(Some(b)) => b,
                _ => panic!("expected bulk string, got {:?}", v),
            })
            .collect(),
        _ => panic!("expected array, got {:?}", value),
    }
}

fn assert_error(value: RespValue) {
    assert!(
        matches!(value, RespValue::Error(_)),
        "expected error, got {:?}",
        value
    );
}

#[test]
fn test_set_basic() {
    let mut stream = start_server();

    let reply = send_cmd(&mut stream, &["SADD", "s", "a", "b", "c"]);
    assert_eq!(reply, RespValue::Integer(3));

    let reply = send_cmd(&mut stream, &["SADD", "s", "a", "d"]);
    assert_eq!(reply, RespValue::Integer(1));

    // SCARD
    let reply = send_cmd(&mut stream, &["SCARD", "s"]);
    assert_eq!(reply, RespValue::Integer(4));

    // SISMEMBER
    assert_eq!(
        send_cmd(&mut stream, &["SISMEMBER", "s", "a"]),
        RespValue::Integer(1)
    );
    assert_eq!(
        send_cmd(&mut stream, &["SISMEMBER", "s", "z"]),
        RespValue::Integer(0)
    );

    // SMEMBERS
    let reply = send_cmd(&mut stream, &["SMEMBERS", "s"]);
    assert_eq!(
        array_to_set(reply),
        HashSet::from_iter([
            b"a".to_vec(),
            b"b".to_vec(),
            b"c".to_vec(),
            b"d".to_vec(),
        ])
    );

    // SREM
    let reply = send_cmd(&mut stream, &["SREM", "s", "a", "z"]);
    assert_eq!(reply, RespValue::Integer(1));
    assert_eq!(
        send_cmd(&mut stream, &["SCARD", "s"]),
        RespValue::Integer(3)
    );

    // SINTER / SUNION
    let reply = send_cmd(&mut stream, &["SADD", "s2", "b", "c", "e"]);
    assert_eq!(reply, RespValue::Integer(3));

    let reply = send_cmd(&mut stream, &["SINTER", "s", "s2"]);
    assert_eq!(
        array_to_set(reply),
        HashSet::from_iter([
            b"b".to_vec(),
            b"c".to_vec(),
        ])
    );

    let reply = send_cmd(&mut stream, &["SUNION", "s", "s2"]);
    assert_eq!(
        array_to_set(reply),
        HashSet::from_iter([
            b"b".to_vec(),
            b"c".to_vec(),
            b"d".to_vec(),
            b"e".to_vec(),
        ])
    );

    assert_eq!(
        send_cmd(&mut stream, &["SINTER", "s", "noexist"]),
        RespValue::Array(vec![])
    );

    // SDIFF
    let reply = send_cmd(&mut stream, &["SDIFF", "s", "s2"]);
    assert_eq!(
        array_to_set(reply),
        HashSet::from_iter([b"d".to_vec(),])
    );

    let reply = send_cmd(&mut stream, &["SUNION", "s", "noexist"]);
    assert_eq!(
        array_to_set(reply),
        HashSet::from_iter([
            b"b".to_vec(),
            b"c".to_vec(),
            b"d".to_vec(),
        ])
    );
}

#[test]
fn test_set_duplicate_members() {
    let mut stream = start_server();

    let reply = send_cmd(&mut stream, &["SADD", "dup", "x", "x", "y"]);
    assert_eq!(reply, RespValue::Integer(2));

    let reply = send_cmd(&mut stream, &["SREM", "dup", "x", "x"]);
    assert_eq!(reply, RespValue::Integer(1));

    assert_eq!(
        send_cmd(&mut stream, &["SCARD", "dup"]),
        RespValue::Integer(1)
    );
}

#[test]
fn test_set_nonexistent() {
    let mut stream = start_server();

    assert_eq!(
        send_cmd(&mut stream, &["SREM", "noexist", "a"]),
        RespValue::Integer(0)
    );
    assert_eq!(
        send_cmd(&mut stream, &["SISMEMBER", "noexist", "a"]),
        RespValue::Integer(0)
    );
    assert_eq!(
        send_cmd(&mut stream, &["SMEMBERS", "noexist"]),
        RespValue::Array(vec![])
    );
    assert_eq!(
        send_cmd(&mut stream, &["SCARD", "noexist"]),
        RespValue::Integer(0)
    );
}

#[test]
fn test_set_wrong_type() {
    let mut stream = start_server();

    send_cmd(&mut stream, &["SET", "str", "val"]);

    assert_error(send_cmd(&mut stream, &["SADD", "str", "m"]));
    assert_error(send_cmd(&mut stream, &["SREM", "str", "m"]));
    assert_error(send_cmd(&mut stream, &["SISMEMBER", "str", "m"]));
    assert_error(send_cmd(&mut stream, &["SMEMBERS", "str"]));
    assert_error(send_cmd(&mut stream, &["SCARD", "str"]));
    assert_error(send_cmd(&mut stream, &["SINTER", "str", "s"]));
    assert_error(send_cmd(&mut stream, &["SUNION", "str", "s"]));
}

#[test]
fn test_set_ops_chunked() {
    let mut stream = start_server();

    let total = 3000usize;
    let mut a_members: Vec<String> = (0..total).map(|i| format!("a{:08}", i)).collect();
    let mut b_members: Vec<String> = (0..total).map(|i| format!("b{:08}", i)).collect();
    let common: Vec<String> = (0..total)
        .step_by(2)
        .map(|i| format!("c{:08}", i))
        .collect();
    a_members.extend(common.clone());
    b_members.extend(common.clone());

    let mut a_cmd = vec!["SADD", "A"];
    let a_refs: Vec<&str> = a_members.iter().map(|s| s.as_str()).collect();
    a_cmd.extend(a_refs.iter().copied());
    let reply = send_cmd(&mut stream, &a_cmd);
    assert_eq!(reply, RespValue::Integer((total + common.len()) as i64));

    let mut b_cmd = vec!["SADD", "B"];
    let b_refs: Vec<&str> = b_members.iter().map(|s| s.as_str()).collect();
    b_cmd.extend(b_refs.iter().copied());
    let reply = send_cmd(&mut stream, &b_cmd);
    assert_eq!(reply, RespValue::Integer((total + common.len()) as i64));

    let reply = send_cmd(&mut stream, &["SINTER", "A", "B"]);
    let inter = array_to_set(reply);
    assert_eq!(inter.len(), common.len());
    for m in &common {
        assert!(inter.contains(&m.as_bytes().to_vec()));
    }

    let reply = send_cmd(&mut stream, &["SDIFF", "A", "B"]);
    let diff = array_to_set(reply);
    assert_eq!(diff.len(), total);

    let reply = send_cmd(&mut stream, &["SUNION", "A", "B"]);
    let union = array_to_set(reply);
    assert_eq!(union.len(), 2 * total + common.len());
}

fn assert_wrongtype(value: RespValue) {
    match &value {
        RespValue::Error(e) => assert!(
            e.contains("WRONGTYPE"),
            "expected WRONGTYPE error, got: {}",
            e
        ),
        other => panic!("expected WRONGTYPE error, got {:?}", other),
    }
}

#[test]
fn test_set_wrongtype_short_string() {
    let mut stream = start_server();

    send_cmd(&mut stream, &["SET", "str", "v"]);
    assert_wrongtype(send_cmd(&mut stream, &["SADD", "str", "m"]));
    assert_wrongtype(send_cmd(&mut stream, &["SISMEMBER", "str", "m"]));
    assert_wrongtype(send_cmd(&mut stream, &["SMEMBERS", "str"]));
    assert_wrongtype(send_cmd(&mut stream, &["SCARD", "str"]));
    assert_wrongtype(send_cmd(&mut stream, &["SINTER", "str"]));
    assert_wrongtype(send_cmd(&mut stream, &["SUNION", "str"]));
}

#[test]
fn test_set_arg_errors() {
    let mut stream = start_server();

    assert_error(send_cmd(&mut stream, &["SADD", "k"]));
    assert_error(send_cmd(&mut stream, &["SREM", "k"]));
    assert_error(send_cmd(&mut stream, &["SISMEMBER", "k"]));
    assert_error(send_cmd(&mut stream, &["SMEMBERS"]));
    assert_error(send_cmd(&mut stream, &["SCARD"]));
    assert_error(send_cmd(&mut stream, &["SINTER"]));
    assert_error(send_cmd(&mut stream, &["SUNION"]));
}
