//! Replication and cluster commands over the wire.

use kvdb_rs::clock;
use kvdb_rs::cmd::dispatch::Dispatched;
use kvdb_rs::cmd::zset::{self, Floats};
use kvdb_rs::cmd::{CommandContext, CommandTable};
use kvdb_rs::protocol::{RespParser, RespSerializer, RespValue};
use kvdb_rs::server::{Action, QueueRun, TransactionState};
use kvdb_rs::Config;

/// The number that an argument writes, as its bits.
fn number(arg: &[u8]) -> Option<u64> {
    let text = std::str::from_utf8(arg).ok()?;
    let score: f64 = text.parse().ok()?;
    if score.is_nan() {
        return None;
    }
    Some(score.to_bits())
}

/// The floating point work that a command takes as given.
fn floats(ctx: &CommandContext, name: &[u8], args: &[Vec<u8>], now_ms: i64) -> Floats {
    let scores = args.iter().map(|a| number(a)).collect();
    let mut given = Floats { scores, sum: 0 };
    if let Some((a, b)) = zset::increment_addends(ctx, name, args, &given, now_ms) {
        given.sum = (f64::from_bits(a) + f64::from_bits(b)).to_bits();
    }
    given
}

/// The reply with scores as decimal text.
fn rendered(value: RespValue) -> RespValue {
    match value {
        RespValue::Score(bits) => {
            let score = f64::from_bits(bits);
            let text = if score.fract() == 0.0 && score.is_finite() {
                format!("{:.0}", score)
            } else {
                score.to_string()
            };
            RespValue::BulkString(Some(text.into_bytes()))
        }
        RespValue::Array(items) => RespValue::Array(items.into_iter().map(rendered).collect()),
        other => other,
    }
}

fn run(ctx: &mut CommandContext, name: &[u8], args: &[Vec<u8>]) -> RespValue {
    let at = clock::this_moment(&mut ctx.versions).unwrap();
    let given = floats(ctx, name, args, at.now_ms);
    match CommandTable::new().dispatch_at(ctx, name, args, at, &given) {
        Dispatched::Reply(v) => rendered(v),
        Dispatched::Script(call) => panic!("script: {:?}", call),
    }
}

/// A server with its connections, without the sockets between.
struct Server {
    ctx: CommandContext,
}

/// A connection: its id and its transaction.
struct Connection {
    id: u64,
    transaction: TransactionState,
}

fn start() -> Server {
    Server { ctx: CommandContext::new(Config::default()) }
}

fn connect(server: &mut Server) -> Connection {
    let id = server.ctx.pubsub.alloc_client_id();
    Connection { id, transaction: TransactionState::new() }
}

/// Sends a command over a connection: the request and the reply go through
/// their bytes on the wire.
fn send_over(server: &mut Server, conn: &mut Connection, parts: &[&str]) -> RespValue {
    let mut request = format!("*{}\r\n", parts.len()).into_bytes();
    for p in parts {
        request.extend_from_slice(format!("${}\r\n{}\r\n", p.len(), p).as_bytes());
    }
    let (line, consumed) = RespParser::parse_cmd(&request).unwrap();
    assert_eq!(consumed, request.len());
    let ctx = &mut server.ctx;
    ctx.client_id = conn.id;
    let reply = match conn.transaction.step(ctx, line) {
        Action::Reply(v) => v,
        Action::Run(c) => run(ctx, &c.name, &c.args),
        Action::RunQueue(queue) => {
            let mut q = QueueRun::new(queue);
            loop {
                let reply = match q.next() {
                    Some(c) => run(ctx, &c.name, &c.args),
                    None => break,
                };
                q.answer(reply);
            }
            q.finish()
        }
    };
    let bytes = RespSerializer::serialize(&reply);
    let (value, read) = RespParser::parse_one(&bytes).unwrap();
    assert_eq!(read, bytes.len());
    value
}

/// A server and one connection to it.
struct Client {
    server: Server,
    conn: Connection,
}

fn start_server() -> Client {
    let mut server = start();
    let conn = connect(&mut server);
    Client { server, conn }
}

fn send_cmd(client: &mut Client, parts: &[&str]) -> RespValue {
    send_over(&mut client.server, &mut client.conn, parts)
}

#[test]
fn replicaof_switches_role() {
    let mut stream = start_server();

    assert_eq!(
        send_cmd(&mut stream, &["REPLICAOF", "192.168.1.1", "6379"]),
        RespValue::SimpleString("OK".to_string())
    );
    let role = send_cmd(&mut stream, &["ROLE"]);
    assert_eq!(
        role,
        RespValue::Array(vec![
            RespValue::BulkString(Some(b"slave".to_vec())),
            RespValue::BulkString(Some(b"192.168.1.1".to_vec())),
            RespValue::Integer(6379),
            RespValue::BulkString(Some(b"connected".to_vec())),
            RespValue::Integer(0),
        ])
    );

    assert_eq!(
        send_cmd(&mut stream, &["REPLICAOF", "NO", "ONE"]),
        RespValue::SimpleString("OK".to_string())
    );
    let role = send_cmd(&mut stream, &["ROLE"]);
    assert_eq!(
        role,
        RespValue::Array(vec![
            RespValue::BulkString(Some(b"master".to_vec())),
            RespValue::Integer(0),
        ])
    );
}

#[test]
fn info_reports_replication_role() {
    let mut stream = start_server();

    send_cmd(&mut stream, &["REPLICAOF", "10.0.0.2", "6380"]);
    let info = send_cmd(&mut stream, &["INFO", "replication"]);
    if let RespValue::BulkString(Some(bytes)) = info {
        let text = String::from_utf8_lossy(&bytes);
        assert!(text.contains("role:slave:10.0.0.2:6380"));
    } else {
        panic!("INFO did not return bulk string");
    }
}

#[test]
fn cluster_keyslot_basic() {
    let mut stream = start_server();

    let slot = send_cmd(&mut stream, &["CLUSTER", "KEYSLOT", "foo"]);
    assert_eq!(slot, RespValue::Integer(12182));

    let slot = send_cmd(&mut stream, &["CLUSTER", "KEYSLOT", "{user}:1"]);
    let slot2 = send_cmd(&mut stream, &["CLUSTER", "KEYSLOT", "{user}:2"]);
    assert_eq!(slot, slot2);
}

#[test]
fn cluster_slots_returns_stub() {
    let mut stream = start_server();

    let reply = send_cmd(&mut stream, &["CLUSTER", "SLOTS"]);
    if let RespValue::Array(items) = reply {
        assert!(!items.is_empty());
    } else {
        panic!("CLUSTER SLOTS did not return array");
    }
}

#[test]
fn cluster_nodes_returns_stub() {
    let mut stream = start_server();

    let reply = send_cmd(&mut stream, &["CLUSTER", "NODES"]);
    if let RespValue::BulkString(Some(bytes)) = reply {
        let text = String::from_utf8_lossy(&bytes);
        assert!(text.contains("connected"));
    } else {
        panic!("CLUSTER NODES did not return bulk string");
    }
}
