//! Transactions over the wire.

use kvdb_rs::clock;
use kvdb_rs::cmd::dispatch::Dispatched;
use kvdb_rs::cmd::zset::{self, Floats};
use kvdb_rs::cmd::{CommandContext, CommandTable};
use kvdb_rs::protocol::{RespParser, RespSerializer, RespValue};
use kvdb_rs::server::{Action, QueueRun, TransactionState};
use kvdb_rs::Config;

/// The number that an argument writes, as its bits.
fn number(arg: &[u8]) -> Option<u64> {
    let text = std::str::from_utf8(arg).ok()?;
    let score: f64 = text.parse().ok()?;
    if score.is_nan() {
        return None;
    }
    Some(score.to_bits())
}

/// The floating point work that a command takes as given.
fn floats(ctx: &CommandContext, name: &[u8], args: &[Vec<u8>], now_ms: i64) -> Floats {
    let scores = args.iter().map(|a| number(a)).collect();
    let mut given = Floats { scores, sum: 0 };
    if let Some((a, b)) = zset::increment_addends(ctx, name, args, &given, now_ms) {
        given.sum = (f64::from_bits(a) + f64::from_bits(b)).to_bits();
    }
    given
}

/// The reply with scores as decimal text.
fn rendered(value: RespValue) -> RespValue {
    match value {
        RespValue::Score(bits) => {
            let score = f64::from_bits(bits);
            let text = if score.fract() == 0.0 && score.is_finite() {
                format!("{:.0}", score)
            } else {
                score.to_string()
            };
            RespValue::BulkString(Some(text.into_bytes()))
        }
        RespValue::Array(items) => RespValue::Array(items.into_iter().map(rendered).collect()),
        other => other,
    }
}

fn run(ctx: &mut CommandContext, name: &[u8], args: &[Vec<u8>]) -> RespValue {
    let at = clock::this_moment(&mut ctx.versions).unwrap();
    let given = floats(ctx, name, args, at.now_ms);
    match CommandTable::new().dispatch_at(ctx, name, args, at, &given) {
        Dispatched::Reply(v) => rendered(v),
        Dispatched::Script(call) => panic!("script: {:?}", call),
    }
}

/// A server with its connections, without the sockets between.
struct Server {
    ctx: CommandContext,
}

/// A connection: its id and its transaction.
struct Connection {
    id: u64,
    transaction: TransactionState,
}

fn start() -> Server {
    Server { ctx: CommandContext::new(Config::default()) }
}

fn connect(server: &mut Server) -> Connection {
    let id = server.ctx.pubsub.alloc_client_id();
    Connection { id, transaction: TransactionState::new() }
}

/// Sends a command over a connection: the request and the reply go through
/// their bytes on the wire.
fn send_over(server: &mut Server, conn: &mut Connection, parts: &[&str]) -> RespValue {
    let mut request = format!("*{}\r\n", parts.len()).into_bytes();
    for p in parts {
        request.extend_from_slice(format!("${}\r\n{}\r\n", p.len(), p).as_bytes());
    }
    let (line, consumed) = RespParser::parse_cmd(&request).unwrap();
    assert_eq!(consumed, request.len());
    let ctx = &mut server.ctx;
    ctx.client_id = conn.id;
    let reply = match conn.transaction.step(ctx, line) {
        Action::Reply(v) => v,
        Action::Run(c) => run(ctx, &c.name, &c.args),
        Action::RunQueue(queue) => {
            let mut q = QueueRun::new(queue);
            loop {
                let reply = match q.next() {
                    Some(c) => run(ctx, &c.name, &c.args),
                    None => break,
                };
                q.answer(reply);
            }
            q.finish()
        }
    };
    let bytes = RespSerializer::serialize(&reply);
    let (value, read) = RespParser::parse_one(&bytes).unwrap();
    assert_eq!(read, bytes.len());
    value
}

/// A server and one connection to it.
struct Client {
    server: Server,
    conn: Connection,
}

fn start_server() -> Client {
    let mut server = start();
    let conn = connect(&mut server);
    Client { server, conn }
}

fn send_cmd(client: &mut Client, parts: &[&str]) -> RespValue {
    send_over(&mut client.server, &mut client.conn, parts)
}

#[test]
fn transaction_multi_exec_queued() {
    let mut stream = start_server();

    assert_eq!(
        send_cmd(&mut stream, &["MULTI"]),
        RespValue::SimpleString("OK".to_string())
    );
    assert_eq!(
        send_cmd(&mut stream, &["SET", "t", "1"]),
        RespValue::SimpleString("QUEUED".to_string())
    );
    assert_eq!(
        send_cmd(&mut stream, &["GET", "t"]),
        RespValue::SimpleString("QUEUED".to_string())
    );
    let reply = send_cmd(&mut stream, &["EXEC"]);
    assert_eq!(
        reply,
        RespValue::Array(vec![
            RespValue::SimpleString("OK".to_string()),
            RespValue::BulkString(Some(b"1".to_vec())),
        ])
    );
}

#[test]
fn transaction_discard_clears_queue() {
    let mut stream = start_server();

    assert_eq!(
        send_cmd(&mut stream, &["MULTI"]),
        RespValue::SimpleString("OK".to_string())
    );
    assert_eq!(
        send_cmd(&mut stream, &["SET", "disc", "x"]),
        RespValue::SimpleString("QUEUED".to_string())
    );
    assert_eq!(
        send_cmd(&mut stream, &["DISCARD"]),
        RespValue::SimpleString("OK".to_string())
    );
    assert_eq!(
        send_cmd(&mut stream, &["GET", "disc"]),
        RespValue::BulkString(None)
    );
}

#[test]
fn transaction_watch_detects_change() {
    let mut server = start();
    let mut watcher = connect(&mut server);
    let mut mutator = connect(&mut server);

    send_over(&mut server, &mut watcher, &["SET", "watched", "init"]);
    assert_eq!(
        send_over(&mut server, &mut watcher, &["WATCH", "watched"]),
        RespValue::SimpleString("OK".to_string())
    );
    assert_eq!(
        send_over(&mut server, &mut watcher, &["MULTI"]),
        RespValue::SimpleString("OK".to_string())
    );
    assert_eq!(
        send_over(&mut server, &mut watcher, &["GET", "watched"]),
        RespValue::SimpleString("QUEUED".to_string())
    );

    send_over(&mut server, &mut mutator, &["SET", "watched", "changed"]);

    let reply = send_over(&mut server, &mut watcher, &["EXEC"]);
    assert_eq!(reply, RespValue::Null);
}
