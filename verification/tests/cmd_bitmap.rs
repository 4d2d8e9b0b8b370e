//! Bitmap commands over the wire.

use kvdb_rs::clock;
use kvdb_rs::cmd::dispatch::Dispatched;
use kvdb_rs::cmd::zset::{self, Floats};
use kvdb_rs::cmd::{CommandContext, CommandTable};
use kvdb_rs::protocol::{RespParser, RespSerializer, RespValue};
use kvdb_rs::server::{Action, QueueRun, TransactionState};
use kvdb_rs::Config;

/// The number that an argument writes, as its bits.
fn number(arg: &[u8]) -> Option<u64> {
    let text = std::str::from_utf8(arg).ok()?;
    let score: f64 = text.parse().ok()?;
    if score.is_nan() {
        return None;
    }
    Some(score.to_bits())
}

/// The floating point work that a command takes as given.
fn floats(ctx: &CommandContext, name: &[u8], args: &[Vec<u8>], now_ms: i64) -> Floats {
    let scores = args.iter().map(|a| number(a)).collect();
    let mut given = Floats { scores, sum: 0 };
    if let Some((a, b)) = zset::increment_addends(ctx, name, args, &given, now_ms) {
        given.sum = (f64::from_bits(a) + f64::from_bits(b)).to_bits();
    }
    given
}

/// The reply with scores as decimal text.
fn rendered(value: RespValue) -> RespValue {
    match value {
        RespValue::Score(bits) => {
            let score = f64::from_bits(bits);
            let text = if score.fract() == 0.0 && score.is_finite() {
                format!("{:.0}", score)
            } else {
                score.to_string()
            };
            RespValue::BulkString(Some(text.into_bytes()))
        }
        RespValue::Array(items) => RespValue::Array(items.into_iter().map(rendered).collect()),
        other => other,
    }
}

fn run(ctx: &mut CommandContext, name: &[u8], args: &[Vec<u8>]) -> RespValue {
    let at = clock::this_moment(&mut ctx.versions).unwrap();
    let given = floats(ctx, name, args, at.now_ms);
    match CommandTable::new().dispatch_at(ctx, name, args, at, &given) {
        Dispatched::Reply(v) => rendered(v),
        Dispatched::Script(call) => panic!("script: {:?}", call),
    }
}

/// A server with its connections, without the sockets between.
struct Server {
    ctx: CommandContext,
}

/// A connection: its id and its transaction.
struct Connection {
    id: u64,
    transaction: TransactionState,
}

fn start() -> Server {
    Server { ctx: CommandContext::new(Config::default()) }
}

fn connect(server: &mut Server) -> Connection {
    let id = server.ctx.pubsub.alloc_client_id();
    Connection { id, transaction: TransactionState::new() }
}

/// Sends a command over a connection: the request and the reply go through
/// their bytes on the wire.
fn send_over(server: &mut Server, conn: &mut Connection, parts: &[&str]) -> RespValue {
    let mut request = format!("*{}\r\n", parts.len()).into_bytes();
    for p in parts {
        request.extend_from_slice(format!("${}\r\n{}\r\n", p.len(), p).as_bytes());
    }
    let (line, consumed) = RespParser::parse_cmd(&request).unwrap();
    assert_eq!(consumed, request.len());
    let ctx = &mut server.ctx;
    ctx.client_id = conn.id;
    let reply = match conn.transaction.step(ctx, line) {
        Action::Reply(v) => v,
        Action::Run(c) => run(ctx, &c.name, &c.args),
        Action::RunQueue(queue) => {
            let mut q = QueueRun::new(queue);
            loop {
                let reply = match q.next() {
                    Some(c) => run(ctx, &c.name, &c.args),
                    None => break,
                };
                q.answer(reply);
            }
            q.finish()
        }
    };
    let bytes = RespSerializer::serialize(&reply);
    let (value, read) = RespParser::parse_one(&bytes).unwrap();
    assert_eq!(read, bytes.len());
    value
}

/// A server and one connection to it.
struct Client {
    server: Server,
    conn: Connection,
}

fn start_server() -> Client {
    let mut server = start();
    let conn = connect(&mut server);
    Client { server, conn }
}

fn send_cmd(client: &mut Client, parts: &[&str]) -> RespValue {
    send_over(&mut client.server, &mut client.conn, parts)
}

fn assert_int(value: RespValue, expected: i64) {
    assert_eq!(value, RespValue::Integer(expected));
}

fn assert_ok(value: RespValue) {
    assert_eq!(value, RespValue::SimpleString("OK".to_string()));
}

fn assert_error(value: RespValue) {
    match value {
        RespValue::Error(_) => {}
        other => panic!("expected error, got {:?}", other),
    }
}

#[test]
fn bitmap_commands() {
    let mut stream = start_server();

    // SETBIT / GETBIT basic
    assert_int(send_cmd(&mut stream, &["SETBIT", "b1", "0", "1"]), 0);
    assert_int(send_cmd(&mut stream, &["GETBIT", "b1", "0"]), 1);
    assert_int(send_cmd(&mut stream, &["SETBIT", "b1", "0", "1"]), 1);
    assert_int(send_cmd(&mut stream, &["SETBIT", "b1", "0", "0"]), 1);
    assert_int(send_cmd(&mut stream, &["GETBIT", "b1", "0"]), 0);

    // SETBIT returns old value and extends the bitmap
    assert_int(send_cmd(&mut stream, &["SETBIT", "b2", "7", "1"]), 0);
    assert_int(send_cmd(&mut stream, &["SETBIT", "b2", "7", "1"]), 1);
    assert_int(send_cmd(&mut stream, &["GETBIT", "b2", "7"]), 1);
    assert_int(send_cmd(&mut stream, &["GETBIT", "b2", "6"]), 0);

    // SETBIT at large offset (crosses fragment boundary)
    assert_int(
        send_cmd(&mut stream, &["SETBIT", "b3", "8192", "1"]),
        0,
    );
    assert_int(send_cmd(&mut stream, &["GETBIT", "b3", "8192"]), 1);
    assert_int(send_cmd(&mut stream, &["GETBIT", "b3", "0"]), 0);

    // GETBIT on non-existent key / fragment
    assert_int(
        send_cmd(&mut stream, &["GETBIT", "nonexistent", "0"]),
        0,
    );
    assert_int(send_cmd(&mut stream, &["GETBIT", "b3", "999999"]), 0);

    // BITCOUNT full
    assert_int(send_cmd(&mut stream, &["BITCOUNT", "b1"]), 0);
    assert_int(send_cmd(&mut stream, &["BITCOUNT", "b2"]), 1);
    assert_int(send_cmd(&mut stream, &["BITCOUNT", "b3"]), 1);

    // Prepare bitmap with bits 0,1,2 set across bytes 0 and 1 for range tests.
    // byte0 = 0b00000111 = 0x07, byte1 = 0b00000001 = 0x01
    assert_int(send_cmd(&mut stream, &["SETBIT", "b4", "0", "1"]), 0);
    assert_int(send_cmd(&mut stream, &["SETBIT", "b4", "1", "1"]), 0);
    assert_int(send_cmd(&mut stream, &["SETBIT", "b4", "2", "1"]), 0);
    assert_int(send_cmd(&mut stream, &["SETBIT", "b4", "8", "1"]), 0);
    assert_int(send_cmd(&mut stream, &["BITCOUNT", "b4"]), 4);

    // BITCOUNT with byte range
    assert_int(
        send_cmd(&mut stream, &["BITCOUNT", "b4", "0", "0"]),
        3,
    );
    assert_int(
        send_cmd(&mut stream, &["BITCOUNT", "b4", "1", "1"]),
        1,
    );
    assert_int(
        send_cmd(&mut stream, &["BITCOUNT", "b4", "0", "1"]),
        4,
    );

    // BITCOUNT with negative indices
    assert_int(
        send_cmd(&mut stream, &["BITCOUNT", "b4", "-1", "-1"]),
        1,
    );
    assert_int(
        send_cmd(&mut stream, &["BITCOUNT", "b4", "-2", "-1"]),
        4,
    );
    assert_int(
        send_cmd(&mut stream, &["BITCOUNT", "b4", "0", "-1"]),
        4,
    );

    // BITCOUNT on non-existent key
    assert_int(
        send_cmd(&mut stream, &["BITCOUNT", "nokey", "0", "1"]),
        0,
    );

    // BITOP AND / OR / XOR / NOT
    // a: 0b00000011 (bits 0,1), b: 0b00000110 (bits 1,2)
    assert_int(send_cmd(&mut stream, &["SETBIT", "a", "0", "1"]), 0);
    assert_int(send_cmd(&mut stream, &["SETBIT", "a", "1", "1"]), 0);
    assert_int(send_cmd(&mut stream, &["SETBIT", "b", "1", "1"]), 0);
    assert_int(send_cmd(&mut stream, &["SETBIT", "b", "2", "1"]), 0);

    assert_int(
        send_cmd(&mut stream, &["BITOP", "AND", "dest", "a", "b"]),
        1,
    );
    assert_int(send_cmd(&mut stream, &["GETBIT", "dest", "0"]), 0);
    assert_int(send_cmd(&mut stream, &["GETBIT", "dest", "1"]), 1);
    assert_int(send_cmd(&mut stream, &["GETBIT", "dest", "2"]), 0);

    assert_int(
        send_cmd(&mut stream, &["BITOP", "OR", "dest", "a", "b"]),
        1,
    );
    assert_int(send_cmd(&mut stream, &["GETBIT", "dest", "0"]), 1);
    assert_int(send_cmd(&mut stream, &["GETBIT", "dest", "1"]), 1);
    assert_int(send_cmd(&mut stream, &["GETBIT", "dest", "2"]), 1);

    assert_int(
        send_cmd(&mut stream, &["BITOP", "XOR", "dest", "a", "b"]),
        1,
    );
    assert_int(send_cmd(&mut stream, &["GETBIT", "dest", "0"]), 1);
    assert_int(send_cmd(&mut stream, &["GETBIT", "dest", "1"]), 0);
    assert_int(send_cmd(&mut stream, &["GETBIT", "dest", "2"]), 1);

    assert_int(
        send_cmd(&mut stream, &["BITOP", "NOT", "dest", "a"]),
        1,
    );
    assert_int(send_cmd(&mut stream, &["GETBIT", "dest", "0"]), 0);
    assert_int(send_cmd(&mut stream, &["GETBIT", "dest", "1"]), 0);
    assert_int(send_cmd(&mut stream, &["GETBIT", "dest", "7"]), 1);
    assert_int(send_cmd(&mut stream, &["BITCOUNT", "dest"]), 6);

    // BITOP with missing source keys
    assert_int(
        send_cmd(&mut stream, &["BITOP", "OR", "dest2", "a", "missing"]),
        1,
    );
    assert_int(send_cmd(&mut stream, &["GETBIT", "dest2", "0"]), 1);
    assert_int(send_cmd(&mut stream, &["GETBIT", "dest2", "1"]), 1);
    assert_int(send_cmd(&mut stream, &["GETBIT", "dest2", "7"]), 0);

    assert_int(
        send_cmd(&mut stream, &["BITOP", "AND", "dest3", "a", "missing"]),
        1,
    );
    assert_int(send_cmd(&mut stream, &["GETBIT", "dest3", "0"]), 0);
    assert_int(send_cmd(&mut stream, &["GETBIT", "dest3", "1"]), 0);

    // BITOP with all missing keys
    assert_int(
        send_cmd(
            &mut stream,
            &["BITOP", "OR", "dest4", "missing1", "missing2"],
        ),
        0,
    );

    // Wrong type: SETBIT on a string key
    assert_ok(send_cmd(&mut stream, &["SET", "str", "hello"]));
    assert_error(send_cmd(&mut stream, &["SETBIT", "str", "0", "1"]));

    // Argument errors
    assert_error(send_cmd(&mut stream, &["SETBIT", "x"]));
    assert_error(send_cmd(&mut stream, &["GETBIT", "x"]));
    assert_error(send_cmd(&mut stream, &["BITCOUNT", "x", "0"]));
    assert_error(send_cmd(&mut stream, &["BITOP", "AND", "d"]));
    assert_error(send_cmd(&mut stream, &["SETBIT", "x", "0", "2"]));
    assert_error(send_cmd(&mut stream, &["SETBIT", "x", "abc", "1"]));
    assert_error(send_cmd(&mut stream, &["BITOP", "UNKNOWN", "d", "x"]));
}
