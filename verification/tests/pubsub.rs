//! Publishing and subscribing.

use kvdb_rs::clock;
use kvdb_rs::cmd::dispatch::Dispatched;
use kvdb_rs::cmd::zset::{self, Floats};
use kvdb_rs::cmd::{CommandContext, CommandTable};
use kvdb_rs::protocol::{RespParser, RespSerializer, RespValue};
use kvdb_rs::pubsub::{Delivery, PubSubHub};
use kvdb_rs::server::{pubsub_message, Action, QueueRun, TransactionState};
use kvdb_rs::Config;

/// The number that an argument writes, as its bits.
fn number(arg: &[u8]) -> Option<u64> {
    let text = std::str::from_utf8(arg).ok()?;
    let score: f64 = text.parse().ok()?;
    if score.is_nan() {
        return None;
    }
    Some(score.to_bits())
}

/// The floating point work that a command takes as given.
fn floats(ctx: &CommandContext, name: &[u8], args: &[Vec<u8>], now_ms: i64) -> Floats {
    let scores = args.iter().map(|a| number(a)).collect();
    let mut given = Floats { scores, sum: 0 };
    if let Some((a, b)) = zset::increment_addends(ctx, name, args, &given, now_ms) {
        given.sum = (f64::from_bits(a) + f64::from_bits(b)).to_bits();
    }
    given
}

/// The reply with scores as decimal text.
fn rendered(value: RespValue) -> RespValue {
    match value {
        RespValue::Score(bits) => {
            let score = f64::from_bits(bits);
            let text = if score.fract() == 0.0 && score.is_finite() {
                format!("{:.0}", score)
            } else {
                score.to_string()
            };
            RespValue::BulkString(Some(text.into_bytes()))
        }
        RespValue::Array(items) => RespValue::Array(items.into_iter().map(rendered).collect()),
        other => other,
    }
}

fn run(ctx: &mut CommandContext, name: &[u8], args: &[Vec<u8>]) -> RespValue {
    let at = clock::this_moment(&mut ctx.versions).unwrap();
    let given = floats(ctx, name, args, at.now_ms);
    match CommandTable::new().dispatch_at(ctx, name, args, at, &given) {
        Dispatched::Reply(v) => rendered(v),
        Dispatched::Script(call) => panic!("script: {:?}", call),
    }
}

/// A server with its connections, without the sockets between.
struct Server {
    ctx: CommandContext,
    /// Messages for connections that have not asked yet.
    later: Vec<Delivery>,
}

/// A connection: its id and its transaction.
struct Connection {
    id: u64,
    transaction: TransactionState,
}

fn start() -> Server {
    Server { ctx: CommandContext::new(Config::default()), later: Vec::new() }
}

fn connect(server: &mut Server) -> Connection {
    let id = server.ctx.pubsub.alloc_client_id();
    Connection { id, transaction: TransactionState::new() }
}

/// Sends a command over a connection: the request and the reply go through
/// their bytes on the wire.
fn send_over(server: &mut Server, conn: &mut Connection, parts: &[&str]) -> RespValue {
    let mut request = format!("*{}\r\n", parts.len()).into_bytes();
    for p in parts {
        request.extend_from_slice(format!("${}\r\n{}\r\n", p.len(), p).as_bytes());
    }
    let (line, consumed) = RespParser::parse_cmd(&request).unwrap();
    assert_eq!(consumed, request.len());
    let ctx = &mut server.ctx;
    ctx.client_id = conn.id;
    let reply = match conn.transaction.step(ctx, line) {
        Action::Reply(v) => v,
        Action::Run(c) => run(ctx, &c.name, &c.args),
        Action::RunQueue(queue) => {
            let mut q = QueueRun::new(queue);
            loop {
                let reply = match q.next() {
                    Some(c) => run(ctx, &c.name, &c.args),
                    None => break,
                };
                q.answer(reply);
            }
            q.finish()
        }
    };
    let bytes = RespSerializer::serialize(&reply);
    let (value, read) = RespParser::parse_one(&bytes).unwrap();
    assert_eq!(read, bytes.len());
    value
}

/// Takes the messages that wait for delivery and sends them; the first one
/// that goes to the connection.
fn received(server: &mut Server, conn: &Connection) -> Option<RespValue> {
    let mut first = None;
    for delivery in server.ctx.pubsub.take_outbox() {
        if delivery.client == conn.id {
            let bytes = RespSerializer::serialize(&pubsub_message(&delivery.event));
            let (value, _) = RespParser::parse_one(&bytes).unwrap();
            first.get_or_insert(value);
        } else {
            server.later.push(delivery);
        }
    }
    for i in 0..server.later.len() {
        if first.is_none() && server.later[i].client == conn.id {
            let delivery = server.later.remove(i);
            let bytes = RespSerializer::serialize(&pubsub_message(&delivery.event));
            let (value, _) = RespParser::parse_one(&bytes).unwrap();
            return Some(value);
        }
    }
    first
}

#[test]
fn pubsub_subscribe_and_receive_message() {
    let mut server = start();

    let mut sub = connect(&mut server);
    let reply = send_over(&mut server, &mut sub, &["SUBSCRIBE", "news"]);
    assert_eq!(
        reply,
        RespValue::Array(vec![RespValue::Array(vec![
            RespValue::BulkString(Some(b"subscribe".to_vec())),
            RespValue::BulkString(Some(b"news".to_vec())),
            RespValue::Integer(1),
        ])])
    );

    let mut pub_conn = connect(&mut server);
    let reply = send_over(&mut server, &mut pub_conn, &["PUBLISH", "news", "hello"]);
    assert_eq!(reply, RespValue::Integer(1));

    let msg = received(&mut server, &sub).expect("did not receive pubsub message in time");
    assert_eq!(
        msg,
        RespValue::Array(vec![
            RespValue::BulkString(Some(b"message".to_vec())),
            RespValue::BulkString(Some(b"news".to_vec())),
            RespValue::BulkString(Some(b"hello".to_vec())),
        ])
    );
}

#[test]
fn pubsub_unsubscribe_stops_messages() {
    let mut server = start();

    let mut sub = connect(&mut server);
    send_over(&mut server, &mut sub, &["SUBSCRIBE", "news"]);

    let mut pub_conn = connect(&mut server);
    let reply = send_over(&mut server, &mut pub_conn, &["PUBLISH", "news", "before"]);
    assert_eq!(reply, RespValue::Integer(1));

    let _ = received(&mut server, &sub).expect("did not receive first message");

    let reply = send_over(&mut server, &mut sub, &["UNSUBSCRIBE", "news"]);
    assert_eq!(
        reply,
        RespValue::Array(vec![RespValue::Array(vec![
            RespValue::BulkString(Some(b"unsubscribe".to_vec())),
            RespValue::BulkString(Some(b"news".to_vec())),
            RespValue::Integer(0),
        ])])
    );

    let reply = send_over(&mut server, &mut pub_conn, &["PUBLISH", "news", "after"]);
    assert_eq!(reply, RespValue::Integer(0));

    let result = received(&mut server, &sub);
    assert!(
        result.is_none(),
        "should not receive message after unsubscribe"
    );
}

#[test]
fn pubsub_multiple_subscribers() {
    let mut server = start();

    let mut sub1 = connect(&mut server);
    let mut sub2 = connect(&mut server);
    send_over(&mut server, &mut sub1, &["SUBSCRIBE", "chat"]);
    send_over(&mut server, &mut sub2, &["SUBSCRIBE", "chat"]);

    let mut pub_conn = connect(&mut server);
    let reply = send_over(&mut server, &mut pub_conn, &["PUBLISH", "chat", "hi"]);
    assert_eq!(reply, RespValue::Integer(2));

    for sub in [&sub1, &sub2] {
        let msg = received(&mut server, sub).expect("subscriber did not receive message");
        assert_eq!(
            msg,
            RespValue::Array(vec![
                RespValue::BulkString(Some(b"message".to_vec())),
                RespValue::BulkString(Some(b"chat".to_vec())),
                RespValue::BulkString(Some(b"hi".to_vec())),
            ])
        );
    }
}

#[test]
fn pubsub_basic() {
    let mut hub = PubSubHub::new();
    let id = hub.alloc_client_id();

    hub.subscribe(id, vec!["news".to_string()]);
    assert_eq!(hub.publish("news", &b"hello".to_vec()), 1);

    let evt = hub.take_outbox().remove(0);
    assert_eq!(evt.client, id);
    assert_eq!(evt.event.channel, "news");
    assert_eq!(evt.event.message, b"hello".to_vec());
}

#[test]
fn pubsub_unsubscribe() {
    let mut hub = PubSubHub::new();
    let id = hub.alloc_client_id();

    hub.subscribe(id, vec!["a".to_string(), "b".to_string()]);
    assert_eq!(hub.subscription_count(id), 2);

    hub.unsubscribe(id, &vec!["a".to_string()]);
    assert_eq!(hub.subscription_count(id), 1);

    hub.unsubscribe_all(id);
    assert_eq!(hub.subscription_count(id), 0);
}
