//! What commands promise, on concrete values.

use kvdb_rs::cmd::dispatch::Dispatched;
use kvdb_rs::cmd::zset::{self, Floats};
use kvdb_rs::cmd::{CommandContext, CommandTable, Moment};
use kvdb_rs::protocol::RespValue;
use kvdb_rs::Config;

/// The number that an argument writes, as its bits.
fn number(arg: &[u8]) -> Option<u64> {
    let text = std::str::from_utf8(arg).ok()?;
    let score: f64 = text.parse().ok()?;
    if score.is_nan() {
        return None;
    }
    Some(score.to_bits())
}

/// The floating point work that a command takes as given.
fn floats(ctx: &CommandContext, name: &[u8], args: &[Vec<u8>], now_ms: i64) -> Floats {
    let scores = args.iter().map(|a| number(a)).collect();
    let mut given = Floats { scores, sum: 0 };
    if let Some((a, b)) = zset::increment_addends(ctx, name, args, &given, now_ms) {
        given.sum = (f64::from_bits(a) + f64::from_bits(b)).to_bits();
    }
    given
}

/// The reply with scores as decimal text.
fn rendered(value: RespValue) -> RespValue {
    match value {
        RespValue::Score(bits) => {
            let score = f64::from_bits(bits);
            let text = if score.fract() == 0.0 && score.is_finite() {
                format!("{:.0}", score)
            } else {
                score.to_string()
            };
            RespValue::BulkString(Some(text.into_bytes()))
        }
        RespValue::Array(items) => RespValue::Array(items.into_iter().map(rendered).collect()),
        other => other,
    }
}

/// Runs a command at a time. Values that it makes get the time as version.
fn at(ctx: &mut CommandContext, now_ms: i64, words: &[&str]) -> RespValue {
    let args: Vec<Vec<u8>> = words[1..].iter().map(|w| w.as_bytes().to_vec()).collect();
    let name = words[0].as_bytes();
    let given = floats(ctx, name, &args, now_ms);
    let moment = Moment { now_ms, version: now_ms as u64 };
    match CommandTable::new().dispatch_at(ctx, name, &args, moment, &given) {
        Dispatched::Reply(v) => rendered(v),
        Dispatched::Script(call) => panic!("script: {:?}", call),
    }
}

fn run(ctx: &mut CommandContext, words: &[&str]) -> RespValue {
    at(ctx, 1000, words)
}

fn new() -> CommandContext {
    CommandContext::new(Config::default())
}

fn number_reply(n: i64) -> RespValue {
    RespValue::Integer(n)
}

fn bulk(s: &str) -> RespValue {
    RespValue::BulkString(Some(s.as_bytes().to_vec()))
}

fn nil() -> RespValue {
    RespValue::BulkString(None)
}

fn ok() -> RespValue {
    RespValue::SimpleString("OK".to_string())
}

fn list(items: &[&str]) -> RespValue {
    RespValue::Array(items.iter().map(|s| bulk(s)).collect())
}

fn error(v: RespValue) -> String {
    match v {
        RespValue::Error(e) => e,
        other => panic!("expected an error, got {:?}", other),
    }
}

/// All entries of the store.
fn contents(ctx: &CommandContext) -> Vec<Vec<(Vec<u8>, Vec<u8>)>> {
    ["default", "metadata", "subkey", "zset_score", "pubsub"]
        .iter()
        .map(|cf| ctx.storage.full_scan(cf).unwrap())
        .collect()
}

#[test]
fn a_string_lives_until_it_expires() {
    let mut c = new();
    assert_eq!(at(&mut c, 1000, &["SET", "k", "v", "PX", "500"]), ok());
    assert_eq!(at(&mut c, 1000, &["PTTL", "k"]), number_reply(500));
    assert_eq!(at(&mut c, 1499, &["GET", "k"]), bulk("v"));
    assert_eq!(at(&mut c, 1500, &["GET", "k"]), nil());
    assert_eq!(at(&mut c, 1500, &["EXISTS", "k"]), number_reply(0));
    assert_eq!(at(&mut c, 1500, &["TTL", "k"]), number_reply(-2));
    assert_eq!(at(&mut c, 1500, &["DBSIZE"]), number_reply(0));
    assert_eq!(at(&mut c, 1500, &["SET", "k", "w", "NX"]), ok());
    assert_eq!(at(&mut c, 1500, &["TTL", "k"]), number_reply(-1));
}

#[test]
fn expiry_is_set_and_taken_back() {
    let mut c = new();
    run(&mut c, &["RPUSH", "l", "a"]);
    assert_eq!(run(&mut c, &["EXPIRE", "l", "10"]), number_reply(1));
    assert_eq!(run(&mut c, &["PTTL", "l"]), number_reply(10_000));
    assert_eq!(run(&mut c, &["PERSIST", "l"]), number_reply(1));
    assert_eq!(run(&mut c, &["PERSIST", "l"]), number_reply(0));
    assert_eq!(run(&mut c, &["TTL", "l"]), number_reply(-1));
    assert_eq!(run(&mut c, &["EXPIRE", "l", "0"]), number_reply(1));
    assert_eq!(run(&mut c, &["EXISTS", "l"]), number_reply(0));
    assert_eq!(error(run(&mut c, &["EXPIRE", "l", "x"])), "ERR value is not an integer");
    run(&mut c, &["SET", "k", "v"]);
    assert_eq!(
        error(run(&mut c, &["EXPIRE", "k", "9223372036854775807"])),
        "ERR invalid expire time in 'expire' command"
    );
}

#[test]
fn conditions_of_set() {
    let mut c = new();
    assert_eq!(run(&mut c, &["SET", "k", "a", "XX"]), nil());
    assert_eq!(run(&mut c, &["GET", "k"]), nil());
    assert_eq!(run(&mut c, &["set", "k", "a", "nx"]), ok());
    assert_eq!(run(&mut c, &["SET", "k", "b", "NX"]), nil());
    assert_eq!(run(&mut c, &["GET", "k"]), bulk("a"));
    assert_eq!(run(&mut c, &["SET", "k", "b", "NX", "XX"]), nil());
    assert_eq!(error(run(&mut c, &["SET", "k", "b", "EX"])), "ERR syntax error");
    assert_eq!(error(run(&mut c, &["SET", "k", "b", "EX", "x"])), "ERR value is not an integer");
    assert_eq!(
        error(run(&mut c, &["SET", "k", "b", "EX", "0"])),
        "ERR invalid expire time in 'set' command"
    );
    assert_eq!(run(&mut c, &["GET", "k"]), bulk("a"));
}

#[test]
fn incr_and_decr_undo_each_other() {
    let mut c = new();
    run(&mut c, &["SET", "n", "41"]);
    assert_eq!(run(&mut c, &["INCR", "n"]), number_reply(42));
    assert_eq!(run(&mut c, &["DECR", "n"]), number_reply(41));
    assert_eq!(run(&mut c, &["GET", "n"]), bulk("41"));
    run(&mut c, &["SET", "n", "9223372036854775807"]);
    assert_eq!(error(run(&mut c, &["INCR", "n"])), "ERR value is out of range");
    run(&mut c, &["SET", "n", "-9223372036854775808"]);
    assert_eq!(error(run(&mut c, &["DECR", "n"])), "ERR value is out of range");
    run(&mut c, &["SET", "n", "x"]);
    assert_eq!(error(run(&mut c, &["INCR", "n"])), "ERR value is not an integer");
}

#[test]
fn appended_text_is_read_back() {
    let mut c = new();
    assert_eq!(run(&mut c, &["APPEND", "s", "ab"]), number_reply(2));
    assert_eq!(run(&mut c, &["APPEND", "s", "cd"]), number_reply(4));
    assert_eq!(run(&mut c, &["GET", "s"]), bulk("abcd"));
}

#[test]
fn the_last_value_of_mset_stays() {
    let mut c = new();
    assert_eq!(run(&mut c, &["MSET", "a", "1", "b", "2", "a", "3"]), ok());
    assert_eq!(
        run(&mut c, &["MGET", "a", "none", "b"]),
        RespValue::Array(vec![bulk("3"), nil(), bulk("2")])
    );
    assert_eq!(run(&mut c, &["DEL", "a", "a", "none"]), number_reply(1));
}

#[test]
fn hash_fields_are_set_and_removed() {
    let mut c = new();
    assert_eq!(run(&mut c, &["HSET", "h", "f", "1", "g", "2", "f", "3"]), number_reply(2));
    assert_eq!(run(&mut c, &["HLEN", "h"]), number_reply(2));
    assert_eq!(run(&mut c, &["HGET", "h", "f"]), bulk("3"));
    assert_eq!(run(&mut c, &["HDEL", "h", "f"]), number_reply(1));
    assert_eq!(run(&mut c, &["HGET", "h", "f"]), nil());
    assert_eq!(run(&mut c, &["HGET", "h", "g"]), bulk("2"));
    assert_eq!(run(&mut c, &["HGETALL", "h"]), list(&["g", "2"]));
    assert_eq!(
        error(run(&mut c, &["HSET", "h", "f"])),
        "ERR wrong number of arguments for 'HSET' command"
    );
}

#[test]
fn a_scan_visits_every_field() {
    let mut c = new();
    for i in 0..25 {
        run(&mut c, &["HSET", "h", &format!("f{:02}", i), "v"]);
    }
    let mut cursor = "0".to_string();
    let mut seen = Vec::new();
    loop {
        let RespValue::Array(parts) = run(&mut c, &["HSCAN", "h", &cursor]) else {
            panic!("expected an array");
        };
        let RespValue::BulkString(Some(next)) = &parts[0] else {
            panic!("expected a cursor");
        };
        let RespValue::Array(items) = &parts[1] else {
            panic!("expected items");
        };
        for pair in items.chunks(2) {
            seen.push(format!("{:?}", pair[0]));
        }
        cursor = String::from_utf8(next.clone()).unwrap();
        if cursor == "0" {
            break;
        }
    }
    let n = seen.len();
    seen.dedup();
    assert_eq!((n, seen.len()), (25, 25));
    assert!(error(run(&mut c, &["HSCAN", "h", "zz"])).starts_with("ERR "));
}

#[test]
fn lists_push_and_pop_at_both_ends() {
    let mut c = new();
    assert_eq!(run(&mut c, &["LPUSH", "l", "b", "a"]), number_reply(2));
    assert_eq!(run(&mut c, &["RPUSH", "l", "c", "d"]), number_reply(4));
    assert_eq!(run(&mut c, &["LRANGE", "l", "0", "-1"]), list(&["a", "b", "c", "d"]));
    assert_eq!(run(&mut c, &["RPOP", "l", "2"]), list(&["d", "c"]));
    assert_eq!(run(&mut c, &["LPOP", "l", "9"]), list(&["a", "b"]));
    assert_eq!(run(&mut c, &["LLEN", "l"]), number_reply(0));
    assert_eq!(run(&mut c, &["LPOP", "l", "0"]), RespValue::Array(vec![]));
    assert_eq!(error(run(&mut c, &["LPOP", "l", "x"])), "ERR value is not an integer");
    assert_eq!(run(&mut c, &["LINDEX", "l", "0"]), nil());
}

#[test]
fn set_operations() {
    let mut c = new();
    run(&mut c, &["SADD", "a", "1", "2", "3"]);
    run(&mut c, &["SADD", "b", "2", "3", "4"]);
    assert_eq!(run(&mut c, &["SINTER", "a", "b"]), list(&["2", "3"]));
    assert_eq!(run(&mut c, &["SDIFF", "a", "b"]), list(&["1"]));
    assert_eq!(run(&mut c, &["SUNION", "a", "b"]), list(&["1", "2", "3", "4"]));
    assert_eq!(run(&mut c, &["SADD", "a", "3", "9"]), number_reply(1));
    assert_eq!(run(&mut c, &["SREM", "a", "1", "1", "8"]), number_reply(1));
    assert_eq!(run(&mut c, &["SMEMBERS", "a"]), list(&["2", "3", "9"]));
    assert_eq!(run(&mut c, &["SCARD", "a"]), number_reply(3));
}

#[test]
fn members_stand_by_score_then_by_name() {
    let mut c = new();
    run(&mut c, &["ZADD", "z", "2", "b", "2", "a", "-1.5", "n", "inf", "i", "0", "o"]);
    assert_eq!(run(&mut c, &["ZRANGE", "z", "0", "-1"]), list(&["n", "o", "a", "b", "i"]));
    assert_eq!(run(&mut c, &["ZREVRANGE", "z", "0", "-1"]), list(&["i", "b", "a", "o", "n"]));
    for m in ["n", "o", "a", "b", "i"] {
        let (RespValue::Integer(up), RespValue::Integer(down)) =
            (run(&mut c, &["ZRANK", "z", m]), run(&mut c, &["ZREVRANK", "z", m]))
        else {
            panic!("expected ranks");
        };
        assert_eq!(up + down, 4);
    }
    assert_eq!(run(&mut c, &["ZSCORE", "z", "n"]), bulk("-1.5"));
    assert_eq!(run(&mut c, &["ZSCORE", "z", "i"]), bulk("inf"));
    assert_eq!(run(&mut c, &["ZREM", "z", "a", "none"]), number_reply(1));
    assert_eq!(run(&mut c, &["ZCARD", "z"]), number_reply(4));
    assert_eq!(run(&mut c, &["ZRANGE", "z", "0", "-1"]), list(&["n", "o", "b", "i"]));
    assert_eq!(error(run(&mut c, &["ZADD", "z", "nan", "x"])), "ERR value is not an integer");
    assert_eq!(
        error(run(&mut c, &["ZINCRBY", "z", "-inf", "i"])),
        error(run(&mut c, &["ZADD", "z", "INCR", "-inf", "i"]))
    );
}

#[test]
fn entries_of_a_stream_are_found_between_their_ids() {
    let mut c = new();
    assert_eq!(at(&mut c, 5, &["XADD", "s", "*", "f", "1"]), bulk("5-0"));
    assert_eq!(at(&mut c, 5, &["XADD", "s", "*", "f", "2"]), bulk("5-1"));
    assert_eq!(at(&mut c, 5, &["XADD", "s", "7-*", "f", "3"]), bulk("7-0"));
    assert_eq!(run(&mut c, &["XLEN", "s"]), number_reply(3));
    let entry = |id: &str, v: &str| RespValue::Array(vec![bulk(id), list(&["f", v])]);
    assert_eq!(
        run(&mut c, &["XRANGE", "s", "5-1", "+"]),
        RespValue::Array(vec![entry("5-1", "2"), entry("7-0", "3")])
    );
    assert_eq!(
        run(&mut c, &["XRANGE", "s", "-", "+", "COUNT", "1"]),
        RespValue::Array(vec![entry("5-0", "1")])
    );
    assert_eq!(
        error(run(&mut c, &["XADD", "s", "7-0", "f", "4"])),
        "ERR The ID specified in XADD must be greater than 0-0"
    );
    assert_eq!(error(run(&mut c, &["XADD", "s", "x", "f", "4"])), "ERR invalid stream ID");
    assert_eq!(
        run(&mut c, &["XREAD", "STREAMS", "s", "5-1"]),
        RespValue::Array(vec![RespValue::Array(vec![
            bulk("s"),
            RespValue::Array(vec![entry("7-0", "3")])
        ])])
    );
}

#[test]
fn bits_are_set_and_counted() {
    let mut c = new();
    assert_eq!(run(&mut c, &["SETBIT", "b", "8191", "1"]), number_reply(0));
    assert_eq!(run(&mut c, &["SETBIT", "b", "8192", "1"]), number_reply(0));
    assert_eq!(run(&mut c, &["SETBIT", "b", "8191", "0"]), number_reply(1));
    assert_eq!(run(&mut c, &["GETBIT", "b", "8191"]), number_reply(0));
    assert_eq!(run(&mut c, &["GETBIT", "b", "8192"]), number_reply(1));
    assert_eq!(run(&mut c, &["BITCOUNT", "b"]), number_reply(1));
}

#[test]
fn a_failed_command_changes_nothing() {
    let mut c = new();
    run(&mut c, &["SET", "s", "x"]);
    run(&mut c, &["HSET", "h", "f", "v"]);
    let before = contents(&c);
    for words in [
        &["HSET", "s", "f", "v"][..],
        &["LPUSH", "h", "a"],
        &["SADD", "h", "a"],
        &["ZADD", "h", "1", "a"],
        &["ZADD", "z", "one", "a"],
        &["XADD", "h", "1-1", "f", "v"],
        &["SETBIT", "h", "1", "1"],
        &["INCR", "s"],
        &["APPEND", "h", "x"],
        &["MSET", "a"],
        &["BITOP", "AND", "d", "s"],
    ] {
        error(run(&mut c, words));
        assert_eq!(contents(&c), before);
    }
}

#[test]
fn a_value_of_another_type_is_an_error_with_its_own_code() {
    let mut c = new();
    run(&mut c, &["SET", "h", "string-value"]);
    for words in [&["HSET", "h", "f", "v"][..], &["HGET", "h", "f"], &["BITCOUNT", "h"]] {
        assert_eq!(
            error(run(&mut c, words)),
            "WRONGTYPE Operation against a key holding the wrong kind of value"
        );
    }
}

#[test]
fn a_command_leaves_other_keys_and_namespaces_alone() {
    let mut c = new();
    c.namespace = b"one".to_vec();
    run(&mut c, &["SADD", "k", "a", "b"]);
    run(&mut c, &["ZADD", "z", "1", "a"]);
    c.namespace = b"two".to_vec();
    run(&mut c, &["SADD", "k", "c"]);
    run(&mut c, &["SADD", "l", "d"]);
    run(&mut c, &["DEL", "k"]);
    assert_eq!(run(&mut c, &["SMEMBERS", "l"]), list(&["d"]));
    assert_eq!(run(&mut c, &["FLUSHDB"]), ok());
    assert_eq!(run(&mut c, &["DBSIZE"]), number_reply(0));
    c.namespace = b"one".to_vec();
    assert_eq!(run(&mut c, &["SMEMBERS", "k"]), list(&["a", "b"]));
    assert_eq!(run(&mut c, &["ZRANGE", "z", "0", "-1"]), list(&["a"]));
    assert_eq!(run(&mut c, &["DBSIZE"]), number_reply(2));
}

#[test]
fn what_is_no_command_is_named() {
    let mut c = new();
    assert_eq!(error(run(&mut c, &["nope", "x"])), "ERR unknown command 'NOPE'");
    assert_eq!(
        error(run(&mut c, &["cluster", "what"])),
        "ERR unknown subcommand 'WHAT'"
    );
    assert_eq!(
        error(run(&mut c, &["REPLICAOF", "h", "99999"])),
        "ERR port must be a valid integer"
    );
    assert_eq!(
        error(run(&mut c, &["EVAL", "return 1", "x"])),
        "ERR numkeys must be an integer"
    );
    assert_eq!(
        error(run(&mut c, &["EVALSHA", "none", "0"])),
        "NOSCRIPT No matching script. Please use EVAL."
    );
    assert_eq!(run(&mut c, &["ping"]), RespValue::SimpleString("PONG".to_string()));
    assert_eq!(run(&mut c, &["ECHO", "hi"]), bulk("hi"));
}

#[test]
fn a_channel_is_named_by_its_text() {
    let mut c = new();
    let name: Vec<u8> = b"ch\xff".to_vec();
    let moment = Moment { now_ms: 1, version: 1 };
    let none = Floats { scores: vec![None], sum: 0 };
    let d = CommandTable::new().dispatch_at(&mut c, b"SUBSCRIBE", &[name], moment, &none);
    let Dispatched::Reply(RespValue::Array(items)) = d else {
        panic!("expected an array");
    };
    assert_eq!(
        items,
        vec![RespValue::Array(vec![bulk("subscribe"), bulk("ch\u{fffd}"), number_reply(1)])]
    );
}

#[test]
fn a_cursor_that_is_no_text_is_refused_first() {
    let mut c = new();
    let moment = Moment { now_ms: 1, version: 1 };
    let none = Floats { scores: Vec::new(), sum: 0 };
    let mut scan = |cursor: &[u8]| {
        let args = [b"h".to_vec(), cursor.to_vec(), b"COUNT".to_vec(), b"x".to_vec()];
        match CommandTable::new().dispatch_at(&mut c, b"HSCAN", &args, moment, &none) {
            Dispatched::Reply(v) => error(v),
            Dispatched::Script(call) => panic!("script: {:?}", call),
        }
    };
    assert_eq!(scan(b"\xff"), "ERR invalid cursor");
    assert_eq!(scan(b"zz"), "ERR value is not an integer");
}

#[test]
fn a_sum_that_is_no_number_is_refused() {
    let mut c = new();
    run(&mut c, &["ZADD", "z", "1.5", "m"]);
    assert_eq!(run(&mut c, &["ZINCRBY", "z", "2", "m"]), bulk("3.5"));
    assert_eq!(run(&mut c, &["ZADD", "z", "INCR", "-1", "m"]), bulk("2.5"));
    assert_eq!(run(&mut c, &["ZSCORE", "z", "m"]), bulk("2.5"));
    assert_eq!(run(&mut c, &["ZADD", "z", "GT", "INCR", "-1", "m"]), nil());
    assert_eq!(
        error(run(&mut c, &["ZINCRBY", "z", "inf", "m"])),
        "ERR increment would produce NaN or Infinity"
    );
    assert_eq!(run(&mut c, &["ZSCORE", "z", "m"]), bulk("2.5"));
}

#[test]
fn bits_are_combined() {
    let mut c = new();
    for (key, bits) in [("a", ["0", "1"]), ("b", ["1", "9000"])] {
        for bit in bits {
            run(&mut c, &["SETBIT", key, bit, "1"]);
        }
    }
    let cases = [
        (&["BITOP", "AND", "d", "a", "b"][..], [0, 1, 0]),
        (&["BITOP", "OR", "d", "a", "b"], [1, 1, 1]),
        (&["BITOP", "XOR", "d", "a", "b"], [1, 0, 1]),
        (&["BITOP", "NOT", "d", "b"], [1, 0, 0]),
    ];
    for (words, want) in cases {
        assert_eq!(run(&mut c, words), number_reply(1126));
        for (bit, value) in ["0", "1", "9000"].iter().zip(want) {
            assert_eq!(run(&mut c, &["GETBIT", "d", bit]), number_reply(value));
        }
    }
}
