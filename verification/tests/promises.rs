//! Counts, patterns, settings and other promises of commands, on concrete values.

use kvdb_rs::clock::this_moment;
use kvdb_rs::cmd::dispatch::Dispatched;
use kvdb_rs::cmd::reopen::newest_version;
use kvdb_rs::cmd::settings;
use kvdb_rs::cmd::zset::{self, Floats};
use kvdb_rs::cmd::{CommandContext, CommandTable, Moment};
use kvdb_rs::benchmark::summarize;
use kvdb_rs::cluster::ClusterState;
use kvdb_rs::glob::glob;
use kvdb_rs::protocol::{RespParser, RespSerializer, RespValue};
use kvdb_rs::server::pubsub_message;
use kvdb_rs::text::uppercase;
use kvdb_rs::Config;

/// The number that an argument writes, as its bits.
fn number(arg: &[u8]) -> Option<u64> {
    let text = std::str::from_utf8(arg).ok()?;
    let score: f64 = text.parse().ok()?;
    if score.is_nan() {
        return None;
    }
    Some(score.to_bits())
}

/// The floating point work that a command takes as given.
fn floats(ctx: &CommandContext, name: &[u8], args: &[Vec<u8>], now_ms: i64) -> Floats {
    let scores = args.iter().map(|a| number(a)).collect();
    let mut given = Floats { scores, sum: 0 };
    if let Some((a, b)) = zset::increment_addends(ctx, name, args, &given, now_ms) {
        given.sum = (f64::from_bits(a) + f64::from_bits(b)).to_bits();
    }
    given
}

/// The reply with scores as decimal text.
fn rendered(value: RespValue) -> RespValue {
    match value {
        RespValue::Score(bits) => {
            let score = f64::from_bits(bits);
            let text = if score.fract() == 0.0 && score.is_finite() {
                format!("{:.0}", score)
            } else {
                score.to_string()
            };
            RespValue::BulkString(Some(text.into_bytes()))
        }
        RespValue::Array(items) => RespValue::Array(items.into_iter().map(rendered).collect()),
        other => other,
    }
}

/// Runs a command at a time. Values that it makes get the time as version.
fn at(ctx: &mut CommandContext, now_ms: i64, words: &[&str]) -> RespValue {
    let args: Vec<Vec<u8>> = words[1..].iter().map(|w| w.as_bytes().to_vec()).collect();
    let name = words[0].as_bytes();
    let given = floats(ctx, name, &args, now_ms);
    let moment = Moment { now_ms, version: now_ms as u64 };
    match CommandTable::new().dispatch_at(ctx, name, &args, moment, &given) {
        Dispatched::Reply(v) => rendered(v),
        Dispatched::Script(call) => panic!("script: {:?}", call),
    }
}

fn run(ctx: &mut CommandContext, words: &[&str]) -> RespValue {
    at(ctx, 1000, words)
}

fn new() -> CommandContext {
    CommandContext::new(Config::default())
}

fn number_reply(n: i64) -> RespValue {
    RespValue::Integer(n)
}

fn bulk(s: &str) -> RespValue {
    RespValue::BulkString(Some(s.as_bytes().to_vec()))
}

fn nil() -> RespValue {
    RespValue::BulkString(None)
}

fn ok() -> RespValue {
    RespValue::SimpleString("OK".to_string())
}

fn list(items: &[&str]) -> RespValue {
    RespValue::Array(items.iter().map(|s| bulk(s)).collect())
}

fn error(v: RespValue) -> String {
    match v {
        RespValue::Error(e) => e,
        other => panic!("expected an error, got {:?}", other),
    }
}

#[test]
fn a_field_that_is_named_twice_counts_once() {
    let mut c = new();
    assert_eq!(run(&mut c, &["HSET", "h", "f", "1", "f", "2"]), number_reply(1));
    assert_eq!(run(&mut c, &["HLEN", "h"]), number_reply(1));
    assert_eq!(run(&mut c, &["HGET", "h", "f"]), bulk("2"));
    assert_eq!(run(&mut c, &["HSET", "h", "f", "3", "g", "4"]), number_reply(1));
    assert_eq!(run(&mut c, &["HDEL", "h", "f", "none", "f"]), number_reply(1));
    assert_eq!(run(&mut c, &["HLEN", "h"]), number_reply(1));
    assert_eq!(run(&mut c, &["HGETALL", "h"]), list(&["g", "4"]));
}

#[test]
fn a_member_that_is_named_twice_leaves_once() {
    let mut c = new();
    assert_eq!(run(&mut c, &["ZADD", "z", "1", "a", "2", "b", "3", "c"]), number_reply(3));
    assert_eq!(run(&mut c, &["ZREM", "z", "a", "a", "b", "none", "a"]), number_reply(2));
    assert_eq!(run(&mut c, &["ZCARD", "z"]), number_reply(1));
    assert_eq!(run(&mut c, &["ZRANGE", "z", "0", "-1"]), list(&["c"]));
}

#[test]
fn a_scan_shows_as_many_fields_as_it_is_asked_for() {
    let mut c = new();
    for f in ["a", "b", "c", "d", "e"] {
        run(&mut c, &["HSET", "h", f, f]);
    }
    let mut cursor = "0".to_string();
    let mut pages = Vec::new();
    loop {
        let RespValue::Array(mut parts) = run(&mut c, &["HSCAN", "h", &cursor, "COUNT", "2"]) else {
            panic!("expected an array");
        };
        pages.push(parts.remove(1));
        let RespValue::BulkString(Some(next)) = parts.remove(0) else {
            panic!("expected a cursor");
        };
        cursor = String::from_utf8(next).unwrap();
        if cursor == "0" {
            break;
        }
    }
    assert_eq!(
        pages,
        vec![list(&["a", "a", "b", "b"]), list(&["c", "c", "d", "d"]), list(&["e", "e"])]
    );
    assert_eq!(
        run(&mut c, &["HSCAN", "none", "0"]),
        RespValue::Array(vec![bulk("0"), list(&[])])
    );
}

#[test]
fn a_set_command_refuses_any_key_of_another_type() {
    let mut c = new();
    run(&mut c, &["SADD", "s", "a"]);
    run(&mut c, &["SET", "str", "v"]);
    for name in ["SDIFF", "SINTER", "SUNION"] {
        for keys in [["s", "str"], ["none", "str"], ["str", "s"]] {
            let text = error(run(&mut c, &[name, keys[0], keys[1]]));
            assert!(text.starts_with("WRONGTYPE"), "{} {:?}: {}", name, keys, text);
        }
    }
    assert_eq!(run(&mut c, &["SDIFF", "s", "none"]), list(&["a"]));
}

#[test]
fn a_page_of_no_entries_leads_nowhere() {
    let mut c = new();
    run(&mut c, &["SADD", "s", "a", "b"]);
    let (items, next) = c.storage.prefix_scan_page("subkey", b"", b"", 0).unwrap();
    assert!(items.is_empty());
    assert!(next.is_none());
    let (items, next) = c.storage.prefix_scan_page("subkey", b"", b"", 1).unwrap();
    assert_eq!(items.len(), 1);
    assert_eq!(next, Some(items[0].0.clone()));
}

#[test]
fn numbers_grow_within_every_millisecond() {
    let mut c = new();
    assert_eq!(run(&mut c, &["XADD", "s", "5-*", "f", "1"]), bulk("5-0"));
    assert_eq!(run(&mut c, &["XADD", "s", "5-*", "f", "2"]), bulk("5-1"));
    assert_eq!(run(&mut c, &["XADD", "s", "3-*", "f", "3"]), bulk("3-0"));
    assert_eq!(run(&mut c, &["XADD", "s", "3-*", "f", "4"]), bulk("3-1"));
    assert_eq!(run(&mut c, &["XADD", "s", "5-*", "f", "5"]), bulk("5-2"));
    assert_eq!(run(&mut c, &["XADD", "s", "3-*", "f", "6"]), bulk("3-2"));
    assert_eq!(run(&mut c, &["XLEN", "s"]), number_reply(6));
    let RespValue::Array(all) = run(&mut c, &["XRANGE", "s", "-", "+"]) else {
        panic!("expected entries");
    };
    assert_eq!(all.len(), 6);
    assert_eq!(run(&mut c, &["XADD", "t", "*", "f", "1"]), bulk("1000-0"));
    assert_eq!(run(&mut c, &["XADD", "t", "*", "f", "1"]), bulk("1000-1"));
    assert_eq!(at(&mut c, 999, &["XADD", "t", "*", "f", "1"]), bulk("999-0"));
    assert_eq!(run(&mut c, &["XADD", "t", "*", "f", "1"]), bulk("1000-2"));
    assert_eq!(run(&mut c, &["XADD", "u", "0-*", "f", "1"]), bulk("0-1"));
}

#[test]
fn a_read_takes_at_most_so_many_entries_of_each_stream() {
    let mut c = new();
    for id in ["1-0", "2-0", "3-0"] {
        run(&mut c, &["XADD", "s", id, "f", id]);
        run(&mut c, &["XADD", "t", id, "g", id]);
    }
    let entry = |f: &str, id: &str| RespValue::Array(vec![bulk(id), list(&[f, id])]);
    assert_eq!(
        run(&mut c, &["XREAD", "COUNT", "2", "STREAMS", "s", "t", "0-0", "2-0"]),
        RespValue::Array(vec![
            RespValue::Array(vec![
                bulk("s"),
                RespValue::Array(vec![entry("f", "1-0"), entry("f", "2-0")])
            ]),
            RespValue::Array(vec![bulk("t"), RespValue::Array(vec![entry("g", "3-0")])]),
        ])
    );
    assert_eq!(
        run(&mut c, &["XREAD", "count", "0", "STREAMS", "s", "0-0"]),
        RespValue::Array(vec![])
    );
    assert_eq!(
        error(run(&mut c, &["XREAD", "COUNT", "x", "STREAMS", "s", "0-0"])),
        "ERR value is not an integer"
    );
    assert_eq!(
        error(run(&mut c, &["XREAD", "COUNT", "1", "STREAMS", "s"])),
        "ERR wrong number of arguments for 'XREAD' command"
    );
    assert_eq!(
        error(run(&mut c, &["XREAD", "BLOCK", "1", "STREAMS", "s", "0-0"])),
        "ERR syntax error"
    );
}

#[test]
fn a_set_gives_members_away() {
    let mut c = new();
    run(&mut c, &["SADD", "s", "a", "b", "c", "d"]);
    // The moment's version is 1000, which leads to the first of four members.
    assert_eq!(run(&mut c, &["SPOP", "s"]), bulk("a"));
    assert_eq!(run(&mut c, &["SCARD", "s"]), number_reply(3));
    // Of three members it leads to the second.
    assert_eq!(run(&mut c, &["SPOP", "s", "2"]), list(&["c", "d"]));
    assert_eq!(run(&mut c, &["SMEMBERS", "s"]), list(&["b"]));
    assert_eq!(run(&mut c, &["SPOP", "s", "0"]), list(&[]));
    assert_eq!(run(&mut c, &["SPOP", "s", "9"]), list(&["b"]));
    assert_eq!(run(&mut c, &["SPOP", "s"]), nil());
    assert_eq!(run(&mut c, &["SPOP", "s", "1"]), list(&[]));
    assert_eq!(run(&mut c, &["SPOP", "none"]), nil());
    assert_eq!(run(&mut c, &["SCARD", "s"]), number_reply(0));
    assert_eq!(
        error(run(&mut c, &["SPOP", "s", "-1"])),
        "ERR value is not an integer"
    );
    run(&mut c, &["SET", "str", "v"]);
    assert!(error(run(&mut c, &["SPOP", "str"])).starts_with("WRONGTYPE"));
    assert_eq!(
        error(run(&mut c, &["SPOP"])),
        "ERR wrong number of arguments for 'SPOP' command"
    );
}

#[test]
fn all_namespaces_are_flushed() {
    let mut c = new();
    run(&mut c, &["SET", "a", "1"]);
    c.namespace = b"other".to_vec();
    run(&mut c, &["ZADD", "z", "1", "m"]);
    run(&mut c, &["SADD", "s", "m"]);
    assert_eq!(run(&mut c, &["DBSIZE"]), number_reply(2));
    assert_eq!(run(&mut c, &["FLUSHALL"]), ok());
    assert_eq!(run(&mut c, &["DBSIZE"]), number_reply(0));
    c.namespace = Vec::new();
    assert_eq!(run(&mut c, &["DBSIZE"]), number_reply(0));
    for cf in ["metadata", "subkey", "zset_score"] {
        assert!(c.storage.full_scan(cf).unwrap().is_empty());
    }
}

#[test]
fn settings_are_shown_and_changed() {
    let mut c = new();
    assert_eq!(
        run(&mut c, &["CONFIG", "GET", "maxclients"]),
        list(&["maxclients", "10000"])
    );
    assert_eq!(
        run(&mut c, &["CONFIG", "GET", "*compression_type"]),
        list(&["compression_type", "lz4", "bottommost_compression_type", "zstd"])
    );
    assert_eq!(run(&mut c, &["CONFIG", "GET", "none"]), list(&[]));
    let RespValue::Array(all) = run(&mut c, &["CONFIG", "GET", "*"]) else {
        panic!("expected settings");
    };
    assert_eq!(all.len(), 56);
    assert_eq!(all[0], bulk("bind"));
    assert_eq!(all[1], bulk("127.0.0.1:6379"));

    const MEM: u64 = 8 << 30;
    let mut set = |name: &str, value: &str| {
        settings::set_within(&mut c, name.as_bytes(), value.as_bytes(), MEM)
            .map_err(|e| e.message())
    };
    assert_eq!(set("maxclients", "77"), Ok(ok()));
    assert_eq!(set("use_fsync", "TRUE"), Ok(ok()));
    assert_eq!(set("unix_socket", "/tmp/s"), Ok(ok()));
    assert_eq!(set("worker_threads", "3"), Ok(ok()));
    assert_eq!(set("compression_type", "none"), Ok(ok()));
    assert_eq!(set("max_open_files", "-5"), Ok(ok()));
    assert_eq!(set("log_level", "debug"), Ok(ok()));
    assert!(set("maxclients", "many").is_err());
    assert!(set("maxclients", "0").unwrap_err().contains("maxclients must be > 0"));
    assert!(set("max_open_files", "4294967296").is_err());
    assert!(set("compression_type", "zip").is_err());
    assert!(set("nothing", "1").unwrap_err().contains("unknown setting"));
    for (name, value) in [
        ("maxclients", "77"),
        ("use_fsync", "true"),
        ("unix_socket", "/tmp/s"),
        ("worker_threads", "3"),
        ("compression_type", "none"),
        ("max_open_files", "-5"),
        ("log_level", "debug"),
        ("bind", "127.0.0.1:6379"),
    ] {
        assert_eq!(run(&mut c, &["CONFIG", "GET", name]), list(&[name, value]));
    }
    assert_eq!(
        error(run(&mut c, &["CONFIG"])),
        "ERR wrong number of arguments for 'CONFIG' command"
    );
    assert_eq!(error(run(&mut c, &["CONFIG", "RESET"])), "ERR syntax error");
    assert_eq!(
        error(run(&mut c, &["CONFIG", "SET", "maxclients", "0"])),
        "ERR config error: maxclients must be > 0"
    );
}

#[test]
fn patterns_stand_for_texts() {
    for (p, t, want) in [
        ("", "", true),
        ("", "a", false),
        ("*", "", true),
        ("*", "anything", true),
        ("news.*", "news.art", true),
        ("news.*", "new", false),
        ("h?llo", "hello", true),
        ("h?llo", "hllo", false),
        ("h[ae]llo", "hallo", true),
        ("h[ae]llo", "hillo", false),
        ("h[^e]llo", "hallo", true),
        ("h[^e]llo", "hello", false),
        ("h[a-c]llo", "hbllo", true),
        ("h[c-a]llo", "hbllo", true),
        ("h[a-c]llo", "hdllo", false),
        ("h\\*llo", "h*llo", true),
        ("h\\*llo", "hxllo", false),
        ("*a*b*c", "xxaxxbxxc", true),
        ("*a*b*c", "xxaxxbxx", false),
        ("[a", "a", true),
        ("[\\]]", "]", true),
    ] {
        assert_eq!(glob(p.as_bytes(), t.as_bytes()), want, "{} {}", p, t);
    }
    let stars = "*a".repeat(30) + "b";
    assert!(!glob(stars.as_bytes(), "a".repeat(200).as_bytes()));
}

#[test]
fn patterns_bring_messages() {
    let mut c = new();
    let confirmed = |kind: &str, name: &str, n: i64| {
        RespValue::Array(vec![bulk(kind), bulk(name), number_reply(n)])
    };
    c.client_id = 1;
    assert_eq!(
        run(&mut c, &["SUBSCRIBE", "news.art"]),
        RespValue::Array(vec![confirmed("subscribe", "news.art", 1)])
    );
    assert_eq!(
        run(&mut c, &["PSUBSCRIBE", "news.*", "n?ws*", "news.*"]),
        RespValue::Array(vec![
            confirmed("psubscribe", "news.*", 3),
            confirmed("psubscribe", "n?ws*", 3)
        ])
    );
    c.client_id = 2;
    run(&mut c, &["PSUBSCRIBE", "*.art"]);
    assert_eq!(run(&mut c, &["PUBLISH", "news.art", "hi"]), number_reply(4));
    let sent = c.pubsub.take_outbox();
    let told: Vec<(u64, RespValue)> =
        sent.iter().map(|d| (d.client, pubsub_message(&d.event))).collect();
    let by = |p: &str| list(&["pmessage", p, "news.art", "hi"]);
    assert_eq!(
        told,
        vec![
            (1, list(&["message", "news.art", "hi"])),
            (1, by("news.*")),
            (1, by("n?ws*")),
            (2, by("*.art"))
        ]
    );
    assert_eq!(run(&mut c, &["PUBLISH", "other", "hi"]), number_reply(0));
    c.client_id = 1;
    assert_eq!(
        run(&mut c, &["PUNSUBSCRIBE", "news.*", "none"]),
        RespValue::Array(vec![confirmed("punsubscribe", "news.*", 2)])
    );
    assert_eq!(run(&mut c, &["PUBLISH", "news.art", "hi"]), number_reply(3));
    assert_eq!(
        run(&mut c, &["PUNSUBSCRIBE"]),
        RespValue::Array(vec![confirmed("punsubscribe", "n?ws*", 1)])
    );
    assert_eq!(c.pubsub.pattern_count(1), 0);
    assert_eq!(c.pubsub.pattern_count(2), 1);
    c.pubsub.close(2);
    assert_eq!(run(&mut c, &["PUBLISH", "news.art", "hi"]), number_reply(1));
    assert_eq!(c.pubsub.pattern_count(2), 0);
    assert_eq!(
        error(run(&mut c, &["PSUBSCRIBE"])),
        "ERR wrong number of arguments for 'PSUBSCRIBE' command"
    );
}

#[test]
fn settings_come_in_layers() {
    const MEM: u64 = 8 << 30;
    let given = vec![
        (b"timeout".to_vec(), b"9".to_vec()),
        (b"db_path".to_vec(), b"/data".to_vec()),
    ];
    let mut file = Config::default();
    file.server.timeout = 5;
    file.server.maxclients = 33;
    let m = settings::load_within(Some(("kvdb.toml".to_string(), file)), &given, MEM).unwrap();
    let c = m.get();
    assert_eq!(c.server.timeout, 9);
    assert_eq!(c.server.maxclients, 33);
    assert_eq!(c.storage.db_path, "/data");
    assert_eq!(c.config_file.as_deref(), Some("kvdb.toml"));
    assert_eq!(c.server.bind, "127.0.0.1:6379");
    assert_eq!(settings::load_within(None, &Vec::new(), MEM).unwrap().get().server.timeout, 0);
    let wrong = vec![(b"timeout".to_vec(), b"soon".to_vec())];
    assert!(settings::load_within(None, &wrong, MEM).is_err());
    let unknown = vec![(b"colour".to_vec(), b"red".to_vec())];
    assert!(settings::load_within(None, &unknown, MEM).is_err());
    let invalid = vec![(b"maxclients".to_vec(), b"0".to_vec())];
    assert!(settings::load_within(None, &invalid, MEM).is_err());
    let names: Vec<&str> =
        (0..settings::SETTINGS).map(|i| settings::name_text(settings::setting(i))).collect();
    assert_eq!(names[0], "bind");
    assert_eq!(names[27], "dynamic_config");
}

#[test]
fn a_number_counts_every_call() {
    let mut c = new();
    run(&mut c, &["SET", "n", "40"]);
    for i in 1..=100 {
        assert_eq!(run(&mut c, &["INCR", "n"]), number_reply(40 + i));
    }
    assert_eq!(run(&mut c, &["GET", "n"]), bulk("140"));
}

#[test]
fn bits_behind_the_longest_source_are_zero() {
    let mut c = new();
    run(&mut c, &["SETBIT", "a", "3", "1"]);
    run(&mut c, &["SETBIT", "b", "13", "1"]);
    assert_eq!(run(&mut c, &["BITOP", "NOT", "d", "a"]), number_reply(1));
    assert_eq!(run(&mut c, &["GETBIT", "d", "3"]), number_reply(0));
    assert_eq!(run(&mut c, &["GETBIT", "d", "7"]), number_reply(1));
    assert_eq!(run(&mut c, &["GETBIT", "d", "8"]), number_reply(0));
    assert_eq!(run(&mut c, &["GETBIT", "d", "100000"]), number_reply(0));
    assert_eq!(at(&mut c, 2000, &["BITOP", "OR", "d", "a", "b"]), number_reply(2));
    assert_eq!(run(&mut c, &["GETBIT", "d", "13"]), number_reply(1));
    assert_eq!(run(&mut c, &["GETBIT", "a", "3"]), number_reply(1));
    assert_eq!(run(&mut c, &["GETBIT", "b", "13"]), number_reply(1));
    assert_eq!(run(&mut c, &["GETBIT", "a", "13"]), number_reply(0));
}

#[test]
fn commands_are_read_one_after_the_other_and_only_when_they_are_whole() {
    let lines = [vec!["SET", "k", "v"], vec!["GET", "k"], vec!["PING"]];
    let mut buf = Vec::new();
    for l in &lines {
        RespSerializer::serialize_into(&list(l), &mut buf);
    }
    let mut from = 0;
    for l in &lines {
        let (args, n) = RespParser::parse_cmd(&buf[from..]).unwrap();
        let want: Vec<Vec<u8>> = l.iter().map(|w| w.as_bytes().to_vec()).collect();
        assert_eq!(args, want);
        for k in 0..n {
            assert!(RespParser::parse_cmd(&buf[from..from + k]).is_none());
        }
        from += n;
    }
    assert_eq!(from, buf.len());
}

#[test]
fn ranges_of_slots_are_as_long_as_they_can_be() {
    let mut s = ClusterState::new();
    for (slot, node) in [(5, "a"), (1, "a"), (2, "a"), (3, "b"), (4, "b"), (7, "a")] {
        s.assign_slot(slot, node.to_string());
    }
    let ranges: Vec<(u16, u16, String)> = s.slots_ranges();
    assert_eq!(
        ranges,
        vec![
            (1, 2, "a".to_string()),
            (3, 4, "b".to_string()),
            (5, 5, "a".to_string()),
            (7, 7, "a".to_string())
        ]
    );
}

#[test]
fn measurements_are_put_together() {
    let (sorted, errors) = summarize(vec![5, 1, 4, 1, 9], &vec![2, 0, 3]);
    assert_eq!(sorted, vec![1, 1, 4, 5, 9]);
    assert_eq!(errors, 5);
    let (sorted, errors) = summarize(Vec::new(), &vec![u64::MAX, u64::MAX]);
    assert!(sorted.is_empty());
    assert_eq!(errors, 2 * u64::MAX as u128);
}

#[test]
fn letters_are_raised() {
    assert_eq!(uppercase("gEt-1 {z}"), "GET-1 {Z}");
    assert_eq!(uppercase("h\u{e9}llo \u{4e16}\u{754c} \u{1f600}"), "H\u{e9}LLO \u{4e16}\u{754c} \u{1f600}");
    assert_eq!(uppercase(""), "");
}

#[test]
fn a_value_that_is_made_anew_shows_nothing_of_the_one_before() {
    let mut c = new();
    at(&mut c, 10, &["RPUSH", "k", "a", "b"]);
    assert_eq!(at(&mut c, 11, &["DEL", "k"]), number_reply(1));
    assert_eq!(at(&mut c, 12, &["RPUSH", "k", "c"]), number_reply(1));
    assert_eq!(at(&mut c, 13, &["LRANGE", "k", "0", "-1"]), list(&["c"]));
    assert_eq!(at(&mut c, 14, &["DEL", "k"]), number_reply(1));
    at(&mut c, 15, &["HSET", "k", "f", "1", "g", "2"]);
    at(&mut c, 16, &["DEL", "k"]);
    assert_eq!(at(&mut c, 17, &["HSET", "k", "g", "3"]), number_reply(1));
    assert_eq!(at(&mut c, 18, &["HGETALL", "k"]), list(&["g", "3"]));
    assert_eq!(at(&mut c, 19, &["HGET", "k", "f"]), nil());
    at(&mut c, 20, &["DEL", "k"]);
    at(&mut c, 21, &["SADD", "k", "x", "y"]);
    at(&mut c, 22, &["DEL", "k"]);
    assert_eq!(at(&mut c, 23, &["SADD", "k", "y"]), number_reply(1));
    assert_eq!(at(&mut c, 24, &["SMEMBERS", "k"]), list(&["y"]));
    at(&mut c, 25, &["DEL", "k"]);
    at(&mut c, 26, &["ZADD", "k", "1", "x", "2", "y"]);
    at(&mut c, 27, &["DEL", "k"]);
    assert_eq!(at(&mut c, 28, &["ZADD", "k", "5", "y"]), number_reply(1));
    assert_eq!(at(&mut c, 29, &["ZRANGE", "k", "0", "-1", "WITHSCORES"]), list(&["y", "5"]));
    assert_eq!(at(&mut c, 30, &["ZSCORE", "k", "x"]), nil());
    at(&mut c, 31, &["DEL", "k"]);
    at(&mut c, 32, &["SETBIT", "k", "3", "1"]);
    at(&mut c, 33, &["DEL", "k"]);
    assert_eq!(at(&mut c, 34, &["SETBIT", "k", "9", "1"]), number_reply(0));
    assert_eq!(at(&mut c, 35, &["GETBIT", "k", "3"]), number_reply(0));
    assert_eq!(at(&mut c, 36, &["BITCOUNT", "k"]), number_reply(1));
    at(&mut c, 37, &["SETBIT", "other", "1", "1"]);
    assert_eq!(at(&mut c, 38, &["BITOP", "OR", "k", "other"]), number_reply(1));
    assert_eq!(at(&mut c, 39, &["GETBIT", "k", "1"]), number_reply(1));
    assert_eq!(at(&mut c, 40, &["GETBIT", "k", "9"]), number_reply(0));
    at(&mut c, 41, &["DEL", "k"]);
    at(&mut c, 42, &["XADD", "k", "1-1", "f", "v"]);
    at(&mut c, 43, &["DEL", "k"]);
    at(&mut c, 44, &["XADD", "k", "2-1", "f", "w"]);
    assert_eq!(at(&mut c, 45, &["XLEN", "k"]), number_reply(1));
    let RespValue::Array(entries) = at(&mut c, 46, &["XRANGE", "k", "-", "+"]) else {
        panic!("expected an array");
    };
    assert_eq!(entries, vec![RespValue::Array(vec![bulk("2-1"), list(&["f", "w"])])]);
}

#[test]
fn a_value_that_ran_out_is_made_anew() {
    let mut c = new();
    at(&mut c, 1000, &["RPUSH", "k", "a", "b"]);
    at(&mut c, 1001, &["EXPIRE", "k", "1"]);
    assert_eq!(at(&mut c, 1500, &["LLEN", "k"]), number_reply(2));
    assert_eq!(at(&mut c, 5000, &["LLEN", "k"]), number_reply(0));
    assert_eq!(at(&mut c, 5001, &["LPUSH", "k", "c"]), number_reply(1));
    assert_eq!(at(&mut c, 5002, &["LRANGE", "k", "0", "-1"]), list(&["c"]));
    assert_eq!(at(&mut c, 5003, &["TTL", "k"]), number_reply(-1));
}

#[test]
fn a_string_takes_the_place_of_any_value() {
    let mut c = new();
    at(&mut c, 1, &["ZADD", "z", "1", "a"]);
    at(&mut c, 2, &["HSET", "h", "f", "v"]);
    assert_eq!(at(&mut c, 3, &["MSET", "z", "1", "h", "2", "z", "3"]), ok());
    assert_eq!(at(&mut c, 4, &["GET", "z"]), bulk("3"));
    assert_eq!(at(&mut c, 5, &["GET", "h"]), bulk("2"));
    at(&mut c, 6, &["DEL", "z", "h"]);
    assert_eq!(at(&mut c, 7, &["ZADD", "z", "2", "b"]), number_reply(1));
    assert_eq!(at(&mut c, 8, &["ZCARD", "z"]), number_reply(1));
}

#[test]
fn ranks_count_the_members_on_both_sides() {
    let mut c = new();
    run(&mut c, &["ZADD", "z", "2", "b", "1", "c", "2", "a", "-1", "d", "1.5", "e"]);
    let order = ["d", "c", "e", "a", "b"];
    assert_eq!(run(&mut c, &["ZRANGE", "z", "0", "-1"]), list(&order));
    assert_eq!(run(&mut c, &["ZCARD", "z"]), number_reply(5));
    for (i, m) in order.iter().enumerate() {
        assert_eq!(run(&mut c, &["ZRANK", "z", m]), number_reply(i as i64));
        assert_eq!(run(&mut c, &["ZREVRANK", "z", m]), number_reply(4 - i as i64));
    }
    assert_eq!(run(&mut c, &["ZRANK", "z", "none"]), nil());
    assert_eq!(run(&mut c, &["ZREVRANK", "z", "none"]), nil());
    assert_eq!(run(&mut c, &["ZRANK", "none", "a"]), nil());
    assert_eq!(run(&mut c, &["ZREVRANK", "none", "a"]), nil());
}

#[test]
fn a_value_is_read_from_its_own_bytes() {
    for data in ["*2\r\n$3\r\nGET\r\n$1\r\nk\r\n+rest\r\n", ":5\r\n:6\r\n", "%1\r\n+a\r\n:1\r\nxyz"] {
        let data = data.as_bytes();
        let (v, n) = RespParser::parse_one(data).unwrap();
        assert!(0 < n && n < data.len());
        let read = Some((v, n));
        assert_eq!(RespParser::parse_one(&data[..n]), read);
        let mut other = data[..n].to_vec();
        other.extend_from_slice(b"$-1\r\n\r\n");
        assert_eq!(RespParser::parse_one(&other), read);
        assert_eq!(RespParser::parse_one(&data[..n - 1]), None);
    }
}

#[test]
fn a_long_key_is_read_back() {
    let mut c = new();
    let key = "k".repeat(17 << 20);
    assert_eq!(run(&mut c, &["SET", &key, "v"]), ok());
    assert_eq!(run(&mut c, &["GET", &key]), bulk("v"));
    c.namespace = b"space".to_vec();
    assert_eq!(run(&mut c, &["SET", &key, "w"]), ok());
    assert_eq!(run(&mut c, &["GET", &key]), bulk("w"));
    c.namespace = Vec::new();
    assert_eq!(run(&mut c, &["GET", &key]), bulk("v"));
}

#[test]
fn versions_go_on_behind_those_in_a_store() {
    let mut c = new();
    assert_eq!(newest_version(&c.storage), 0);
    at(&mut c, 70, &["SET", "s", "a string has no version"]);
    assert_eq!(newest_version(&c.storage), 0);
    at(&mut c, 30, &["HSET", "h", "f", "1"]);
    at(&mut c, 20, &["ZADD", "z", "1", "m"]);
    assert_eq!(newest_version(&c.storage), 30);
    c.namespace = b"space".to_vec();
    at(&mut c, 40, &["RPUSH", "l", "x"]);
    assert_eq!(newest_version(&c.storage), 40);
    at(&mut c, 41, &["DEL", "l"]);
    assert_eq!(newest_version(&c.storage), 40);
    c.namespace = Vec::new();
    at(&mut c, 50, &["FLUSHDB"]);
    assert_eq!(newest_version(&c.storage), 0);
    let version = u64::MAX / 2;
    let moment = Moment { now_ms: 60, version };
    let given = Floats { scores: vec![None, None], sum: 0 };
    let args = vec![b"k".to_vec(), b"x".to_vec()];
    CommandTable::new().dispatch_at(&mut c, b"SADD", &args, moment, &given);
    let mut again = CommandContext::reopened(Config::default(), c.storage);
    assert_eq!(again.versions.last(), version);
    assert_eq!(run(&mut again, &["SMEMBERS", "k"]), list(&["x"]));
    assert_eq!(this_moment(&mut again.versions).unwrap().version, version + 1);
}
