//! The parts of a server around its data.

use kvdb_rs::benchmark::{
    build_command, build_key, build_request, build_value, pick_command, random_command,
    BenchmarkCommand, BenchmarkConfig, BenchmarkMode,
};
use kvdb_rs::clock::{generate_version, this_moment, Versions};
use kvdb_rs::cluster::{ClusterNode, ClusterNodeRole, ClusterState};
use kvdb_rs::cmd::CommandContext;
use kvdb_rs::config::{Config, ConfigManager};
use kvdb_rs::http_server::{health, metrics, put_config, put_config_within, stats};
use kvdb_rs::lua::{
    command_from_lua, lua_value_from_resp, resp_value_from_lua, sha1_hex, LuaEngine, LuaValue,
};
use kvdb_rs::protocol::RespValue;
use kvdb_rs::pubsub::PubSubHub;
use kvdb_rs::replication::{ReplicationRole, ReplicationState};
use kvdb_rs::server::{Action, TransactionState, MAX_ARG_BYTES};
use kvdb_rs::storage::shard_index;
use kvdb_rs::KvdbError;
use std::str::FromStr;

const GIB: u64 = 1024 * 1024 * 1024;

#[test]
fn slots_follow_the_checksum() {
    assert_eq!(ClusterState::key_slot(b"123456789"), 12739);
    assert_eq!(ClusterState::key_slot(b""), 0);
    assert_eq!(ClusterState::key_slot(b"{user}:1"), ClusterState::key_slot(b"user"));
    assert_eq!(ClusterState::key_slot(b"{user"), ClusterState::key_slot(b"{user"));
    assert_ne!(ClusterState::key_slot(b"{}a"), ClusterState::key_slot(b"{}b"));
}

fn node(id: &str) -> ClusterNode {
    ClusterNode {
        id: id.to_string(),
        addr: format!("10.0.0.{}:6379", id),
        role: ClusterNodeRole::Master,
    }
}

#[test]
fn ranges_cover_the_slots() {
    let mut c = ClusterState::new();
    assert_eq!(c.slots_ranges().len(), 1);
    c.add_node(node("1"));
    c.add_node(node("2"));
    for slot in 0..3u16 {
        c.assign_slot(slot, "1".to_string());
    }
    c.assign_slot(7, "2".to_string());
    c.assign_slot(2, "2".to_string());
    assert_eq!(c.slot_node(1), Some("1".to_string()));
    assert_eq!(c.slot_node(2), Some("2".to_string()));
    assert_eq!(c.slot_node(5), None);
    let ranges = c.slots_ranges();
    assert_eq!(
        ranges,
        vec![
            (0, 1, "1".to_string()),
            (2, 2, "2".to_string()),
            (7, 7, "2".to_string()),
        ]
    );
    let mut ids: Vec<String> = c.nodes().into_iter().map(|n| n.id).collect();
    ids.sort();
    assert_eq!(ids, vec!["1".to_string(), "2".to_string()]);
    assert_eq!(ClusterNodeRole::Replica.role_str(), "replica");
}

#[test]
fn replication_keeps_its_figures() {
    let mut r = ReplicationState::new();
    assert!(r.is_master());
    r.set_replica("h".to_string(), 7);
    assert!(!r.is_master());
    match r.role() {
        ReplicationRole::Replica { host, port } => assert_eq!((host.as_str(), port), ("h", 7)),
        ReplicationRole::Master => panic!("expected a replica"),
    }
    r.set_master();
    assert!(r.is_master());
    r.set_master_replid("abc".to_string());
    r.set_master_repl_offset(9);
    r.add_local_offset(4);
    r.add_local_offset(5);
    assert_eq!(r.master_replid(), "abc");
    assert_eq!(r.master_repl_offset(), 9);
    assert_eq!(r.local_offset(), 9);
}

#[test]
fn messages_go_to_listeners_that_still_listen() {
    let mut hub = PubSubHub::new();
    let a = hub.alloc_client_id();
    let b = hub.alloc_client_id();
    assert_ne!(a, b);
    let news = || vec!["news".to_string()];
    assert_eq!(hub.subscribe(a, news()), news());
    assert_eq!(hub.subscribe(a, news()), Vec::<String>::new());
    hub.subscribe(b, news());
    assert_eq!(hub.publish("news", &b"1".to_vec()), 2);
    assert_eq!(hub.publish("other", &b"1".to_vec()), 0);
    let sent: Vec<u64> = hub.take_outbox().into_iter().map(|d| d.client).collect();
    assert_eq!(sent, vec![a, b]);
    hub.close(a);
    assert_eq!(hub.publish("news", &b"2".to_vec()), 1);
    assert_eq!(hub.subscription_count(a), 0);
    assert_eq!(hub.unsubscribe_all(b), news());
    assert_eq!(hub.subscription_count(b), 0);
    assert_eq!(hub.publish("news", &b"3".to_vec()), 0);
}

#[test]
fn scripts_are_found_by_their_checksums() {
    let mut lua = LuaEngine::new();
    let name = sha1_hex("return 1");
    assert_eq!(name, "e0e1f9fabfc9d4800c877a703b823ac0578ff8db");
    let missing = lua.evalsha(&name, Vec::new(), Vec::new()).unwrap_err();
    assert_eq!(missing.message(), "NOSCRIPT No matching script. Please use EVAL.");
    let first = lua.eval("return 1", vec!["k".to_string()], Vec::new());
    assert_eq!(first.script, "return 1");
    assert_eq!(first.keys, vec!["k".to_string()]);
    let call = lua.evalsha(&name, Vec::new(), vec!["a".to_string()]).unwrap();
    assert_eq!(call.script, "return 1");
    assert_eq!(call.args, vec!["a".to_string()]);
}

#[test]
fn values_pass_between_commands_and_scripts() {
    let list = RespValue::Array(vec![
        RespValue::Integer(5),
        RespValue::BulkString(Some(b"x".to_vec())),
    ]);
    let table = lua_value_from_resp(&list);
    match &table {
        LuaValue::Table(pairs) => assert_eq!(pairs.len(), 2),
        other => panic!("expected a table, got {:?}", other),
    }
    assert_eq!(resp_value_from_lua(&table), list);
    assert_eq!(resp_value_from_lua(&LuaValue::Nil), RespValue::Null);
    assert_eq!(resp_value_from_lua(&LuaValue::Other), RespValue::Null);
    assert_eq!(resp_value_from_lua(&LuaValue::Boolean(true)), RespValue::Boolean(true));
    assert_eq!(
        resp_value_from_lua(&LuaValue::Number(b"1.5".to_vec())),
        RespValue::Double(b"1.5".to_vec())
    );
    let holes = LuaValue::Table(vec![(LuaValue::Integer(3), LuaValue::Integer(9))]);
    assert_eq!(
        resp_value_from_lua(&holes),
        RespValue::Array(vec![RespValue::Null, RespValue::Null, RespValue::Integer(9)])
    );
    let named = LuaValue::Table(vec![(LuaValue::Text(b"a".to_vec()), LuaValue::Integer(1))]);
    assert_eq!(
        resp_value_from_lua(&named),
        RespValue::MapReply(vec![(
            RespValue::BulkString(Some(b"a".to_vec())),
            RespValue::Integer(1)
        )])
    );
    assert_eq!(
        resp_value_from_lua(&LuaValue::Text(b"a\xff".to_vec())),
        RespValue::BulkString(Some("a\u{fffd}".as_bytes().to_vec()))
    );
}

#[test]
fn scripts_name_the_commands_they_call() {
    let params = vec![
        LuaValue::Text(b"SET".to_vec()),
        LuaValue::Integer(-3),
        LuaValue::Number(b"1.5".to_vec()),
        LuaValue::Nil,
    ];
    let (name, args) = command_from_lua(&params, "").unwrap();
    assert_eq!(name, b"SET".to_vec());
    assert_eq!(args, vec![b"-3".to_vec(), b"1.5".to_vec(), Vec::new()]);
    let none = command_from_lua(&Vec::new(), "").unwrap_err();
    assert_eq!(none.message(), "wrong number of arguments for 'redis' command");
    let odd = command_from_lua(&vec![LuaValue::Nil], "Nil").unwrap_err();
    assert_eq!(odd.message(), "Lua redis() command argument must be a string, got Nil");
}

fn fault(c: &Config, total_mem: u64) -> String {
    c.validate_within(total_mem).unwrap_err().message()
}

#[test]
fn faulty_configurations_are_refused() {
    let good = Config::default();
    assert!(good.validate_within(64 * GIB).is_ok());
    let mut c = good.copy();
    c.storage.write_buffer_size = 0;
    assert_eq!(fault(&c, 64 * GIB), "config error: write_buffer_size must be > 0");
    let mut c = good.copy();
    c.storage.max_write_buffer_number = 0;
    assert_eq!(fault(&c, 64 * GIB), "config error: max_write_buffer_number must be > 0");
    let mut c = good.copy();
    c.server.maxclients = 0;
    assert_eq!(fault(&c, 64 * GIB), "config error: maxclients must be > 0");
    let mut c = good.copy();
    c.server.namespace = "n".repeat(256);
    assert_eq!(fault(&c, 64 * GIB), "config error: namespace must be at most 255 bytes");
    c.server.namespace = "n".repeat(255);
    assert!(c.validate_within(64 * GIB).is_ok());
    let mut c = good.copy();
    c.storage.block_cache_size = 100;
    c.storage.write_buffer_size = 10;
    c.storage.max_write_buffer_number = 2;
    assert!(c.validate_within(240).is_ok());
    assert_eq!(
        fault(&c, 239),
        "config error: memory budget 120 exceeds 50% of physical memory 239"
    );
}

#[test]
fn configurations_are_fitted_and_replaced() {
    let mut c = Config::default();
    let large = c.storage.block_cache_size;
    c.adjust_to(16 * GIB);
    assert_eq!(c.storage.block_cache_size, large);
    c.adjust_to(4 * GIB);
    assert_eq!(c.storage.block_cache_size, 256 * 1024 * 1024);

    let mut file = Config::default();
    file.log_level = "debug".to_string();
    let mut m = ConfigManager::load_within(Some(("kvdb.toml".to_string(), file)), 64 * GIB).unwrap();
    assert_eq!(m.get().log_level, "debug");
    assert_eq!(m.get().config_file, Some("kvdb.toml".to_string()));

    let mut bad = m.get();
    bad.server.maxclients = -1;
    assert!(m.update_within(bad, 64 * GIB).is_err());
    assert_eq!(m.get().server.maxclients, 10000);
    let mut good = m.get();
    good.server.maxclients = 5;
    assert!(m.update_within(good, 64 * GIB).is_ok());
    assert_eq!(m.get().server.maxclients, 5);
}

#[test]
fn this_machine_has_memory() {
    let mut c = Config::default();
    c.storage.block_cache_size = 1;
    c.storage.write_buffer_size = 1;
    c.storage.max_write_buffer_number = 1;
    assert!(c.validate().is_ok());
    c.adjust_for_memory();
    assert_eq!(c.storage.block_cache_size, 1);
    c.storage.block_cache_size = u64::MAX;
    c.storage.write_buffer_size = u64::MAX;
    assert!(c.validate().is_err());
}

#[test]
fn management_replies() {
    assert_eq!((health(true).status, health(true).body), (200, "OK\n".to_string()));
    assert_eq!((health(false).status, health(false).body), (503, "Unavailable\n".to_string()));
    assert_eq!(stats(Ok(Some("s".to_string()))).body, "s");
    assert_eq!(stats(Ok(None)).body, "rocksdb.stats not available");
    assert_eq!(stats(Err(KvdbError::Oom)).body, "rocksdb.stats not available");
    let mut c = Config::default();
    c.storage.db_path = "./data".to_string();
    let text = metrics(&c).body;
    assert!(text.contains("kvdb_up 1\n"));
    assert!(text.contains("kvdb_maxclients 10000\n"));
    assert!(text.ends_with("kvdb_db_path{path=\"./data\"} 1\n"));

    let mut m = ConfigManager::new(Config::default());
    let mut bad = Config::default();
    bad.server.maxclients = 0;
    let r = put_config_within(&mut m, bad.copy(), 64 * GIB);
    assert_eq!((r.status, r.body.as_str()), (400, "config error: maxclients must be > 0\n"));
    assert_eq!(m.get().server.maxclients, 10000);
    let mut good = Config::default();
    good.server.maxclients = 3;
    assert_eq!(put_config_within(&mut m, good, 64 * GIB).status, 200);
    assert_eq!(m.get().server.maxclients, 3);
    bad.storage.write_buffer_size = 0;
    assert_eq!(put_config(&mut m, bad).status, 400);
}

#[test]
fn benchmark_commands_are_built() {
    assert_eq!(build_key(3, 41, 10), b"key3:41xxx".to_vec());
    assert_eq!(build_key(3, 41, 2), b"key3:41".to_vec());
    assert_eq!(build_value(4, 7), b"vvvv".to_vec());
    assert_eq!(build_value(10, 0x0807060504030201), b"vv\x01\x02\x03\x04\x05\x06\x07\x08".to_vec());
    let mut config = BenchmarkConfig::default();
    config.key_size = 7;
    config.value_size = 1;
    let line = build_command(BenchmarkCommand::HSet, 1, 22, &config, 0);
    assert_eq!(line.name, b"HSET".to_vec());
    assert_eq!(line.args, vec![b"key1:22".to_vec(), b"field".to_vec(), b"v".to_vec()]);
    match build_request(&line) {
        RespValue::Array(items) => assert_eq!(items.len(), 4),
        other => panic!("expected an array, got {:?}", other),
    }
    let random = random_command(BenchmarkCommand::LRange, 0, 0, &config);
    assert_eq!(random.args[1..], [b"0".to_vec(), b"100".to_vec()]);
    for _ in 0..50 {
        assert!(config.commands.contains(&pick_command(&config)));
    }
    config.value_size = 8;
    let one = random_command(BenchmarkCommand::SetString, 0, 0, &config);
    let two = random_command(BenchmarkCommand::SetString, 0, 0, &config);
    assert_ne!(one.args[1], two.args[1]);
}

#[test]
fn benchmark_names_are_read() {
    assert_eq!(BenchmarkMode::from_str("tcp"), Ok(BenchmarkMode::Tcp));
    assert_eq!(BenchmarkMode::from_str("Embedded"), Ok(BenchmarkMode::Embedded));
    assert_eq!(
        BenchmarkMode::from_str("udp"),
        Err("unknown benchmark mode: udp".to_string())
    );
    assert_eq!(BenchmarkCommand::from_str("set"), Ok(BenchmarkCommand::SetString));
    assert_eq!(BenchmarkCommand::from_str("zrange"), Ok(BenchmarkCommand::ZRange));
    assert_eq!(
        BenchmarkCommand::from_str("del"),
        Err("unknown benchmark command: del".to_string())
    );
}

#[test]
fn the_clock_runs() {
    let mut handed = Versions::new();
    assert_eq!(handed.last(), 0);
    let at = this_moment(&mut handed).unwrap();
    assert!(at.now_ms > 1_600_000_000_000);
    assert_eq!((at.version >> 16) & 0xffff_ffff, at.now_ms as u64 & 0xffff_ffff);
    assert_eq!(handed.last(), at.version);
    let versions: Vec<u64> = (0..2000).map(|_| generate_version(&mut handed).unwrap()).collect();
    assert!(versions[0] > at.version);
    assert!(versions.windows(2).all(|w| w[0] < w[1]));
    assert_eq!(handed.last(), versions[1999]);
    assert!(shard_index(1025) == 1 && shard_index(1023) == 1023);
}

#[test]
fn versions_ascend_whatever_the_clock_does() {
    let mut handed = Versions::new();
    assert_eq!(handed.next(5, 7), Some(5 * 65536 + 7));
    assert_eq!(handed.next(5, 7), Some(5 * 65536 + 8));
    assert_eq!(handed.next(5, 3), Some(5 * 65536 + 9));
    assert_eq!(handed.next(4, 65535), Some(5 * 65536 + 10));
    assert_eq!(handed.next(5, 20), Some(5 * 65536 + 20));
    assert_eq!(handed.next(6, 0), Some(6 * 65536));
    assert_eq!(handed.next((1 << 48) - 1, 65535), Some(u64::MAX));
    assert_eq!(handed.next(9, 9), None);
    assert_eq!(handed.last(), u64::MAX);
    assert_eq!(generate_version(&mut handed), None);
    assert!(this_moment(&mut handed).is_none());
}

fn line(words: &[&str]) -> Vec<Vec<u8>> {
    words.iter().map(|w| w.as_bytes().to_vec()).collect()
}

fn refused(a: Action) -> String {
    match a {
        Action::Reply(RespValue::Error(e)) => e,
        other => panic!("expected an error, got {:?}", other),
    }
}

#[test]
fn transactions_refuse_what_is_out_of_place() {
    let ctx = CommandContext::new(Config::default());
    let mut t = TransactionState::new();
    assert_eq!(refused(t.step(&ctx, Vec::new())), "ERR empty command");
    assert_eq!(refused(t.step(&ctx, line(&["EXEC"]))), "ERR EXEC without MULTI");
    assert_eq!(refused(t.step(&ctx, line(&["discard"]))), "ERR DISCARD without MULTI");
    let large = vec![b"SET".to_vec(), b"k".to_vec(), vec![0u8; MAX_ARG_BYTES + 1]];
    assert_eq!(
        refused(t.step(&ctx, large)),
        "OOM command not allowed when used memory > maxmemory"
    );
    t.step(&ctx, line(&["multi"]));
    assert_eq!(refused(t.step(&ctx, line(&["MULTI"]))), "ERR MULTI calls can not be nested");
    assert_eq!(
        refused(t.step(&ctx, line(&["WATCH", "k"]))),
        "ERR WATCH inside MULTI is not allowed"
    );
    t.step(&ctx, line(&["SET", "a", "1"]));
    t.step(&ctx, line(&["GET", "a"]));
    match t.step(&ctx, line(&["EXEC"])) {
        Action::RunQueue(q) => {
            assert_eq!(q.len(), 2);
            assert_eq!(q[0].name, b"SET".to_vec());
            assert_eq!(q[1].args, vec![b"a".to_vec()]);
        }
        other => panic!("expected the queue, got {:?}", other),
    }
}
