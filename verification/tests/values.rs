//! Keys, records and values as bytes.

use kvdb_rs::encoding::{
    compose_version, decode_metadata, decode_string, encode_metadata, encode_string, metadata_key,
    parse_metadata_key, parse_subkey, subkey,
};
use kvdb_rs::error::{format_error, has_redis_error_code};
use kvdb_rs::protocol::{RespParser, RespSerializer, RespValue};
use kvdb_rs::score::{decode_score, encode_score};
use kvdb_rs::storage::{Cf, StorageEngine, WriteBatch};
use kvdb_rs::types::{
    build_flags, data_type_from_flags, version_from_flags, DataType, Metadata,
};
use kvdb_rs::KvdbError;

#[test]
fn keys_carry_their_namespace_and_length() {
    assert_eq!(metadata_key(b"k", b""), b"\x00\x00\x00\x01k");
    assert_eq!(metadata_key(b"k", b"ns"), b"\x02ns\x00\x00\x00\x01k");
    assert_eq!(
        subkey(b"k", 7, b"f", b"ns"),
        b"\x02ns\x00\x00\x00\x01k\x00\x00\x00\x00\x00\x00\x00\x07f"
    );
}

#[test]
fn keys_are_read_back() {
    let m = metadata_key(b"key", b"ns");
    assert_eq!(parse_metadata_key(&m, b"ns"), Some(&b"key"[..]));
    assert_eq!(parse_metadata_key(&m, b"other"), None);
    let s = subkey(b"key", 0x0102030405060708, b"sub", b"ns");
    assert_eq!(
        parse_subkey(&s, b"ns"),
        Some((&b"key"[..], 0x0102030405060708, &b"sub"[..]))
    );
    assert_eq!(parse_subkey(&s[..10], b"ns"), None);
}

#[test]
fn records_are_read_back() {
    let mut m = Metadata::new(DataType::List, 9);
    m.expire = -5;
    m.size = 3;
    m.head = -2;
    m.tail = 0;
    let bytes = encode_metadata(&m);
    assert_eq!(bytes.len(), 41);
    let back = decode_metadata(&bytes).unwrap();
    assert_eq!(
        (back.flags, back.expire, back.version, back.size, back.head, back.tail),
        (m.flags, -5, 9, 3, -2, 0)
    );
    assert!(decode_metadata(&bytes[..20]).is_none());

    let string = encode_string(build_flags(DataType::String), 42, b"payload");
    assert_eq!(
        decode_string(&string),
        Some((build_flags(DataType::String), 42, &b"payload"[..]))
    );
    assert_eq!(decode_string(b"short"), None);
}

#[test]
fn flags_hold_type_and_version() {
    for t in [
        DataType::String,
        DataType::Hash,
        DataType::List,
        DataType::SetType,
        DataType::ZSet,
        DataType::Bitmap,
        DataType::Stream,
    ] {
        assert_eq!(data_type_from_flags(build_flags(t)), Some(t));
        assert_eq!(DataType::from_code(t.code()), Some(t));
        assert_eq!(version_from_flags(build_flags(t)), 1);
    }
    assert_eq!(data_type_from_flags(0x1f), None);
    assert_eq!(DataType::String.cf_name(), "metadata");
    assert_eq!(DataType::ZSet.cf_name(), "subkey");
    let m = Metadata::new(DataType::Hash, 1);
    assert_eq!(m.encoding_version(), 1);
    assert_eq!(m.data_type(), Some(DataType::Hash));
}

#[test]
fn versions_grow_with_time() {
    assert_eq!(compose_version(1, 2), 0x1_0002);
    assert!(compose_version(1, 0xffff) < compose_version(2, 0));
}

#[test]
fn score_bytes_stand_in_the_order_of_the_scores() {
    let scores = [
        f64::NEG_INFINITY,
        -1e300,
        -1.5,
        -0.0,
        0.0,
        5e-324,
        1.0,
        2.5,
        f64::INFINITY,
    ];
    for pair in scores.windows(2) {
        assert!(encode_score(pair[0].to_bits()) < encode_score(pair[1].to_bits()));
    }
    for s in scores {
        assert_eq!(decode_score(&encode_score(s.to_bits())), s.to_bits());
    }
    assert_eq!(encode_score(1.0f64.to_bits()), [0xbf, 0xf0, 0, 0, 0, 0, 0, 0]);
}

#[test]
fn values_are_read_back_from_the_wire() {
    let values = vec![
        RespValue::SimpleString("OK".to_string()),
        RespValue::Error("ERR no".to_string()),
        RespValue::Integer(i64::MIN),
        RespValue::BulkString(None),
        RespValue::BulkString(Some(b"a\r\nb".to_vec())),
        RespValue::Null,
        RespValue::Boolean(true),
        RespValue::Boolean(false),
        RespValue::Double(b"1.5".to_vec()),
        RespValue::Array(vec![
            RespValue::Integer(1),
            RespValue::Array(vec![RespValue::BulkString(Some(Vec::new()))]),
        ]),
        RespValue::MapReply(vec![
            (RespValue::SimpleString("a".to_string()), RespValue::Integer(1)),
            (RespValue::SimpleString("b".to_string()), RespValue::Null),
        ]),
        RespValue::SetReply(vec![RespValue::Integer(1), RespValue::Integer(2)]),
    ];
    for v in values {
        let bytes = RespSerializer::serialize(&v);
        for cut in 0..bytes.len() {
            assert_eq!(RespParser::parse_one(&bytes[..cut]), None);
        }
        assert_eq!(RespParser::parse_one(&bytes), Some((v, bytes.len())));
    }
}

#[test]
fn values_on_the_wire() {
    let wire = |v: RespValue| RespSerializer::serialize(&v);
    assert_eq!(wire(RespValue::Integer(-7)), b":-7\r\n");
    assert_eq!(wire(RespValue::BulkString(Some(b"hi".to_vec()))), b"$2\r\nhi\r\n");
    assert_eq!(wire(RespValue::BulkString(None)), b"$-1\r\n");
    assert_eq!(wire(RespValue::Null), b"_\r\n");
    assert_eq!(wire(RespValue::Boolean(true)), b"#t\r\n");
    assert_eq!(wire(RespValue::Double(b"2.5".to_vec())), b",2.5\r\n");
    assert_eq!(
        wire(RespValue::MapReply(vec![(RespValue::Integer(1), RespValue::Integer(2))])),
        b"%1\r\n:1\r\n:2\r\n"
    );
    assert_eq!(wire(RespValue::SetReply(vec![RespValue::Integer(1)])), b"~1\r\n:1\r\n");
}

#[test]
fn what_is_no_value_is_not_read() {
    assert_eq!(RespParser::parse_one(b""), None);
    assert_eq!(RespParser::parse_one(b"?what\r\n"), None);
    assert_eq!(RespParser::parse_one(b":abc\r\n"), None);
    assert_eq!(RespParser::parse_one(b"#x\r\n"), None);
    assert_eq!(RespParser::parse_one(b",abc\r\n"), None);
    assert_eq!(RespParser::parse_one(b"*-1\r\n"), Some((RespValue::Null, 5)));
    assert_eq!(RespParser::parse_one(b"%-1\r\n"), Some((RespValue::MapReply(Vec::new()), 5)));
    assert_eq!(
        RespParser::parse_one(b"+a\xffb\r\n"),
        Some((RespValue::SimpleString("a\u{fffd}b".to_string()), 6))
    );
}

#[test]
fn pipelined_commands_are_read_one_by_one() {
    let two = b"*1\r\n$4\r\nPING\r\n*2\r\n$4\r\nECHO\r\n$2\r\nhi\r\n";
    let (first, n) = RespParser::parse_cmd(two).unwrap();
    assert_eq!((first, n), (vec![b"PING".to_vec()], 14));
    let (second, m) = RespParser::parse_cmd(&two[n..]).unwrap();
    assert_eq!(second, vec![b"ECHO".to_vec(), b"hi".to_vec()]);
    assert_eq!(n + m, two.len());
}

#[test]
fn errors_show_a_code() {
    assert_eq!(format_error(&KvdbError::NotInteger), "ERR value is not an integer");
    assert_eq!(format_error(&KvdbError::OutOfRange), "ERR value is out of range");
    assert_eq!(
        format_error(&KvdbError::WrongArgCount("GET")),
        "ERR wrong number of arguments for 'GET' command"
    );
    assert_eq!(
        format_error(&KvdbError::Oom),
        "OOM command not allowed when used memory > maxmemory"
    );
    assert_eq!(
        format_error(&KvdbError::UnknownCommand("foo".to_string())),
        "ERR unknown command 'foo'"
    );
    for (e, text) in [
        (KvdbError::Storage("x".to_string()), "ERR storage error: x"),
        (KvdbError::Io("x".to_string()), "ERR io error: x"),
        (KvdbError::Lua("x".to_string()), "ERR lua error: x"),
        (KvdbError::Config("x".to_string()), "ERR config error: x"),
        (KvdbError::Protocol("x".to_string()), "ERR protocol error: x"),
        (KvdbError::Command("NOAUTH x".to_string()), "NOAUTH x"),
        (KvdbError::Command("plain".to_string()), "ERR plain"),
    ] {
        assert_eq!(format_error(&e), text);
    }
    assert!(has_redis_error_code("WRONGTYPE x"));
    assert!(!has_redis_error_code("A x"));
    assert!(!has_redis_error_code("WRONGTYPE"));
    assert!(!has_redis_error_code("Wrong x"));
}

#[test]
fn the_journal_replays_to_the_store() {
    let mut engine = StorageEngine::new();
    engine.put("metadata", b"a", b"1").unwrap();
    engine.put("metadata", b"b", b"2").unwrap();
    let mut batch = WriteBatch::new();
    engine.batch_put(&mut batch, "subkey", b"c", b"3").unwrap();
    engine.batch_delete(&mut batch, "metadata", b"a").unwrap();
    engine.write(batch);

    let mut copy = StorageEngine::new();
    for b in engine.take_journal() {
        copy.write(b);
    }
    for cf in ["default", "metadata", "subkey", "zset_score", "pubsub"] {
        assert_eq!(copy.full_scan(cf).unwrap(), engine.full_scan(cf).unwrap());
    }
    assert_eq!(copy.get("metadata", b"a").unwrap(), None);
    assert_eq!(copy.get("subkey", b"c").unwrap(), Some(b"3".to_vec()));
    assert!(engine.take_journal().is_empty());

    let mut restored = StorageEngine::new();
    restored.restore(Cf::Metadata, b"b", b"2");
    assert_eq!(restored.get("metadata", b"b").unwrap(), Some(b"2".to_vec()));
    assert!(restored.take_journal().is_empty());
}

#[test]
fn prefixes_are_counted_scanned_and_deleted() {
    let mut engine = StorageEngine::new();
    for k in ["a1", "a2", "a3", "b1"] {
        engine.put("subkey", k.as_bytes(), b"v").unwrap();
    }
    assert_eq!(engine.count_prefix("subkey", b"a").unwrap(), 3);
    let scanned = engine.prefix_scan("subkey", b"a").unwrap();
    assert_eq!(scanned.len(), 3);
    assert_eq!(scanned[0].0, b"a1".to_vec());
    engine.delete_prefix("subkey", b"a", 2).unwrap();
    assert_eq!(engine.count_prefix("subkey", b"a").unwrap(), 0);
    assert_eq!(engine.get("subkey", b"b1").unwrap(), Some(b"v".to_vec()));
}

#[test]
fn a_missing_column_family_is_an_error() {
    let mut engine = StorageEngine::new();
    let e = engine.get("nope", b"k").unwrap_err();
    assert_eq!(e.message(), "missing column family: nope");
    assert!(engine.put("nope", b"k", b"v").is_err());
    assert!(engine.prefix_scan_page("nope", b"", b"", 1).is_err());
}
