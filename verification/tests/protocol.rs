//! The wire format.

use kvdb_rs::protocol::{RespParser, RespSerializer, RespValue};

#[test]
fn parse_set_command() {
    let buf = "*3\r\n$3\r\nSET\r\n$3\r\nfoo\r\n$3\r\nbar\r\n".as_bytes();
    let (args, consumed) = RespParser::parse_cmd(buf).unwrap();
    assert_eq!(consumed, 31);
    assert_eq!(args, vec![b"SET".to_vec(), b"foo".to_vec(), b"bar".to_vec()]);
}

#[test]
fn serialize_error() {
    let v = RespValue::Error("ERR unknown command".to_string());
    assert_eq!(RespSerializer::serialize(&v), "-ERR unknown command\r\n".as_bytes());
}
