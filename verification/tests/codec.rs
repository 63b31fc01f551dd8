//! Encoding and parsing: exact wire forms, round trips, incremental
//! delivery, and rejection of malformed frames.

use resp_kv::parser::{parse_command, readline, ParseResult};
use resp_kv::value::Value;

fn bs(s: &str) -> Vec<u8> {
    s.as_bytes().to_vec()
}

fn parse_complete(bytes: &[u8]) -> (Value, usize) {
    match parse_command(bytes) {
        ParseResult::Complete(v, n) => (v, n),
        other => panic!("expected Complete, got {:?}", other),
    }
}

#[test]
fn encode_exact_wire_forms() {
    assert_eq!(Value::SimpleString(bs("OK")).encode(), bs("+OK\r\n"));
    assert_eq!(Value::Error(bs("oops")).encode(), bs("-oops\r\n"));
    assert_eq!(Value::Integer(0).encode(), bs(":0\r\n"));
    assert_eq!(Value::Integer(-42).encode(), bs(":-42\r\n"));
    assert_eq!(Value::Integer(1234567890).encode(), bs(":1234567890\r\n"));
    assert_eq!(Value::BulkString(bs("")).encode(), bs("$0\r\n\r\n"));
    assert_eq!(Value::BulkString(bs("hey")).encode(), bs("$3\r\nhey\r\n"));
    assert_eq!(Value::Null.encode(), bs("$-1\r\n"));
    assert_eq!(Value::Array(vec![]).encode(), bs("*0\r\n"));
    assert_eq!(
        Value::Array(vec![Value::BulkString(bs("GET")), Value::BulkString(bs("foo"))]).encode(),
        bs("*2\r\n$3\r\nGET\r\n$3\r\nfoo\r\n"),
    );
}

#[test]
fn round_trip_simple_string() {
    let enc = Value::SimpleString(bs("hello world")).encode();
    let (v, n) = parse_complete(&enc);
    assert_eq!(v, Value::SimpleString(bs("hello world")));
    assert_eq!(n, enc.len());
}

#[test]
fn round_trip_integers() {
    for i in [0i64, 1, -1, 42, -42, i64::MAX, i64::MIN] {
        let enc = Value::Integer(i).encode();
        let (v, n) = parse_complete(&enc);
        assert_eq!(v, Value::Integer(i));
        assert_eq!(n, enc.len());
    }
}

#[test]
fn round_trip_binary_bulk_string() {
    // A bulk string is length-prefixed, so CR LF inside the payload is fine.
    let payload = vec![0u8, 13, 10, 255, 13, 10, 7];
    let enc = Value::BulkString(payload.clone()).encode();
    let (v, n) = parse_complete(&enc);
    assert_eq!(v, Value::BulkString(payload));
    assert_eq!(n, enc.len());
}

#[test]
fn round_trip_null_and_nested_array() {
    let (v, n) = parse_complete(&Value::Null.encode());
    assert_eq!(v, Value::Null);
    assert_eq!(n, 5);

    let mk = || {
        Value::Array(vec![
            Value::BulkString(bs("SET")),
            Value::Array(vec![Value::Integer(7), Value::Null]),
            Value::SimpleString(bs("x")),
        ])
    };
    let enc = mk().encode();
    let (v, n) = parse_complete(&enc);
    assert_eq!(v, mk());
    assert_eq!(n, enc.len());
}

#[test]
fn incremental_delivery_invariance() {
    // Every strict prefix is Incomplete; the whole buffer parses the value.
    let msg = bs("*2\r\n$4\r\nECHO\r\n$3\r\nhey\r\n");
    for cut in 0..msg.len() {
        assert_eq!(parse_command(&msg[..cut]), ParseResult::Incomplete, "cut at {}", cut);
    }
    let (v, n) = parse_complete(&msg);
    assert_eq!(n, msg.len());
    assert_eq!(
        v,
        Value::Array(vec![Value::BulkString(bs("ECHO")), Value::BulkString(bs("hey"))]),
    );
}

#[test]
fn trailing_bytes_do_not_change_a_parse() {
    let mut msg = bs("+PONG\r\n");
    let (v, n) = parse_complete(&msg);
    msg.extend_from_slice(b":1\r\n");
    let (v2, n2) = parse_complete(&msg);
    assert_eq!(v, v2);
    assert_eq!(n, n2);
}

#[test]
fn empty_buffer_is_incomplete() {
    assert_eq!(parse_command(b""), ParseResult::Incomplete);
}

#[test]
fn partial_frames_are_incomplete() {
    assert_eq!(parse_command(b"$"), ParseResult::Incomplete);
    assert_eq!(parse_command(b"$3\r\nab"), ParseResult::Incomplete);
    assert_eq!(parse_command(b"$3\r\nabc\r"), ParseResult::Incomplete);
    assert_eq!(parse_command(b"*2\r\n$4\r\nECHO\r\n"), ParseResult::Incomplete);
    assert_eq!(parse_command(b":12"), ParseResult::Incomplete);
}

#[test]
fn empty_array_is_valid() {
    let (v, n) = parse_complete(b"*0\r\n");
    assert_eq!(v, Value::Array(vec![]));
    assert_eq!(n, 4);
}

#[test]
fn unrecognized_tag_is_a_protocol_error() {
    assert_eq!(parse_command(b"@foo\r\n"), ParseResult::ProtocolError);
}

#[test]
fn bad_lengths_are_protocol_errors() {
    // Negative (other than the Null marker), non-numeric, and oversized
    // declared lengths are rejected rather than read out of bounds.
    assert_eq!(parse_command(b"$-2\r\nab\r\n"), ParseResult::ProtocolError);
    assert_eq!(parse_command(b"$ab\r\n"), ParseResult::ProtocolError);
    assert_eq!(parse_command(b"$\r\n"), ParseResult::ProtocolError);
    assert_eq!(
        parse_command(b"$99999999999999999999999999\r\n"),
        ParseResult::ProtocolError,
    );
    assert_eq!(parse_command(b"*xyz\r\n"), ParseResult::ProtocolError);
}

#[test]
fn bad_integers_are_protocol_errors() {
    assert_eq!(parse_command(b":12x\r\n"), ParseResult::ProtocolError);
    assert_eq!(parse_command(b":\r\n"), ParseResult::ProtocolError);
    assert_eq!(parse_command(b":--5\r\n"), ParseResult::ProtocolError);
    assert_eq!(parse_command(b":9223372036854775808\r\n"), ParseResult::ProtocolError);
    assert_eq!(parse_command(b":-9223372036854775809\r\n"), ParseResult::ProtocolError);
}

#[test]
fn integer_bounds_and_signs() {
    let (v, _) = parse_complete(b":9223372036854775807\r\n");
    assert_eq!(v, Value::Integer(i64::MAX));
    let (v, _) = parse_complete(b":-9223372036854775808\r\n");
    assert_eq!(v, Value::Integer(i64::MIN));
    let (v, _) = parse_complete(b":+5\r\n");
    assert_eq!(v, Value::Integer(5));
    let (v, _) = parse_complete(b":007\r\n");
    assert_eq!(v, Value::Integer(7));
}

#[test]
fn bulk_string_requires_trailing_crlf() {
    assert_eq!(parse_command(b"$2\r\nabXY"), ParseResult::ProtocolError);
}

#[test]
fn readline_splits_at_the_first_crlf() {
    let buf = b"hello\r\nworld\r\n";
    let (line, n) = readline(buf).expect("line");
    assert_eq!(line, b"hello");
    assert_eq!(n, 7);
    assert!(readline(b"no line here").is_none());
    assert!(readline(b"half\r").is_none());
    let (line, n) = readline(b"\r\n").expect("empty line");
    assert_eq!(line, b"");
    assert_eq!(n, 2);
}
