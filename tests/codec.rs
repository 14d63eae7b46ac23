use tiny_redis::codec::{decode_message, decode_one, encode, Decoded};
use tiny_redis::value::Value;

fn bulk(s: &str) -> Value {
    Value::String(s.as_bytes().to_vec())
}

fn round_trip(v: Value) {
    let bytes = encode(&v);
    assert_eq!(decode_message(&bytes), Decoded::Unit(v, bytes.len()));
}

#[test]
fn encode_bulk_string() {
    assert_eq!(encode(&bulk("PONG")), b"$4\r\nPONG\r\n".to_vec());
}

#[test]
fn encode_nil() {
    assert_eq!(encode(&Value::Nil), b"$-1\r\n".to_vec());
}

#[test]
fn encode_integers() {
    assert_eq!(encode(&Value::Int(42)), b":42\r\n".to_vec());
    assert_eq!(encode(&Value::Int(-7)), b":-7\r\n".to_vec());
    assert_eq!(encode(&Value::Int(0)), b":0\r\n".to_vec());
    assert_eq!(encode(&Value::Int(i64::MIN)), b":-9223372036854775808\r\n".to_vec());
}

#[test]
fn encode_array() {
    let v = Value::Array(2, vec![bulk("GET"), bulk("foo")]);
    assert_eq!(encode(&v), b"*2\r\n$3\r\nGET\r\n$3\r\nfoo\r\n".to_vec());
}

#[test]
fn decode_one_array_header() {
    assert_eq!(decode_one(b"*2\r\n$3\r\nGET\r\n"), Decoded::Unit(Value::Array(2, vec![]), 4));
}

#[test]
fn decode_one_bulk_string() {
    assert_eq!(decode_one(b"$3\r\nfoo\r\nrest"), Decoded::Unit(bulk("foo"), 9));
}

#[test]
fn decode_one_bulk_string_is_binary_safe() {
    assert_eq!(decode_one(b"$4\r\na\r\nb\r\n"), Decoded::Unit(bulk("a\r\nb"), 10));
}

#[test]
fn decode_one_non_positive_length_is_nil() {
    assert_eq!(decode_one(b"$-1\r\n"), Decoded::Unit(Value::Nil, 5));
    assert_eq!(decode_one(b"$0\r\n"), Decoded::Unit(Value::Nil, 4));
}

#[test]
fn decode_one_integer() {
    assert_eq!(decode_one(b":-12\r\n"), Decoded::Unit(Value::Int(-12), 6));
    assert_eq!(decode_one(b":+5\r\n"), Decoded::Unit(Value::Int(5), 5));
}

#[test]
fn decode_one_simple_string() {
    assert_eq!(decode_one(b"+OK\r\n"), Decoded::Unit(bulk("OK"), 5));
}

#[test]
fn decode_one_unknown_tag_is_nil() {
    assert_eq!(decode_one(b"?abc"), Decoded::Unit(Value::Nil, 1));
}

#[test]
fn decode_one_incomplete() {
    assert_eq!(decode_one(b""), Decoded::Incomplete);
    assert_eq!(decode_one(b"$3\r\nfo"), Decoded::Incomplete);
    assert_eq!(decode_one(b":12"), Decoded::Incomplete);
    assert_eq!(decode_one(b"$3\r\nfoo\r"), Decoded::Incomplete);
}

#[test]
fn decode_one_malformed_numbers() {
    assert_eq!(decode_one(b"*x\r\n"), Decoded::Malformed(4));
    assert_eq!(decode_one(b"*-1\r\n"), Decoded::Malformed(5));
    assert_eq!(decode_one(b":99999999999999999999\r\n"), Decoded::Malformed(23));
    assert_eq!(decode_one(b":\r\n"), Decoded::Malformed(3));
}

#[test]
fn decode_one_missing_terminator() {
    assert_eq!(decode_one(b"$3\r\nfooXY"), Decoded::Malformed(7));
}

#[test]
fn decode_message_assembles_nested_arrays() {
    let bytes = b"*2\r\n*1\r\n:1\r\n$1\r\nx\r\n";
    let expected = Value::Array(2, vec![Value::Array(1, vec![Value::Int(1)]), bulk("x")]);
    assert_eq!(decode_message(bytes), Decoded::Unit(expected, bytes.len()));
}

#[test]
fn decode_message_waits_for_all_elements() {
    assert_eq!(decode_message(b"*2\r\n$3\r\nGET\r\n"), Decoded::Incomplete);
}

#[test]
fn decode_message_reports_malformed_position() {
    assert_eq!(decode_message(b"*2\r\n:x\r\n"), Decoded::Malformed(8));
}

#[test]
fn round_trip_values() {
    round_trip(Value::Nil);
    round_trip(Value::Int(-3));
    round_trip(Value::Int(i64::MAX));
    round_trip(bulk("hello world"));
    round_trip(Value::Array(0, vec![]));
    round_trip(Value::Array(3, vec![
        bulk("SET"),
        Value::Array(2, vec![Value::Int(7), Value::Nil]),
        Value::String(vec![0, 255, 10, 13]),
    ]));
}

#[test]
fn simple_string_decodes_like_bulk_string() {
    assert_eq!(decode_one(b"+abc\r\n"), Decoded::Unit(bulk("abc"), 6));
    assert_eq!(decode_one(b"$3\r\nabc\r\n"), Decoded::Unit(bulk("abc"), 9));
}

#[test]
fn empty_bulk_string_comes_back_as_nil() {
    let bytes = encode(&Value::String(vec![]));
    assert_eq!(bytes, b"$0\r\n\r\n".to_vec());
    assert_eq!(decode_one(&bytes), Decoded::Unit(Value::Nil, 4));
}

#[test]
fn array_length_with_minus_sign_is_malformed() {
    assert_eq!(decode_one(b"*-0\r\n"), Decoded::Malformed(5));
    assert_eq!(decode_one(b"*+2\r\n"), Decoded::Unit(Value::Array(2, vec![]), 5));
}

#[test]
fn number_lines_are_trimmed() {
    assert_eq!(decode_one(b"*2 \r\n"), Decoded::Unit(Value::Array(2, vec![]), 5));
    assert_eq!(decode_one(b": 12\t\r\n"), Decoded::Unit(Value::Int(12), 7));
    assert_eq!(decode_one(b"$ 3\r\nfoo\r\n"), Decoded::Unit(bulk("foo"), 10));
    assert_eq!(decode_one(b":1 2\r\n"), Decoded::Malformed(6));
}

#[test]
fn simple_string_is_trimmed() {
    assert_eq!(decode_one(b"+ PING \r\n"), Decoded::Unit(bulk("PING"), 9));
    assert_eq!(decode_one(b"+a b\n"), Decoded::Unit(bulk("a b"), 5));
    assert_eq!(decode_one(b"+  \r\n"), Decoded::Unit(Value::String(vec![]), 5));
}
