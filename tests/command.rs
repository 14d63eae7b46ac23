use tiny_redis::command::{ArgumentError, Command, Error};
use tiny_redis::value::Value;

fn bulk(s: &str) -> Value {
    Value::String(s.as_bytes().to_vec())
}

fn request(parts: &[&str]) -> Value {
    Value::Array(parts.len(), parts.iter().map(|p| bulk(p)).collect())
}

#[test]
fn ping_in_any_case() {
    assert_eq!(Command::from_value(request(&["PING"]), 0), Ok(Command::Ping));
    assert_eq!(Command::from_value(request(&["pInG", "extra"]), 0), Ok(Command::Ping));
    assert_eq!(Command::from_value(bulk("ping"), 0), Ok(Command::Ping));
}

#[test]
fn bare_string_other_than_ping() {
    assert_eq!(
        Command::from_value(bulk("hello"), 0),
        Err(Error::Argument(ArgumentError::NotImplemented(b"hello".to_vec())))
    );
}

#[test]
fn echo_and_get() {
    assert_eq!(Command::from_value(request(&["echo", "hi"]), 0), Ok(Command::Echo(b"hi".to_vec())));
    assert_eq!(Command::from_value(request(&["GET", "k"]), 0), Ok(Command::Get(b"k".to_vec())));
}

#[test]
fn echo_and_get_arity() {
    assert_eq!(
        Command::from_value(request(&["ECHO"]), 0),
        Err(Error::Argument(ArgumentError::WrongArity))
    );
    assert_eq!(
        Command::from_value(request(&["GET", "a", "b"]), 0),
        Err(Error::Argument(ArgumentError::WrongArity))
    );
}

#[test]
fn get_key_must_be_string() {
    let v = Value::Array(2, vec![bulk("GET"), Value::Int(3)]);
    assert_eq!(Command::from_value(v, 0), Err(Error::Argument(ArgumentError::WrongType)));
}

#[test]
fn set_without_deadline() {
    assert_eq!(
        Command::from_value(request(&["SET", "foo", "bar"]), 5),
        Ok(Command::SetKey(b"foo".to_vec(), bulk("bar"), None))
    );
}

#[test]
fn set_with_px_string_and_integer() {
    assert_eq!(
        Command::from_value(request(&["set", "k", "v", "px", "100"]), 1000),
        Ok(Command::SetKey(b"k".to_vec(), bulk("v"), Some(1100)))
    );
    let v = Value::Array(5, vec![bulk("SET"), bulk("k"), bulk("v"), bulk("PX"), Value::Int(1)]);
    assert_eq!(Command::from_value(v, 7), Ok(Command::SetKey(b"k".to_vec(), bulk("v"), Some(8))));
}

#[test]
fn set_errors() {
    assert_eq!(
        Command::from_value(request(&["SET", "k"]), 0),
        Err(Error::Argument(ArgumentError::WrongArity))
    );
    assert_eq!(
        Command::from_value(request(&["SET", "k", "v", "PX"]), 0),
        Err(Error::Argument(ArgumentError::WrongArity))
    );
    assert_eq!(
        Command::from_value(request(&["SET", "k", "v", "EX", "1"]), 0),
        Err(Error::Argument(ArgumentError::FlagNotImplemented(b"EX".to_vec())))
    );
    assert_eq!(
        Command::from_value(request(&["SET", "k", "v", "PX", "soon"]), 0),
        Err(Error::Argument(ArgumentError::WrongType))
    );
}

#[test]
fn set_negative_px_is_conversion_failure() {
    let v = Value::Array(5, vec![bulk("SET"), bulk("k"), bulk("v"), bulk("PX"), Value::Int(-1)]);
    assert_eq!(Command::from_value(v, 0), Err(Error::TryFromInt));
}

#[test]
fn set_deadline_overflow_is_conversion_failure() {
    assert_eq!(
        Command::from_value(request(&["SET", "k", "v", "PX", "2"]), u64::MAX - 1),
        Err(Error::TryFromInt)
    );
}

#[test]
fn empty_and_unknown_commands() {
    assert_eq!(
        Command::from_value(Value::Array(0, vec![]), 0),
        Err(Error::Argument(ArgumentError::EmptyCommand))
    );
    assert_eq!(
        Command::from_value(request(&["DEL", "k"]), 0),
        Err(Error::Argument(ArgumentError::NotImplemented(b"DEL".to_vec())))
    );
}

#[test]
fn other_shapes_are_wrong_type() {
    assert_eq!(Command::from_value(Value::Int(1), 0), Err(Error::Argument(ArgumentError::WrongType)));
    assert_eq!(Command::from_value(Value::Nil, 0), Err(Error::Argument(ArgumentError::WrongType)));
    let v = Value::Array(1, vec![Value::Int(1)]);
    assert_eq!(Command::from_value(v, 0), Err(Error::Argument(ArgumentError::WrongType)));
}

#[test]
fn set_px_accepts_leading_plus() {
    assert_eq!(
        Command::from_value(request(&["SET", "k", "v", "PX", "+5"]), 10),
        Ok(Command::SetKey(b"k".to_vec(), bulk("v"), Some(15)))
    );
    assert_eq!(
        Command::from_value(request(&["SET", "k", "v", "PX", "+"]), 10),
        Err(Error::Argument(ArgumentError::WrongType))
    );
    assert_eq!(
        Command::from_value(request(&["SET", "k", "v", "PX", "-5"]), 10),
        Err(Error::Argument(ArgumentError::WrongType))
    );
}

#[test]
fn set_with_flags_other_counts_are_arity_errors() {
    let data = vec![bulk("SET"), bulk("k"), bulk("v")];
    assert_eq!(Command::set_with_flags(data, 0), Err(Error::Argument(ArgumentError::WrongArity)));
    let data = vec![bulk("SET"), bulk("k"), bulk("v"), bulk("PX"), bulk("1"), bulk("PX"), bulk("2")];
    assert_eq!(Command::set_with_flags(data, 0), Err(Error::Argument(ArgumentError::WrongArity)));
}
