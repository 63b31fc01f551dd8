//! Command interpretation: dispatch shapes, case-insensitivity, and the
//! reply texts for malformed commands.

use resp_kv::command::Command;
use resp_kv::value::Value;

fn bs(s: &str) -> Vec<u8> {
    s.as_bytes().to_vec()
}

fn cmd(words: &[&str]) -> Command {
    let items: Vec<Value> = words.iter().map(|w| Value::BulkString(bs(w))).collect();
    Value::Array(items).to_command()
}

#[test]
fn ping_with_and_without_message() {
    assert_eq!(cmd(&["PING"]), Command::Ping(None));
    assert_eq!(cmd(&["PING", "hi"]), Command::Ping(Some(bs("hi"))));
    // PING takes zero arguments or one; anything more is a local error.
    assert_eq!(cmd(&["PING", "a", "b"]), Command::Error(bs("invalid command")));
    let v = Value::Array(vec![Value::BulkString(bs("PING")), Value::Integer(1)]);
    assert_eq!(v.to_command(), Command::Error(bs("invalid command")));
}

#[test]
fn echo_requires_exactly_one_bulk_string_message() {
    assert_eq!(cmd(&["ECHO", "hey"]), Command::Echo(bs("hey")));
    assert_eq!(cmd(&["ECHO"]), Command::Error(bs("invalid command, need message")));
    assert_eq!(cmd(&["ECHO", "a", "b"]), Command::Error(bs("invalid command, need message")));
    let v = Value::Array(vec![Value::BulkString(bs("ECHO")), Value::Null]);
    assert_eq!(v.to_command(), Command::Error(bs("invalid command, need message")));
}

#[test]
fn set_shapes() {
    assert_eq!(cmd(&["SET", "k", "v"]), Command::Put(bs("k"), bs("v"), None));
    assert_eq!(cmd(&["SET", "k", "v", "PX", "50"]), Command::Put(bs("k"), bs("v"), Some(50)));
    // SET accepts exactly the two shapes; a trailing extra argument is an error.
    assert_eq!(
        cmd(&["SET", "k", "v", "PX", "50", "extra"]),
        Command::Error(bs("invalid command, need key and value")),
    );
    assert_eq!(
        cmd(&["SET", "k", "v", "w"]),
        Command::Error(bs("invalid command, need key and value")),
    );
    assert_eq!(cmd(&["SET", "k", "v", "px", "+7"]), Command::Put(bs("k"), bs("v"), Some(7)));
    assert_eq!(cmd(&["SET", "k"]), Command::Error(bs("invalid command, need value")));
    assert_eq!(cmd(&["SET"]), Command::Error(bs("invalid command, need key and value")));
    assert_eq!(cmd(&["SET", "k", "v", "PX"]), Command::Error(bs("invalid command, need key and value")));
    assert_eq!(cmd(&["SET", "k", "v", "EX", "50"]), Command::Error(bs("invalid command, need key and value")));
}

#[test]
fn set_with_malformed_expiry_is_a_command_error() {
    // A non-numeric or overflowing PX argument is a command-level error;
    // the connection would stay open.
    assert_eq!(
        cmd(&["SET", "k", "v", "PX", "abc"]),
        Command::Error(bs("invalid command, need valid expiry")),
    );
    assert_eq!(
        cmd(&["SET", "k", "v", "PX", "-5"]),
        Command::Error(bs("invalid command, need valid expiry")),
    );
    assert_eq!(
        cmd(&["SET", "k", "v", "PX", "99999999999999999999999"]),
        Command::Error(bs("invalid command, need valid expiry")),
    );
    assert_eq!(
        cmd(&["SET", "k", "v", "PX", ""]),
        Command::Error(bs("invalid command, need valid expiry")),
    );
}

#[test]
fn get_requires_exactly_one_key() {
    assert_eq!(cmd(&["GET", "foo"]), Command::Get(bs("foo")));
    assert_eq!(cmd(&["GET"]), Command::Error(bs("invalid command, need key")));
    assert_eq!(cmd(&["GET", "a", "b"]), Command::Error(bs("invalid command, need key")));
}

#[test]
fn dispatch_is_case_insensitive() {
    assert_eq!(cmd(&["ping"]), Command::Ping(None));
    assert_eq!(cmd(&["PiNg"]), Command::Ping(None));
    assert_eq!(cmd(&["PING"]), Command::Ping(None));
    assert_eq!(cmd(&["EcHo", "x"]), Command::Echo(bs("x")));
    assert_eq!(cmd(&["sEt", "k", "v", "Px", "9"]), Command::Put(bs("k"), bs("v"), Some(9)));
    assert_eq!(cmd(&["gEt", "k"]), Command::Get(bs("k")));
}

#[test]
fn unknown_commands_carry_the_word_as_received() {
    assert_eq!(cmd(&["FLUSHALL"]), Command::Unknown(bs("FLUSHALL")));
    assert_eq!(cmd(&["FlushAll"]), Command::Unknown(bs("FlushAll")));
    assert_eq!(cmd(&["frob", "x"]), Command::Unknown(bs("frob")));
}

#[test]
fn only_an_array_of_bulk_strings_is_a_command() {
    assert_eq!(
        Value::SimpleString(bs("PING")).to_command(),
        Command::Error(bs("Error: Not Array")),
    );
    assert_eq!(Value::Integer(3).to_command(), Command::Error(bs("Error: Not Array")));
    assert_eq!(Value::Array(vec![]).to_command(), Command::Error(bs("invalid command")));
    assert_eq!(
        Value::Array(vec![Value::Integer(1)]).to_command(),
        Command::Error(bs("invalid command")),
    );
}
