//! The store's TTL semantics and whole request/reply scenarios driven
//! through the session: bytes in, bytes out.

use resp_kv::parser::ParseResult;
use resp_kv::session::{execute_command, Session};
use resp_kv::store::Store;
use resp_kv::value::Value;

fn bs(s: &str) -> Vec<u8> {
    s.as_bytes().to_vec()
}

/// Feeds one request to a fresh session and executes the parsed frame
/// against `store` at time `now`, returning the serialized reply.
fn request(store: &mut Store, req: &[u8], now: u64) -> Vec<u8> {
    let mut session = Session::new();
    session.feed(req);
    match session.try_next() {
        ParseResult::Complete(v, _) => execute_command(&v, store, now).encode(),
        other => panic!("expected a complete frame, got {:?}", other),
    }
}

#[test]
fn ttl_semantics() {
    let mut store = Store::new();
    let ok = request(&mut store, b"*5\r\n$3\r\nSET\r\n$1\r\nk\r\n$1\r\nv\r\n$2\r\nPX\r\n$2\r\n50\r\n", 1_000);
    assert_eq!(ok, bs("+OK\r\n"));
    // Sampled 10 ms after the set: still there.
    assert_eq!(request(&mut store, b"*2\r\n$3\r\nGET\r\n$1\r\nk\r\n", 1_010), bs("$1\r\nv\r\n"));
    // At the expiry instant and after it: masked as Null.
    assert_eq!(request(&mut store, b"*2\r\n$3\r\nGET\r\n$1\r\nk\r\n", 1_050), bs("$-1\r\n"));
    assert_eq!(request(&mut store, b"*2\r\n$3\r\nGET\r\n$1\r\nk\r\n", 1_060), bs("$-1\r\n"));
}

#[test]
fn expired_entries_stay_masked_but_can_be_overwritten() {
    let mut store = Store::new();
    request(&mut store, b"*5\r\n$3\r\nSET\r\n$1\r\nk\r\n$1\r\nv\r\n$2\r\nPX\r\n$1\r\n5\r\n", 100);
    assert_eq!(request(&mut store, b"*2\r\n$3\r\nGET\r\n$1\r\nk\r\n", 200), bs("$-1\r\n"));
    // The entry is only masked, never removed; a fresh SET revives the key.
    request(&mut store, b"*3\r\n$3\r\nSET\r\n$1\r\nk\r\n$1\r\nw\r\n", 300);
    assert_eq!(request(&mut store, b"*2\r\n$3\r\nGET\r\n$1\r\nk\r\n", 400), bs("$1\r\nw\r\n"));
}

#[test]
fn plain_set_persists_at_any_later_time() {
    let mut store = Store::new();
    assert_eq!(request(&mut store, b"*3\r\n$3\r\nSET\r\n$1\r\nk\r\n$1\r\nv\r\n", 5), bs("+OK\r\n"));
    assert_eq!(request(&mut store, b"*2\r\n$3\r\nGET\r\n$1\r\nk\r\n", 6), bs("$1\r\nv\r\n"));
    assert_eq!(request(&mut store, b"*2\r\n$3\r\nGET\r\n$1\r\nk\r\n", u64::MAX), bs("$1\r\nv\r\n"));
}

#[test]
fn unknown_key_reads_as_null() {
    let mut store = Store::new();
    assert_eq!(request(&mut store, b"*2\r\n$3\r\nGET\r\n$7\r\nmissing\r\n", 0), bs("$-1\r\n"));
}

#[test]
fn set_overwrites_unconditionally() {
    let mut store = Store::new();
    request(&mut store, b"*3\r\n$3\r\nSET\r\n$1\r\nk\r\n$1\r\na\r\n", 0);
    request(&mut store, b"*3\r\n$3\r\nSET\r\n$1\r\nk\r\n$1\r\nb\r\n", 1);
    assert_eq!(request(&mut store, b"*2\r\n$3\r\nGET\r\n$1\r\nk\r\n", 2), bs("$1\r\nb\r\n"));
    // Overwriting with a TTL replaces the plain entry wholesale.
    request(&mut store, b"*5\r\n$3\r\nSET\r\n$1\r\nk\r\n$1\r\nc\r\n$2\r\nPX\r\n$1\r\n1\r\n", 10);
    assert_eq!(request(&mut store, b"*2\r\n$3\r\nGET\r\n$1\r\nk\r\n", 100), bs("$-1\r\n"));
}

#[test]
fn scenario_ping() {
    let mut store = Store::new();
    assert_eq!(request(&mut store, b"*1\r\n$4\r\nPING\r\n", 0), bs("+PONG\r\n"));
}

#[test]
fn scenario_echo() {
    // The reply to ECHO is a simple string frame carrying the message.
    let mut store = Store::new();
    assert_eq!(
        request(&mut store, b"*2\r\n$4\r\nECHO\r\n$3\r\nhey\r\n", 0),
        bs("+hey\r\n"),
    );
}

#[test]
fn scenario_set_then_get() {
    let mut store = Store::new();
    assert_eq!(
        request(&mut store, b"*3\r\n$3\r\nSET\r\n$3\r\nfoo\r\n$3\r\nbar\r\n", 0),
        bs("+OK\r\n"),
    );
    assert_eq!(
        request(&mut store, b"*2\r\n$3\r\nGET\r\n$3\r\nfoo\r\n", 1),
        bs("$3\r\nbar\r\n"),
    );
}

#[test]
fn scenario_px_then_expired_get() {
    let mut store = Store::new();
    let now = 77_000;
    assert_eq!(
        request(&mut store, b"*5\r\n$3\r\nSET\r\n$3\r\nfoo\r\n$3\r\nbar\r\n$2\r\nPX\r\n$2\r\n50\r\n", now),
        bs("+OK\r\n"),
    );
    assert_eq!(
        request(&mut store, b"*2\r\n$3\r\nGET\r\n$3\r\nfoo\r\n", now + 100),
        bs("$-1\r\n"),
    );
}

#[test]
fn scenario_unrecognized_tag_ends_the_session() {
    let mut session = Session::new();
    session.feed(b"@foo\r\n");
    // The session reports a protocol error; the caller closes the
    // connection without crashing anything else.
    assert_eq!(session.try_next(), ParseResult::ProtocolError);
}

#[test]
fn session_commits_bytes_only_on_a_complete_frame() {
    let mut store = Store::new();
    let mut session = Session::new();
    let msg = b"*2\r\n$4\r\nECHO\r\n$3\r\nhey\r\n";
    // Deliver the request one byte at a time; each partial feed parses as
    // Incomplete and leaves the buffer for the next read to extend.
    for cut in 1..msg.len() {
        let mut s2 = Session::new();
        s2.feed(&msg[..cut]);
        assert_eq!(s2.try_next(), ParseResult::Incomplete);
    }
    for b in msg.iter() {
        session.feed(std::slice::from_ref(b));
    }
    match session.try_next() {
        ParseResult::Complete(v, n) => {
            assert_eq!(n, msg.len());
            let reply = execute_command(&v, &mut store, 0).encode();
            assert_eq!(reply, bs("+hey\r\n"));
        }
        other => panic!("expected a complete frame, got {:?}", other),
    }
}

#[test]
fn session_handles_pipelined_frames_in_order() {
    let mut store = Store::new();
    let mut session = Session::new();
    session.feed(b"*3\r\n$3\r\nSET\r\n$1\r\na\r\n$1\r\n1\r\n*2\r\n$3\r\nGET\r\n$1\r\na\r\n");
    let mut replies: Vec<Vec<u8>> = Vec::new();
    loop {
        match session.try_next() {
            ParseResult::Complete(v, _) => {
                replies.push(execute_command(&v, &mut store, 0).encode());
            }
            ParseResult::Incomplete => break,
            ParseResult::ProtocolError => panic!("unexpected protocol error"),
        }
    }
    assert_eq!(replies, vec![bs("+OK\r\n"), bs("$1\r\n1\r\n")]);
}

#[test]
fn malformed_set_reply_keeps_the_connection_usable() {
    let mut store = Store::new();
    assert_eq!(
        request(&mut store, b"*5\r\n$3\r\nSET\r\n$1\r\nk\r\n$1\r\nv\r\n$2\r\nPX\r\n$3\r\nabc\r\n", 0),
        bs("-invalid command, need valid expiry\r\n"),
    );
    // The store was not touched by the failed set.
    assert_eq!(request(&mut store, b"*2\r\n$3\r\nGET\r\n$1\r\nk\r\n", 1), bs("$-1\r\n"));
}

#[test]
fn unknown_command_replies_with_an_error_frame() {
    // The error reply names the unrecognized word as the client sent it.
    let mut store = Store::new();
    assert_eq!(
        request(&mut store, b"*1\r\n$8\r\nFLUSHALL\r\n", 0),
        bs("-unknown command: FLUSHALL\r\n"),
    );
}

#[test]
fn direct_store_calls_match_the_wire_behaviour() {
    let mut store = Store::new();
    let ok = store.set(bs("k"), bs("v"), Some(50), 1_000);
    assert_eq!(ok, Value::SimpleString(bs("OK")));
    assert_eq!(store.get(&bs("k"), 1_010), Value::BulkString(bs("v")));
    assert_eq!(store.get(&bs("k"), 1_060), Value::Null);
    assert_eq!(store.get(&bs("absent"), 0), Value::Null);
}
