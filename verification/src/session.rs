//! The per-connection session core: a private inbound buffer that commits
//! bytes only once a whole frame has parsed, and the dispatch of one parsed
//! value against the store.

use vstd::prelude::*;

use crate::command::{
    command_model, msg_pong, msg_unknown_prefix, spec_msg_ok, spec_msg_pong,
    spec_msg_unknown_prefix, spec_to_command, Command,
};
use crate::parser::{
    lemma_parse_bounds, parse_command, parse_result_model, spec_parse, ParseResult, SpecParse,
};
use crate::store::{spec_expiry, spec_get, SpecEntry, Store};
use crate::value::{model, SpecVal, Value};

verus! {

/// What one command does: the reply sent back and the
/// store mapping left behind. An unrecognized command word is reported
/// back inside the error reply, as received.
pub open spec fn spec_execute(
    c: crate::command::SpecCommand,
    m: Map<Seq<u8>, SpecEntry>,
    now: u64,
) -> (SpecVal, Map<Seq<u8>, SpecEntry>) {
    match c {
        crate::command::SpecCommand::Ping(None) => (SpecVal::SimpleString(spec_msg_pong()), m),
        crate::command::SpecCommand::Ping(Some(s)) => (SpecVal::SimpleString(s), m),
        crate::command::SpecCommand::Echo(s) => (SpecVal::SimpleString(s), m),
        crate::command::SpecCommand::Put(k, v, ttl) => (
            SpecVal::SimpleString(spec_msg_ok()),
            m.insert(k, SpecEntry { value: v, expires_at: spec_expiry(ttl, now) }),
        ),
        crate::command::SpecCommand::Get(k) => (spec_get(m, k, now), m),
        crate::command::SpecCommand::Error(s) => (SpecVal::Error(s), m),
        crate::command::SpecCommand::Unknown(s) => (
            SpecVal::Error(spec_msg_unknown_prefix() + s),
            m,
        ),
    }
}

/// Interprets `value` as a command and executes it against `store` at time
/// `now` (milliseconds), returning the reply to serialize.
pub fn execute_command(value: &Value, store: &mut Store, now: u64) -> (reply: Value)
    ensures
        ({
            let (r, m2) = spec_execute(spec_to_command(model(*value)), old(store)@, now);
            model(reply) == r && final(store)@ == m2
        }),
{
    match value.to_command() {
        Command::Ping(None) => Value::SimpleString(msg_pong()),
        Command::Ping(Some(s)) => Value::SimpleString(s),
        Command::Echo(s) => Value::SimpleString(s),
        Command::Put(k, v, ttl) => store.set(k, v, ttl, now),
        Command::Get(k) => store.get(&k, now),
        Command::Error(s) => Value::Error(s),
        Command::Unknown(s) => {
            let mut m = msg_unknown_prefix();
            crate::value::push_all(&mut m, &s);
            Value::Error(m)
        }
    }
}

/// The inbound half of a connection: a private buffer of bytes read from
/// the stream but not yet consumed by the parser.
pub struct Session {
    buffer: Vec<u8>,
}

impl View for Session {
    type V = Seq<u8>;

    closed spec fn view(&self) -> Seq<u8> {
        self.buffer@
    }
}

impl Session {
    /// A session with an empty buffer.
    pub fn new() -> (s: Session)
        ensures
            s@ == Seq::<u8>::empty(),
    {
        Session { buffer: Vec::new() }
    }

    /// Appends bytes read from the stream to the buffer.
    #[verifier::loop_isolation(false)]
    pub fn feed(&mut self, data: &[u8])
        ensures
            final(self)@ == old(self)@ + data@,
    {
        let mut i: usize = 0;
        while i < data.len()
            invariant
                i <= data@.len(),
                self.buffer@ == old(self).buffer@ + data@.take(i as int),
            decreases data@.len() - i,
        {
            self.buffer.push(data[i]);
            assert(self.buffer@ =~= old(self).buffer@ + data@.take(i + 1));
            i += 1;
        }
        assert(self.buffer@ =~= old(self).buffer@ + data@);
    }

    /// Attempts to extract one complete frame from the buffer. On
    /// `Complete` the frame's bytes are discarded from the buffer; on
    /// `Incomplete` or `ProtocolError` the buffer is left untouched, so a
    /// later `feed` extends the same unparsed bytes.
    #[verifier::loop_isolation(false)]
    pub fn try_next(&mut self) -> (r: ParseResult)
        ensures
            parse_result_model(r) == spec_parse(old(self)@),
            match spec_parse(old(self)@) {
                SpecParse::Complete(v, n) => final(self)@ == old(self)@.skip(n),
                _ => final(self)@ == old(self)@,
            },
    {
        let r = parse_command(self.buffer.as_slice());
        match &r {
            ParseResult::Complete(_, n) => {
                proof {
                    lemma_parse_bounds(self.buffer@, 0);
                }
                let consumed: usize = *n;
                let mut rest: Vec<u8> = Vec::new();
                let mut i: usize = consumed;
                while i < self.buffer.len()
                    invariant
                        consumed <= i <= self.buffer@.len(),
                        rest@ == self.buffer@.subrange(consumed as int, i as int),
                    decreases self.buffer@.len() - i,
                {
                    rest.push(self.buffer[i]);
                    assert(rest@ =~= self.buffer@.subrange(consumed as int, i + 1));
                    i += 1;
                }
                self.buffer = rest;
                assert(self.buffer@ =~= old(self)@.skip(consumed as int));
            }
            _ => {}
        }
        r
    }
}

} // verus!
