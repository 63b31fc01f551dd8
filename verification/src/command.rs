//! Interpretation of a parsed value as a typed command: only an array of
//! bulk strings is a command, and the command word is matched without regard
//! to ASCII case.

use vstd::prelude::*;

use crate::parser::{all_digits, dec_value, is_digits, lemma_dec_value_prefix};
use crate::value::{lemma_models, model, models, push_all, SpecVal, Value};

verus! {

/// A typed, validated interpretation of a value, at the model level.
pub enum SpecCommand {
    Ping(Option<Seq<u8>>),
    Echo(Seq<u8>),
    Put(Seq<u8>, Seq<u8>, Option<u64>),
    Get(Seq<u8>),
    Error(Seq<u8>),
    Unknown(Seq<u8>),
}

/// A typed, validated interpretation of a value. `Put` is the protocol's
/// `SET` command; `Error` is a locally detected malformed command;
/// `Unknown` carries an unrecognized command word as received.
#[derive(Debug, PartialEq)]
pub enum Command {
    Ping(Option<Vec<u8>>),
    Echo(Vec<u8>),
    Put(Vec<u8>, Vec<u8>, Option<u64>),
    Get(Vec<u8>),
    Error(Vec<u8>),
    Unknown(Vec<u8>),
}

/// The model of a run-time command.
pub open spec fn command_model(c: Command) -> SpecCommand {
    match c {
        Command::Ping(None) => SpecCommand::Ping(None),
        Command::Ping(Some(m)) => SpecCommand::Ping(Some(m@)),
        Command::Echo(m) => SpecCommand::Echo(m@),
        Command::Put(k, v, t) => SpecCommand::Put(k@, v@, t),
        Command::Get(k) => SpecCommand::Get(k@),
        Command::Error(m) => SpecCommand::Error(m@),
        Command::Unknown(m) => SpecCommand::Unknown(m@),
    }
}

/// ASCII lower-casing of one byte.
pub open spec fn lower(b: u8) -> u8 {
    if 65 <= b && b <= 90 {
        (b + 32) as u8
    } else {
        b
    }
}

/// ASCII lower-casing of a byte string.
pub open spec fn lower_seq(s: Seq<u8>) -> Seq<u8> {
    Seq::new(s.len(), |i: int| lower(s[i]))
}

/// The command word "ping".
pub open spec fn name_ping() -> Seq<u8> {
    seq![112u8, 105u8, 110u8, 103u8]
}

/// Builds the bytes of `name_ping`.
pub fn lit_ping() -> (r: Vec<u8>)
    ensures
        r@ == name_ping(),
{
    let mut r: Vec<u8> = Vec::new();
    r.push(112);
    r.push(105);
    r.push(110);
    r.push(103);
    assert(r@ =~= name_ping());
    r
}

/// The command word "echo".
pub open spec fn name_echo() -> Seq<u8> {
    seq![101u8, 99u8, 104u8, 111u8]
}

/// Builds the bytes of `name_echo`.
pub fn lit_echo() -> (r: Vec<u8>)
    ensures
        r@ == name_echo(),
{
    let mut r: Vec<u8> = Vec::new();
    r.push(101);
    r.push(99);
    r.push(104);
    r.push(111);
    assert(r@ =~= name_echo());
    r
}

/// The command word "set".
pub open spec fn name_set() -> Seq<u8> {
    seq![115u8, 101u8, 116u8]
}

/// Builds the bytes of `name_set`.
pub fn lit_set() -> (r: Vec<u8>)
    ensures
        r@ == name_set(),
{
    let mut r: Vec<u8> = Vec::new();
    r.push(115);
    r.push(101);
    r.push(116);
    assert(r@ =~= name_set());
    r
}

/// The command word "get".
pub open spec fn name_get() -> Seq<u8> {
    seq![103u8, 101u8, 116u8]
}

/// Builds the bytes of `name_get`.
pub fn lit_get() -> (r: Vec<u8>)
    ensures
        r@ == name_get(),
{
    let mut r: Vec<u8> = Vec::new();
    r.push(103);
    r.push(101);
    r.push(116);
    assert(r@ =~= name_get());
    r
}

/// The expiry option word "px".
pub open spec fn name_px() -> Seq<u8> {
    seq![112u8, 120u8]
}

/// Builds the bytes of `name_px`.
pub fn lit_px() -> (r: Vec<u8>)
    ensures
        r@ == name_px(),
{
    let mut r: Vec<u8> = Vec::new();
    r.push(112);
    r.push(120);
    assert(r@ =~= name_px());
    r
}

/// Reply text for a malformed command.
pub open spec fn spec_msg_invalid() -> Seq<u8> {
    seq![105u8, 110u8, 118u8, 97u8, 108u8, 105u8, 100u8, 32u8, 99u8, 111u8, 109u8, 109u8, 97u8, 110u8, 100u8]
}

/// Builds the bytes of `spec_msg_invalid`.
pub fn msg_invalid() -> (r: Vec<u8>)
    ensures
        r@ == spec_msg_invalid(),
{
    let mut r: Vec<u8> = Vec::new();
    r.push(105);
    r.push(110);
    r.push(118);
    r.push(97);
    r.push(108);
    r.push(105);
    r.push(100);
    r.push(32);
    r.push(99);
    r.push(111);
    r.push(109);
    r.push(109);
    r.push(97);
    r.push(110);
    r.push(100);
    assert(r@ =~= spec_msg_invalid());
    r
}

/// Reply text for an echo without a message.
pub open spec fn spec_msg_need_message() -> Seq<u8> {
    seq![105u8, 110u8, 118u8, 97u8, 108u8, 105u8, 100u8, 32u8, 99u8, 111u8, 109u8, 109u8, 97u8, 110u8, 100u8, 44u8, 32u8, 110u8, 101u8, 101u8, 100u8, 32u8, 109u8, 101u8, 115u8, 115u8, 97u8, 103u8, 101u8]
}

/// Builds the bytes of `spec_msg_need_message`.
pub fn msg_need_message() -> (r: Vec<u8>)
    ensures
        r@ == spec_msg_need_message(),
{
    let mut r: Vec<u8> = Vec::new();
    r.push(105);
    r.push(110);
    r.push(118);
    r.push(97);
    r.push(108);
    r.push(105);
    r.push(100);
    r.push(32);
    r.push(99);
    r.push(111);
    r.push(109);
    r.push(109);
    r.push(97);
    r.push(110);
    r.push(100);
    r.push(44);
    r.push(32);
    r.push(110);
    r.push(101);
    r.push(101);
    r.push(100);
    r.push(32);
    r.push(109);
    r.push(101);
    r.push(115);
    r.push(115);
    r.push(97);
    r.push(103);
    r.push(101);
    assert(r@ =~= spec_msg_need_message());
    r
}

/// Reply text for a set without a value.
pub open spec fn spec_msg_need_value() -> Seq<u8> {
    seq![105u8, 110u8, 118u8, 97u8, 108u8, 105u8, 100u8, 32u8, 99u8, 111u8, 109u8, 109u8, 97u8, 110u8, 100u8, 44u8, 32u8, 110u8, 101u8, 101u8, 100u8, 32u8, 118u8, 97u8, 108u8, 117u8, 101u8]
}

/// Builds the bytes of `spec_msg_need_value`.
pub fn msg_need_value() -> (r: Vec<u8>)
    ensures
        r@ == spec_msg_need_value(),
{
    let mut r: Vec<u8> = Vec::new();
    r.push(105);
    r.push(110);
    r.push(118);
    r.push(97);
    r.push(108);
    r.push(105);
    r.push(100);
    r.push(32);
    r.push(99);
    r.push(111);
    r.push(109);
    r.push(109);
    r.push(97);
    r.push(110);
    r.push(100);
    r.push(44);
    r.push(32);
    r.push(110);
    r.push(101);
    r.push(101);
    r.push(100);
    r.push(32);
    r.push(118);
    r.push(97);
    r.push(108);
    r.push(117);
    r.push(101);
    assert(r@ =~= spec_msg_need_value());
    r
}

/// Reply text for a set without key and value.
pub open spec fn spec_msg_need_key_value() -> Seq<u8> {
    seq![105u8, 110u8, 118u8, 97u8, 108u8, 105u8, 100u8, 32u8, 99u8, 111u8, 109u8, 109u8, 97u8, 110u8, 100u8, 44u8, 32u8, 110u8, 101u8, 101u8, 100u8, 32u8, 107u8, 101u8, 121u8, 32u8, 97u8, 110u8, 100u8, 32u8, 118u8, 97u8, 108u8, 117u8, 101u8]
}

/// Builds the bytes of `spec_msg_need_key_value`.
pub fn msg_need_key_value() -> (r: Vec<u8>)
    ensures
        r@ == spec_msg_need_key_value(),
{
    let mut r: Vec<u8> = Vec::new();
    r.push(105);
    r.push(110);
    r.push(118);
    r.push(97);
    r.push(108);
    r.push(105);
    r.push(100);
    r.push(32);
    r.push(99);
    r.push(111);
    r.push(109);
    r.push(109);
    r.push(97);
    r.push(110);
    r.push(100);
    r.push(44);
    r.push(32);
    r.push(110);
    r.push(101);
    r.push(101);
    r.push(100);
    r.push(32);
    r.push(107);
    r.push(101);
    r.push(121);
    r.push(32);
    r.push(97);
    r.push(110);
    r.push(100);
    r.push(32);
    r.push(118);
    r.push(97);
    r.push(108);
    r.push(117);
    r.push(101);
    assert(r@ =~= spec_msg_need_key_value());
    r
}

/// Reply text for a get without a key.
pub open spec fn spec_msg_need_key() -> Seq<u8> {
    seq![105u8, 110u8, 118u8, 97u8, 108u8, 105u8, 100u8, 32u8, 99u8, 111u8, 109u8, 109u8, 97u8, 110u8, 100u8, 44u8, 32u8, 110u8, 101u8, 101u8, 100u8, 32u8, 107u8, 101u8, 121u8]
}

/// Builds the bytes of `spec_msg_need_key`.
pub fn msg_need_key() -> (r: Vec<u8>)
    ensures
        r@ == spec_msg_need_key(),
{
    let mut r: Vec<u8> = Vec::new();
    r.push(105);
    r.push(110);
    r.push(118);
    r.push(97);
    r.push(108);
    r.push(105);
    r.push(100);
    r.push(32);
    r.push(99);
    r.push(111);
    r.push(109);
    r.push(109);
    r.push(97);
    r.push(110);
    r.push(100);
    r.push(44);
    r.push(32);
    r.push(110);
    r.push(101);
    r.push(101);
    r.push(100);
    r.push(32);
    r.push(107);
    r.push(101);
    r.push(121);
    assert(r@ =~= spec_msg_need_key());
    r
}

/// Reply text for a set whose expiry is not a number.
pub open spec fn spec_msg_need_expiry() -> Seq<u8> {
    seq![105u8, 110u8, 118u8, 97u8, 108u8, 105u8, 100u8, 32u8, 99u8, 111u8, 109u8, 109u8, 97u8, 110u8, 100u8, 44u8, 32u8, 110u8, 101u8, 101u8, 100u8, 32u8, 118u8, 97u8, 108u8, 105u8, 100u8, 32u8, 101u8, 120u8, 112u8, 105u8, 114u8, 121u8]
}

/// Builds the bytes of `spec_msg_need_expiry`.
pub fn msg_need_expiry() -> (r: Vec<u8>)
    ensures
        r@ == spec_msg_need_expiry(),
{
    let mut r: Vec<u8> = Vec::new();
    r.push(105);
    r.push(110);
    r.push(118);
    r.push(97);
    r.push(108);
    r.push(105);
    r.push(100);
    r.push(32);
    r.push(99);
    r.push(111);
    r.push(109);
    r.push(109);
    r.push(97);
    r.push(110);
    r.push(100);
    r.push(44);
    r.push(32);
    r.push(110);
    r.push(101);
    r.push(101);
    r.push(100);
    r.push(32);
    r.push(118);
    r.push(97);
    r.push(108);
    r.push(105);
    r.push(100);
    r.push(32);
    r.push(101);
    r.push(120);
    r.push(112);
    r.push(105);
    r.push(114);
    r.push(121);
    assert(r@ =~= spec_msg_need_expiry());
    r
}

/// Reply text for a frame that is not an array.
pub open spec fn spec_msg_not_array() -> Seq<u8> {
    seq![69u8, 114u8, 114u8, 111u8, 114u8, 58u8, 32u8, 78u8, 111u8, 116u8, 32u8, 65u8, 114u8, 114u8, 97u8, 121u8]
}

/// Builds the bytes of `spec_msg_not_array`.
pub fn msg_not_array() -> (r: Vec<u8>)
    ensures
        r@ == spec_msg_not_array(),
{
    let mut r: Vec<u8> = Vec::new();
    r.push(69);
    r.push(114);
    r.push(114);
    r.push(111);
    r.push(114);
    r.push(58);
    r.push(32);
    r.push(78);
    r.push(111);
    r.push(116);
    r.push(32);
    r.push(65);
    r.push(114);
    r.push(114);
    r.push(97);
    r.push(121);
    assert(r@ =~= spec_msg_not_array());
    r
}

/// Prefix of the reply text for an unrecognized command word.
pub open spec fn spec_msg_unknown_prefix() -> Seq<u8> {
    seq![117u8, 110u8, 107u8, 110u8, 111u8, 119u8, 110u8, 32u8, 99u8, 111u8, 109u8, 109u8, 97u8, 110u8, 100u8, 58u8, 32u8]
}

/// Builds the bytes of `spec_msg_unknown_prefix`.
pub fn msg_unknown_prefix() -> (r: Vec<u8>)
    ensures
        r@ == spec_msg_unknown_prefix(),
{
    let mut r: Vec<u8> = Vec::new();
    r.push(117);
    r.push(110);
    r.push(107);
    r.push(110);
    r.push(111);
    r.push(119);
    r.push(110);
    r.push(32);
    r.push(99);
    r.push(111);
    r.push(109);
    r.push(109);
    r.push(97);
    r.push(110);
    r.push(100);
    r.push(58);
    r.push(32);
    assert(r@ =~= spec_msg_unknown_prefix());
    r
}

/// Reply text for a bare ping.
pub open spec fn spec_msg_pong() -> Seq<u8> {
    seq![80u8, 79u8, 78u8, 71u8]
}

/// Builds the bytes of `spec_msg_pong`.
pub fn msg_pong() -> (r: Vec<u8>)
    ensures
        r@ == spec_msg_pong(),
{
    let mut r: Vec<u8> = Vec::new();
    r.push(80);
    r.push(79);
    r.push(78);
    r.push(71);
    assert(r@ =~= spec_msg_pong());
    r
}

/// Reply text for a successful set.
pub open spec fn spec_msg_ok() -> Seq<u8> {
    seq![79u8, 75u8]
}

/// Builds the bytes of `spec_msg_ok`.
pub fn msg_ok() -> (r: Vec<u8>)
    ensures
        r@ == spec_msg_ok(),
{
    let mut r: Vec<u8> = Vec::new();
    r.push(79);
    r.push(75);
    assert(r@ =~= spec_msg_ok());
    r
}

/// An unsigned decimal line as `u64::from_str` accepts it: an optional `+`
/// sign, then digits.
pub open spec fn is_u64_line(s: Seq<u8>) -> bool {
    if s.len() >= 1 && s[0] == 43 {
        is_digits(s.skip(1))
    } else {
        is_digits(s)
    }
}

/// Value of an unsigned decimal line.
pub open spec fn u64_line_value(s: Seq<u8>) -> int {
    if s.len() >= 1 && s[0] == 43 {
        dec_value(s.skip(1))
    } else {
        dec_value(s)
    }
}

/// Dispatch on the command word `name`, matched without regard to ASCII
/// case. `items` is the whole command array; each command demands its exact
/// arity (PING takes zero arguments or one, ECHO and GET exactly one), and
/// any other shape is a local error. An unrecognized word is carried in
/// `Unknown` as received.
pub open spec fn spec_dispatch(name: Seq<u8>, items: Seq<SpecVal>) -> SpecCommand {
    let ln = lower_seq(name);
    if ln == name_ping() {
        if items.len() == 1 {
            SpecCommand::Ping(None)
        } else if items.len() == 2 {
            match items[1] {
                SpecVal::BulkString(m) => SpecCommand::Ping(Some(m)),
                _ => SpecCommand::Error(spec_msg_invalid()),
            }
        } else {
            SpecCommand::Error(spec_msg_invalid())
        }
    } else if ln == name_echo() {
        if items.len() == 2 {
            match items[1] {
                SpecVal::BulkString(m) => SpecCommand::Echo(m),
                _ => SpecCommand::Error(spec_msg_need_message()),
            }
        } else {
            SpecCommand::Error(spec_msg_need_message())
        }
    } else if ln == name_set() {
        spec_dispatch_set(items)
    } else if ln == name_get() {
        if items.len() == 2 {
            match items[1] {
                SpecVal::BulkString(k) => SpecCommand::Get(k),
                _ => SpecCommand::Error(spec_msg_need_key()),
            }
        } else {
            SpecCommand::Error(spec_msg_need_key())
        }
    } else {
        SpecCommand::Unknown(name)
    }
}

/// The only shapes a `set` accepts: `SET key value` and
/// `SET key value PX ms`, with `PX` matched case-insensitively and `ms` a
/// decimal number of milliseconds; any other arity or shape is a local
/// error. A malformed expiry is a command-level error.
pub open spec fn spec_dispatch_set(items: Seq<SpecVal>) -> SpecCommand {
    if items.len() == 5 && items[1] is BulkString && items[2] is BulkString && items[3]
        is BulkString && items[4] is BulkString && lower_seq(items[3]->BulkString_0)
        == name_px() {
        let e = items[4]->BulkString_0;
        if is_u64_line(e) && u64_line_value(e) <= u64::MAX {
            SpecCommand::Put(
                items[1]->BulkString_0,
                items[2]->BulkString_0,
                Some(u64_line_value(e) as u64),
            )
        } else {
            SpecCommand::Error(spec_msg_need_expiry())
        }
    } else if items.len() == 3 && items[1] is BulkString && items[2] is BulkString {
        SpecCommand::Put(items[1]->BulkString_0, items[2]->BulkString_0, None)
    } else if items.len() == 2 && items[1] is BulkString {
        SpecCommand::Error(spec_msg_need_value())
    } else {
        SpecCommand::Error(spec_msg_need_key_value())
    }
}

/// Interpretation of a value as a command: only an array whose
/// first element is a bulk string is dispatched; anything else is a local
/// error.
pub open spec fn spec_to_command(v: SpecVal) -> SpecCommand {
    match v {
        SpecVal::Array(items) => {
            if items.len() == 0 {
                SpecCommand::Error(spec_msg_invalid())
            } else {
                match items[0] {
                    SpecVal::BulkString(name) => spec_dispatch(name, items),
                    _ => SpecCommand::Error(spec_msg_invalid()),
                }
            }
        }
        _ => SpecCommand::Error(spec_msg_not_array()),
    }
}

/// ASCII lower-casing, byte for byte.
pub fn to_lower_bytes(v: &Vec<u8>) -> (r: Vec<u8>)
    ensures
        r@ == lower_seq(v@),
{
    let mut r: Vec<u8> = Vec::new();
    let mut i: usize = 0;
    while i < v.len()
        invariant
            i <= v.len(),
            r@.len() == i,
            forall|k: int| 0 <= k < i ==> r@[k] == lower(v@[k]),
        decreases v.len() - i,
    {
        let b = v[i];
        if 65 <= b && b <= 90 {
            r.push(b + 32);
        } else {
            r.push(b);
        }
        i += 1;
    }
    assert(r@ =~= lower_seq(v@));
    r
}

/// Byte-for-byte equality of two byte strings.
pub fn bytes_eq(a: &Vec<u8>, b: &Vec<u8>) -> (r: bool)
    ensures
        r == (a@ == b@),
{
    if a.len() != b.len() {
        return false;
    }
    let mut i: usize = 0;
    while i < a.len()
        invariant
            i <= a.len(),
            a@.len() == b@.len(),
            forall|k: int| 0 <= k < i ==> a@[k] == b@[k],
        decreases a.len() - i,
    {
        if a[i] != b[i] {
            assert(a@[i as int] != b@[i as int]);
            return false;
        }
        i += 1;
    }
    assert(a@ =~= b@);
    true
}

/// A fresh copy of a byte string.
pub fn clone_bytes(v: &Vec<u8>) -> (r: Vec<u8>)
    ensures
        r@ == v@,
{
    let mut r: Vec<u8> = Vec::new();
    push_all(&mut r, v);
    assert(r@ =~= v@);
    r
}

/// Reads a whole byte string as an unsigned 64-bit decimal, as
/// `u64::from_str` would; `None` when it is malformed or too large.
#[verifier::loop_isolation(false)]
fn parse_u64_bytes(e: &Vec<u8>) -> (r: Option<u64>)
    ensures
        match r {
            Some(x) => is_u64_line(e@) && u64_line_value(e@) == x,
            None => !(is_u64_line(e@) && u64_line_value(e@) <= u64::MAX),
        },
{
    let n = e.len();
    if n == 0 {
        return None;
    }
    let dlo: usize = if e[0] == 43 {
        1
    } else {
        0
    };
    let ghost digits = e@.skip(dlo as int);
    proof {
        if dlo == 1 {
            assert(digits =~= e@.skip(1));
        } else {
            assert(digits =~= e@);
        }
    }
    if dlo == n {
        return None;
    }
    let mut i: usize = dlo;
    while i < n
        invariant
            dlo <= i <= n,
            forall|k: int| 0 <= k < i - dlo ==> crate::parser::is_digit(#[trigger] digits[k]),
        decreases n - i,
    {
        if e[i] < 48 || e[i] > 57 {
            assert(!crate::parser::is_digit(digits[i - dlo]));
            return None;
        }
        i += 1;
    }
    assert(all_digits(digits));
    let mut acc: u128 = 0;
    i = dlo;
    while i < n
        invariant
            dlo <= i <= n,
            all_digits(digits),
            acc == dec_value(digits.take(i - dlo)),
            acc <= u64::MAX as u128,
        decreases n - i,
    {
        proof {
            assert(digits[i - dlo] == e@[i as int]);
            assert(crate::parser::is_digit(e@[i as int]));
            assert(digits.take(i - dlo + 1).drop_last() =~= digits.take(i - dlo));
            assert(digits.take(i - dlo + 1).last() == digits[i - dlo]);
        }
        let d: u128 = (e[i] - 48) as u128;
        acc = acc * 10 + d;
        i += 1;
        if acc > u64::MAX as u128 {
            proof {
                lemma_dec_value_prefix(digits, i - dlo);
                assert(dec_value(digits) >= dec_value(digits.take(i - dlo)));
            }
            return None;
        }
    }
    proof {
        assert(digits.take(n - dlo) =~= digits);
    }
    Some(acc as u64)
}

impl Value {
    /// Interprets this value as a command, exactly as `spec_to_command`
    /// describes.
    pub fn to_command(&self) -> (c: Command)
        ensures
            command_model(c) == spec_to_command(model(*self)),
    {
        match self {
            Value::Array(items) => {
                proof {
                    lemma_models(items@, 0);
                }
                if items.len() == 0 {
                    return Command::Error(msg_invalid());
                }
                match &items[0] {
                    Value::BulkString(name) => self.dispatch(name, items),
                    _ => Command::Error(msg_invalid()),
                }
            }
            _ => Command::Error(msg_not_array()),
        }
    }

    /// Dispatches on the command word, matched without regard to case.
    fn dispatch(&self, name: &Vec<u8>, items: &Vec<Value>) -> (c: Command)
        requires
            items@.len() >= 1,
        ensures
            command_model(c) == spec_dispatch(name@, models(items@, 0)),
    {
        proof {
            lemma_models(items@, 0);
        }
        let ghost mitems = models(items@, 0);
        let ln = to_lower_bytes(name);
        if bytes_eq(&ln, &lit_ping()) {
            if items.len() == 1 {
                Command::Ping(None)
            } else if items.len() == 2 {
                match &items[1] {
                    Value::BulkString(m) => Command::Ping(Some(clone_bytes(m))),
                    _ => Command::Error(msg_invalid()),
                }
            } else {
                Command::Error(msg_invalid())
            }
        } else if bytes_eq(&ln, &lit_echo()) {
            if items.len() == 2 {
                match &items[1] {
                    Value::BulkString(m) => Command::Echo(clone_bytes(m)),
                    _ => Command::Error(msg_need_message()),
                }
            } else {
                Command::Error(msg_need_message())
            }
        } else if bytes_eq(&ln, &lit_set()) {
            if items.len() == 5 {
                match (&items[1], &items[2], &items[3], &items[4]) {
                    (
                        Value::BulkString(k),
                        Value::BulkString(v),
                        Value::BulkString(p),
                        Value::BulkString(e),
                    ) => {
                        let lp = to_lower_bytes(p);
                        if bytes_eq(&lp, &lit_px()) {
                            match parse_u64_bytes(e) {
                                Some(ms) => Command::Put(clone_bytes(k), clone_bytes(v), Some(ms)),
                                None => Command::Error(msg_need_expiry()),
                            }
                        } else {
                            Command::Error(msg_need_key_value())
                        }
                    }
                    _ => Command::Error(msg_need_key_value()),
                }
            } else if items.len() == 3 {
                match (&items[1], &items[2]) {
                    (Value::BulkString(k), Value::BulkString(v)) => Command::Put(
                        clone_bytes(k),
                        clone_bytes(v),
                        None,
                    ),
                    _ => Command::Error(msg_need_key_value()),
                }
            } else if items.len() == 2 {
                match &items[1] {
                    Value::BulkString(_) => Command::Error(msg_need_value()),
                    _ => Command::Error(msg_need_key_value()),
                }
            } else {
                Command::Error(msg_need_key_value())
            }
        } else if bytes_eq(&ln, &lit_get()) {
            if items.len() == 2 {
                match &items[1] {
                    Value::BulkString(k) => Command::Get(clone_bytes(k)),
                    _ => Command::Error(msg_need_key()),
                }
            } else {
                Command::Error(msg_need_key())
            }
        } else {
            Command::Unknown(clone_bytes(name))
        }
    }
}

/// Case-insensitive dispatch: two commands whose words agree up to ASCII
/// case, with the same arguments, mean the same thing; an unrecognized
/// word is carried as received, so there the two results differ in that
/// word alone.
pub proof fn lemma_case_insensitive(n1: Seq<u8>, n2: Seq<u8>, rest: Seq<SpecVal>)
    requires
        lower_seq(n1) == lower_seq(n2),
    ensures
        ({
            let c1 = spec_to_command(SpecVal::Array(seq![SpecVal::BulkString(n1)] + rest));
            let c2 = spec_to_command(SpecVal::Array(seq![SpecVal::BulkString(n2)] + rest));
            ||| c1 == c2
            ||| (c1 == SpecCommand::Unknown(n1) && c2 == SpecCommand::Unknown(n2))
        }),
{
    let i1 = seq![SpecVal::BulkString(n1)] + rest;
    let i2 = seq![SpecVal::BulkString(n2)] + rest;
    assert(i1.len() == i2.len());
    assert(i1[0] == SpecVal::BulkString(n1));
    assert(i2[0] == SpecVal::BulkString(n2));
    assert(forall|k: int| 1 <= k < i1.len() ==> i1[k] == #[trigger] i2[k]);
}

} // verus!
