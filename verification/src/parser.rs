//! The incremental frame parser: turns a byte buffer into a complete value,
//! or reports that more bytes are needed, or that the frame is malformed.

use vstd::prelude::*;
use vstd::slice::{slice_subrange, slice_to_vec};

use crate::value::{lemma_models, model, models, SpecVal, Value};

verus! {

/// Outcome of parsing at the model level: a complete value together with the
/// number of bytes it occupies, a request for more bytes, or a malformed frame.
pub enum SpecParse {
    Complete(SpecVal, int),
    Incomplete,
    ProtocolError,
}

/// Outcome of parsing a run of consecutive frames at the model level.
pub enum SpecParseN {
    Complete(Seq<SpecVal>, int),
    Incomplete,
    ProtocolError,
}

/// Position of the first CR LF pair at or after `i`, if any.
pub open spec fn find_crlf_at(s: Seq<u8>, i: int) -> Option<int>
    decreases s.len() - i,
{
    if i < 0 || i + 2 > s.len() {
        None
    } else if s[i] == 13 && s[i + 1] == 10 {
        Some(i)
    } else {
        find_crlf_at(s, i + 1)
    }
}

pub open spec fn is_digit(b: u8) -> bool {
    48 <= b <= 57
}

/// Every byte of `s` is a decimal digit.
pub open spec fn all_digits(s: Seq<u8>) -> bool {
    forall|i: int| 0 <= i < s.len() ==> is_digit(#[trigger] s[i])
}

/// A non-empty, all-digit line.
pub open spec fn is_digits(s: Seq<u8>) -> bool {
    s.len() >= 1 && all_digits(s)
}

/// Value of a digit string read as a decimal number.
pub open spec fn dec_value(s: Seq<u8>) -> int
    decreases s.len(),
{
    if s.len() == 0 {
        0
    } else {
        dec_value(s.drop_last()) * 10 + (s.last() - 48)
    }
}

/// A signed decimal line: an optional `+` or `-` sign, then digits.
pub open spec fn is_int_line(s: Seq<u8>) -> bool {
    if s.len() >= 1 && (s[0] == 45 || s[0] == 43) {
        is_digits(s.skip(1))
    } else {
        is_digits(s)
    }
}

/// Value of a signed decimal line.
pub open spec fn int_line_value(s: Seq<u8>) -> int {
    if s.len() >= 1 && s[0] == 45 {
        -dec_value(s.skip(1))
    } else if s.len() >= 1 && s[0] == 43 {
        dec_value(s.skip(1))
    } else {
        dec_value(s)
    }
}

/// Parses one frame of `s` starting at `i`: dispatch on the tag
/// byte, read a CR LF terminated line, and for arrays parse the declared
/// number of sub-frames back to back. Consumed counts are relative to `i`.
pub open spec fn spec_parse_at(s: Seq<u8>, i: int) -> SpecParse
    decreases s.len() - i, 0int, 0int,
        via spec_parse_at_decreases
{
    if i < 0 || i >= s.len() {
        SpecParse::Incomplete
    } else if s[i] == 43 {  // '+'
        match find_crlf_at(s, i + 1) {
            Some(j) => SpecParse::Complete(SpecVal::SimpleString(s.subrange(i + 1, j)), j + 2 - i),
            None => SpecParse::Incomplete,
        }
    } else if s[i] == 58 {  // ':'
        match find_crlf_at(s, i + 1) {
            Some(j) => {
                let line = s.subrange(i + 1, j);
                if is_int_line(line) && i64::MIN <= int_line_value(line) <= i64::MAX {
                    SpecParse::Complete(SpecVal::Integer(int_line_value(line)), j + 2 - i)
                } else {
                    SpecParse::ProtocolError
                }
            }
            None => SpecParse::Incomplete,
        }
    } else if s[i] == 36 {  // '$'
        match find_crlf_at(s, i + 1) {
            Some(j) => {
                let line = s.subrange(i + 1, j);
                if line == seq![45u8, 49u8] {
                    SpecParse::Complete(SpecVal::Null, j + 2 - i)
                } else if is_digits(line) && dec_value(line) <= usize::MAX {
                    let p = j + 2;
                    let len = dec_value(line);
                    if p + len + 2 <= s.len() {
                        if s[p + len] == 13 && s[p + len + 1] == 10 {
                            SpecParse::Complete(
                                SpecVal::BulkString(s.subrange(p, p + len)),
                                p + len + 2 - i,
                            )
                        } else {
                            SpecParse::ProtocolError
                        }
                    } else {
                        SpecParse::Incomplete
                    }
                } else {
                    SpecParse::ProtocolError
                }
            }
            None => SpecParse::Incomplete,
        }
    } else if s[i] == 42 {  // '*'
        match find_crlf_at(s, i + 1) {
            Some(j) => {
                let line = s.subrange(i + 1, j);
                if is_digits(line) && dec_value(line) <= usize::MAX {
                    match spec_parse_n_at(s, j + 2, dec_value(line) as nat) {
                        SpecParseN::Complete(vs, c) => SpecParse::Complete(
                            SpecVal::Array(vs),
                            j + 2 + c - i,
                        ),
                        SpecParseN::Incomplete => SpecParse::Incomplete,
                        SpecParseN::ProtocolError => SpecParse::ProtocolError,
                    }
                } else {
                    SpecParse::ProtocolError
                }
            }
            None => SpecParse::Incomplete,
        }
    } else {
        SpecParse::ProtocolError
    }
}

#[via_fn]
proof fn spec_parse_at_decreases(s: Seq<u8>, i: int) {
    if 0 <= i < s.len() {
        lemma_find_props(s, i + 1);
    }
}

/// Parses `n` consecutive frames of `s` starting at `i`.
pub open spec fn spec_parse_n_at(s: Seq<u8>, i: int, n: nat) -> SpecParseN
    decreases s.len() - i, 1int, n,
{
    if i < 0 || i > s.len() {
        SpecParseN::ProtocolError
    } else if n == 0 {
        SpecParseN::Complete(Seq::empty(), 0)
    } else {
        match spec_parse_at(s, i) {
            SpecParse::Complete(v, c) => {
                if 1 <= c && i + c <= s.len() {
                    match spec_parse_n_at(s, i + c, (n - 1) as nat) {
                        SpecParseN::Complete(vs, c2) => SpecParseN::Complete(
                            seq![v] + vs,
                            c + c2,
                        ),
                        SpecParseN::Incomplete => SpecParseN::Incomplete,
                        SpecParseN::ProtocolError => SpecParseN::ProtocolError,
                    }
                } else {
                    SpecParseN::ProtocolError
                }
            }
            SpecParse::Incomplete => SpecParseN::Incomplete,
            SpecParse::ProtocolError => SpecParseN::ProtocolError,
        }
    }
}

/// Parses the first frame of `s`: `Complete` with the value and the bytes it
/// occupies, `Incomplete` when a full frame has not arrived yet (an empty
/// buffer is `Incomplete`), or `ProtocolError` on a malformed frame.
pub open spec fn spec_parse(s: Seq<u8>) -> SpecParse {
    spec_parse_at(s, 0)
}

/// A complete frame occupies at least three bytes and lies within the buffer.
pub proof fn lemma_parse_bounds(s: Seq<u8>, i: int)
    ensures
        spec_parse_at(s, i) matches SpecParse::Complete(v, n) ==> 3 <= n && i + n <= s.len(),
    decreases s.len() - i, 0int, 0int,
{
    if 0 <= i < s.len() {
        lemma_find_props(s, i + 1);
        if let Some(j) = find_crlf_at(s, i + 1) {
            let line = s.subrange(i + 1, j);
            if is_digits(line) {
                lemma_dec_value_nonneg(line);
            }
            if s[i] == 42 && is_digits(line) && dec_value(line) <= usize::MAX {
                lemma_parse_n_bounds(s, j + 2, dec_value(line) as nat);
            }
        }
    }
}

/// A complete run of `n` frames has `n` values and lies within the buffer.
pub proof fn lemma_parse_n_bounds(s: Seq<u8>, i: int, n: nat)
    ensures
        spec_parse_n_at(s, i, n) matches SpecParseN::Complete(vs, c) ==> vs.len() == n && 0 <= c
            && i + c <= s.len(),
    decreases s.len() - i, 1int, n,
{
    if 0 <= i <= s.len() && n > 0 {
        lemma_parse_bounds(s, i);
        if let SpecParse::Complete(v, c) = spec_parse_at(s, i) {
            if 1 <= c && i + c <= s.len() {
                lemma_parse_n_bounds(s, i + c, (n - 1) as nat);
            }
        }
    }
}

/// Facts about the first CR LF at or after `i`: it is a CR LF pair, no pair
/// precedes it, and when there is none, no pair fits in the buffer.
pub proof fn lemma_find_props(s: Seq<u8>, i: int)
    requires
        0 <= i,
    ensures
        match find_crlf_at(s, i) {
            Some(j) => i <= j && j + 2 <= s.len() && s[j] == 13 && s[j + 1] == 10
                && forall|m: int| i <= m < j ==> !(#[trigger] s[m] == 13 && s[m + 1] == 10),
            None => forall|m: int| i <= m && m + 2 <= s.len() ==> !(#[trigger] s[m] == 13
                && s[m + 1] == 10),
        },
    decreases s.len() - i,
{
    if i + 2 <= s.len() && !(s[i] == 13 && s[i + 1] == 10) {
        lemma_find_props(s, i + 1);
    }
}

/// Outcome of parsing a buffer: one complete value and the number of bytes
/// it occupies, a request for more bytes, or a malformed frame.
#[derive(Debug, PartialEq)]
pub enum ParseResult {
    Complete(Value, usize),
    Incomplete,
    ProtocolError,
}

/// The model of a run-time parse outcome.
pub open spec fn parse_result_model(r: ParseResult) -> SpecParse {
    match r {
        ParseResult::Complete(v, n) => SpecParse::Complete(model(v), n as int),
        ParseResult::Incomplete => SpecParse::Incomplete,
        ParseResult::ProtocolError => SpecParse::ProtocolError,
    }
}

/// Outcome of parsing a run of consecutive frames.
enum ElemsResult {
    Complete(Vec<Value>, usize),
    Incomplete,
    ProtocolError,
}

spec fn elems_result_model(r: ElemsResult) -> SpecParseN {
    match r {
        ElemsResult::Complete(vs, c) => SpecParseN::Complete(models(vs@, 0), c as int),
        ElemsResult::Incomplete => SpecParseN::Incomplete,
        ElemsResult::ProtocolError => SpecParseN::ProtocolError,
    }
}

/// Scans for the first CR LF pair at or after `from`.
#[verifier::loop_isolation(false)]
fn find_crlf_from(buf: &[u8], from: usize) -> (r: Option<usize>)
    requires
        from <= buf@.len(),
    ensures
        match r {
            Some(j) => find_crlf_at(buf@, from as int) == Some(j as int) && from <= j && j + 2
                <= buf@.len(),
            None => find_crlf_at(buf@, from as int) is None,
        },
{
    let mut i: usize = from;
    while i < buf.len() && i + 1 < buf.len()
        invariant
            from <= i <= buf.len(),
            find_crlf_at(buf@, from as int) == find_crlf_at(buf@, i as int),
        decreases buf@.len() - i,
    {
        if buf[i] == 13 && buf[i + 1] == 10 {
            return Some(i);
        }
        i += 1;
    }
    None
}

/// Copies `buf[a..b]` into a fresh vector.
fn copy_range(buf: &[u8], a: usize, b: usize) -> (r: Vec<u8>)
    requires
        a <= b <= buf@.len(),
    ensures
        r@ == buf@.subrange(a as int, b as int),
{
    slice_to_vec(slice_subrange(buf, a, b))
}

/// Reads the digit line `buf[lo..hi]` as an unsigned length that fits a
/// `usize`; `None` when the line is not all digits or the value is too large.
#[verifier::loop_isolation(false)]
fn parse_length(buf: &[u8], lo: usize, hi: usize) -> (r: Option<usize>)
    requires
        lo <= hi <= buf@.len(),
    ensures
        ({
            let line = buf@.subrange(lo as int, hi as int);
            match r {
                Some(l) => is_digits(line) && dec_value(line) == l,
                None => !(is_digits(line) && dec_value(line) <= usize::MAX),
            }
        }),
{
    let ghost line = buf@.subrange(lo as int, hi as int);
    if lo == hi {
        return None;
    }
    let mut i: usize = lo;
    while i < hi
        invariant
            lo <= i <= hi,
            forall|k: int| 0 <= k < i - lo ==> is_digit(#[trigger] line[k]),
        decreases hi - i,
    {
        if buf[i] < 48 || buf[i] > 57 {
            assert(!is_digit(line[i - lo]));
            return None;
        }
        i += 1;
    }
    assert(all_digits(line));
    let mut acc: u128 = 0;
    i = lo;
    while i < hi
        invariant
            lo <= i <= hi,
            all_digits(line),
            acc == dec_value(line.take(i - lo)),
            acc <= usize::MAX as u128,
        decreases hi - i,
    {
        proof {
            assert(line[i - lo] == buf@[i as int]);
            assert(is_digit(buf@[i as int]));
            assert(line.take(i - lo + 1).drop_last() =~= line.take(i - lo));
            assert(line.take(i - lo + 1).last() == line[i - lo]);
        }
        let d: u128 = (buf[i] - 48) as u128;
        acc = acc * 10 + d;
        i += 1;
        if acc > usize::MAX as u128 {
            proof {
                lemma_dec_value_prefix(line, i - lo);
                assert(dec_value(line) >= dec_value(line.take(i - lo)));
            }
            return None;
        }
    }
    proof {
        assert(line.take(hi - lo) =~= line);
    }
    Some(acc as usize)
}

/// Reads the line `buf[lo..hi]` as a signed 64-bit decimal integer;
/// `None` when it is malformed or out of range.
#[verifier::loop_isolation(false)]
fn parse_i64_line(buf: &[u8], lo: usize, hi: usize) -> (r: Option<i64>)
    requires
        lo <= hi <= buf@.len(),
    ensures
        ({
            let line = buf@.subrange(lo as int, hi as int);
            match r {
                Some(v) => is_int_line(line) && int_line_value(line) == v,
                None => !(is_int_line(line) && i64::MIN <= int_line_value(line) <= i64::MAX),
            }
        }),
{
    let ghost line = buf@.subrange(lo as int, hi as int);
    if lo == hi {
        return None;
    }
    let neg: bool = buf[lo] == 45;
    let signed: bool = neg || buf[lo] == 43;
    let dlo: usize = if signed {
        lo + 1
    } else {
        lo
    };
    let ghost digits = buf@.subrange(dlo as int, hi as int);
    proof {
        if signed {
            assert(digits =~= line.skip(1));
        } else {
            assert(digits =~= line);
        }
    }
    if dlo == hi {
        return None;
    }
    let mut i: usize = dlo;
    while i < hi
        invariant
            dlo <= i <= hi,
            forall|k: int| 0 <= k < i - dlo ==> is_digit(#[trigger] digits[k]),
        decreases hi - i,
    {
        if buf[i] < 48 || buf[i] > 57 {
            assert(!is_digit(digits[i - dlo]));
            return None;
        }
        i += 1;
    }
    assert(all_digits(digits));
    let mut acc: u128 = 0;
    i = dlo;
    while i < hi
        invariant
            dlo <= i <= hi,
            all_digits(digits),
            acc == dec_value(digits.take(i - dlo)),
            acc <= 9223372036854775808u128,
        decreases hi - i,
    {
        proof {
            assert(digits[i - dlo] == buf@[i as int]);
            assert(is_digit(buf@[i as int]));
            assert(digits.take(i - dlo + 1).drop_last() =~= digits.take(i - dlo));
            assert(digits.take(i - dlo + 1).last() == digits[i - dlo]);
        }
        let d: u128 = (buf[i] - 48) as u128;
        acc = acc * 10 + d;
        i += 1;
        if acc > 9223372036854775808u128 {
            proof {
                lemma_dec_value_prefix(digits, i - dlo);
                assert(dec_value(digits) >= dec_value(digits.take(i - dlo)));
            }
            return None;
        }
    }
    proof {
        assert(digits.take(hi - dlo) =~= digits);
    }
    if neg {
        Some((-(acc as i128)) as i64)
    } else if acc <= i64::MAX as u128 {
        Some(acc as i64)
    } else {
        None
    }
}

/// Parses one frame of `buf` starting at `start`; matches `spec_parse_at`.
fn parse_at(buf: &[u8], start: usize) -> (r: ParseResult)
    requires
        start <= buf@.len(),
    ensures
        parse_result_model(r) == spec_parse_at(buf@, start as int),
    decreases buf@.len() - start, 0int,
{
    proof {
        lemma_find_props(buf@, start as int + 1);
    }
    if start >= buf.len() {
        return ParseResult::Incomplete;
    }
    let tag = buf[start];
    if tag == 43 {  // '+'
        match find_crlf_from(buf, start + 1) {
            Some(j) => {
                let line = copy_range(buf, start + 1, j);
                ParseResult::Complete(Value::SimpleString(line), j + 2 - start)
            }
            None => ParseResult::Incomplete,
        }
    } else if tag == 58 {  // ':'
        match find_crlf_from(buf, start + 1) {
            Some(j) => match parse_i64_line(buf, start + 1, j) {
                Some(v) => ParseResult::Complete(Value::Integer(v), j + 2 - start),
                None => ParseResult::ProtocolError,
            },
            None => ParseResult::Incomplete,
        }
    } else if tag == 36 {  // '$'
        match find_crlf_from(buf, start + 1) {
            Some(j) => {
                let ghost line = buf@.subrange(start as int + 1, j as int);
                if j - start == 3 && buf[start + 1] == 45 && buf[start + 2] == 49 {
                    assert(line =~= seq![45u8, 49u8]);
                    ParseResult::Complete(Value::Null, j + 2 - start)
                } else {
                    proof {
                        if line == seq![45u8, 49u8] {
                            assert(line.len() == 2);
                            assert(buf@[start as int + 1] == 45 && buf@[start as int + 2] == 49);
                        }
                    }
                    match parse_length(buf, start + 1, j) {
                        Some(l) => {
                            let p = j + 2;
                            if l <= buf.len() - p && 2 <= (buf.len() - p) - l {
                                if buf[p + l] == 13 && buf[p + l + 1] == 10 {
                                    let payload = copy_range(buf, p, p + l);
                                    ParseResult::Complete(
                                        Value::BulkString(payload),
                                        p + l + 2 - start,
                                    )
                                } else {
                                    ParseResult::ProtocolError
                                }
                            } else {
                                ParseResult::Incomplete
                            }
                        }
                        None => ParseResult::ProtocolError,
                    }
                }
            }
            None => ParseResult::Incomplete,
        }
    } else if tag == 42 {  // '*'
        match find_crlf_from(buf, start + 1) {
            Some(j) => match parse_length(buf, start + 1, j) {
                Some(count) => match parse_elems(buf, j + 2, count) {
                    ElemsResult::Complete(vs, c) => ParseResult::Complete(
                        Value::Array(vs),
                        j + 2 + c - start,
                    ),
                    ElemsResult::Incomplete => ParseResult::Incomplete,
                    ElemsResult::ProtocolError => ParseResult::ProtocolError,
                },
                None => ParseResult::ProtocolError,
            },
            None => ParseResult::Incomplete,
        }
    } else {
        ParseResult::ProtocolError
    }
}

/// Parses `n` consecutive frames starting at `start`; matches
/// `spec_parse_n_at`.
fn parse_elems(buf: &[u8], start: usize, n: usize) -> (r: ElemsResult)
    requires
        start <= buf@.len(),
    ensures
        elems_result_model(r) == spec_parse_n_at(buf@, start as int, n as nat),
        r matches ElemsResult::Complete(vs, c) ==> start + c <= buf@.len(),
    decreases buf@.len() - start, 1int,
{
    let buf_len = buf.len();
    if n == 0 {
        let vs: Vec<Value> = Vec::new();
        assert(models(vs@, 0) =~= Seq::<SpecVal>::empty());
        return ElemsResult::Complete(vs, 0);
    }
    match parse_at(buf, start) {
        ParseResult::Complete(v, c) => {
            proof {
                lemma_parse_bounds(buf@, start as int);
                assert(spec_parse_at(buf@, start as int) == SpecParse::Complete(model(v), c as int));
                assert(3 <= c && start + c <= buf_len);
            }
            match parse_elems(buf, start + c, n - 1) {
                ElemsResult::Complete(vs, c2) => {
                    assert(c + c2 <= buf_len);
                    let mut vs2 = vs;
                    vs2.insert(0, v);
                    proof {
                        assert(vs2@ =~= seq![v] + vs@);
                        lemma_models(vs2@, 0);
                        lemma_models(vs@, 0);
                        assert forall|k: int| 0 <= k < vs2@.len() implies #[trigger] models(
                            vs2@,
                            0,
                        )[k] == model(vs2@[k]) by {
                            assert(models(vs2@, 0)[k - 0] == model(vs2@[k]));
                        }
                        assert forall|k: int| 0 <= k < vs@.len() implies #[trigger] models(
                            vs@,
                            0,
                        )[k] == model(vs@[k]) by {
                            assert(models(vs@, 0)[k - 0] == model(vs@[k]));
                        }
                        assert(models(vs2@, 0) =~= seq![model(v)] + models(vs@, 0));
                    }
                    ElemsResult::Complete(vs2, c + c2)
                }
                ElemsResult::Incomplete => ElemsResult::Incomplete,
                ElemsResult::ProtocolError => ElemsResult::ProtocolError,
            }
        }
        ParseResult::Incomplete => ElemsResult::Incomplete,
        ParseResult::ProtocolError => ElemsResult::ProtocolError,
    }
}

/// Parses the first frame of `buf`, exactly as `spec_parse` describes:
/// the returned count is the frame's length in bytes, more bytes are
/// requested while the frame is still incomplete, and a malformed frame is
/// a protocol error.
pub fn parse_command(buf: &[u8]) -> (r: ParseResult)
    ensures
        parse_result_model(r) == spec_parse(buf@),
{
    parse_at(buf, 0)
}

/// Scans `buf` for the first CR LF; returns the bytes before it and the
/// number of bytes up to and including the terminator.
pub fn readline(buf: &[u8]) -> (r: Option<(&[u8], usize)>)
    ensures
        match r {
            Some(pair) => find_crlf_at(buf@, 0) == Some(pair.1 - 2) && 2 <= pair.1 <= buf@.len()
                && pair.0@ == buf@.subrange(0, pair.1 - 2),
            None => find_crlf_at(buf@, 0) is None,
        },
{
    match find_crlf_from(buf, 0) {
        Some(j) => {
            let buf_len = buf.len();
            assert(j + 2 <= buf_len);
            Some((slice_subrange(buf, 0, j), j + 2))
        }
        None => None,
    }
}

/// A digit string is non-negative.
pub proof fn lemma_dec_value_nonneg(s: Seq<u8>)
    requires
        all_digits(s),
    ensures
        dec_value(s) >= 0,
    decreases s.len(),
{
    if s.len() > 0 {
        lemma_dec_value_nonneg(s.drop_last());
    }
}

/// Reading a prefix of a digit string never overshoots the whole value.
pub proof fn lemma_dec_value_prefix(s: Seq<u8>, i: int)
    requires
        all_digits(s),
        0 <= i <= s.len(),
    ensures
        dec_value(s.take(i)) <= dec_value(s),
    decreases s.len(),
{
    if i < s.len() {
        assert(s.take(i) =~= s.drop_last().take(i));
        lemma_dec_value_prefix(s.drop_last(), i);
        lemma_dec_value_nonneg(s.drop_last());
    } else {
        assert(s.take(i) =~= s);
    }
}

} // verus!
