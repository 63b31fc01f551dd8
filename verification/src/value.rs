//! The protocol's tagged value model and its exact wire encoding.

use vstd::prelude::*;

verus! {

/// Mathematical model of a protocol value. Payloads are byte sequences;
/// integers are unbounded at the model level.
pub enum SpecVal {
    SimpleString(Seq<u8>),
    Error(Seq<u8>),
    Integer(int),
    BulkString(Seq<u8>),
    Array(Seq<SpecVal>),
    Null,
}

/// A protocol value as held at run time. Payloads are raw bytes: bulk
/// strings are length-prefixed on the wire and therefore binary-safe.
#[derive(Debug, PartialEq)]
pub enum Value {
    SimpleString(Vec<u8>),
    Error(Vec<u8>),
    Integer(i64),
    BulkString(Vec<u8>),
    Array(Vec<Value>),
    Null,
}

/// The model of a run-time value.
pub open spec fn model(v: Value) -> SpecVal
    decreases v, 0int,
{
    match v {
        Value::SimpleString(s) => SpecVal::SimpleString(s@),
        Value::Error(s) => SpecVal::Error(s@),
        Value::Integer(i) => SpecVal::Integer(i as int),
        Value::BulkString(b) => SpecVal::BulkString(b@),
        Value::Array(vs) => SpecVal::Array(models(vs@, 0)),
        Value::Null => SpecVal::Null,
    }
}

/// The models of the values `vs[i..]`, in order.
pub open spec fn models(vs: Seq<Value>, i: int) -> Seq<SpecVal>
    decreases vs, vs.len() - i,
{
    if i < 0 || i >= vs.len() {
        Seq::empty()
    } else {
        seq![model(vs[i])] + models(vs, i + 1)
    }
}

/// `models(vs, i)` has one model per remaining value, in order.
pub proof fn lemma_models(vs: Seq<Value>, i: int)
    requires
        0 <= i <= vs.len(),
    ensures
        models(vs, i).len() == vs.len() - i,
        forall|k: int| i <= k < vs.len() ==> models(vs, i)[k - i] == model(vs[k]),
    decreases vs.len() - i,
{
    if i < vs.len() {
        lemma_models(vs, i + 1);
    }
}

/// Decimal digits of `n`, most significant first, no sign, no leading zeros
/// (except for `n == 0`, which is the single digit `0`).
pub open spec fn dec_digits(n: nat) -> Seq<u8>
    decreases n,
{
    if n < 10 {
        seq![(48 + n) as u8]
    } else {
        dec_digits(n / 10).push((48 + n % 10) as u8)
    }
}

/// Decimal form of a signed integer: a leading `-` for negative values.
pub open spec fn dec_int(i: int) -> Seq<u8> {
    if i < 0 {
        seq![45u8] + dec_digits((-i) as nat)
    } else {
        dec_digits(i as nat)
    }
}

/// The two-byte line terminator CR LF.
pub open spec fn crlf() -> Seq<u8> {
    seq![13u8, 10u8]
}

/// Exact wire encoding of a value:
/// `+s\r\n`, `-s\r\n`, `:i\r\n`, `$len\r\n<bytes>\r\n`, `$-1\r\n` for Null,
/// and `*count\r\n` followed by each element's encoding.
pub open spec fn spec_encode(v: SpecVal) -> Seq<u8>
    decreases v, 0int,
{
    match v {
        SpecVal::SimpleString(s) => seq![43u8] + s + crlf(),
        SpecVal::Error(s) => seq![45u8] + s + crlf(),
        SpecVal::Integer(i) => seq![58u8] + dec_int(i) + crlf(),
        SpecVal::BulkString(b) => seq![36u8] + dec_digits(b.len()) + crlf() + b + crlf(),
        SpecVal::Array(vs) => seq![42u8] + dec_digits(vs.len()) + crlf() + spec_encode_elems(vs, 0),
        SpecVal::Null => seq![36u8, 45u8, 49u8, 13u8, 10u8],
    }
}

/// Concatenated encodings of the elements `vs[i..]`.
pub open spec fn spec_encode_elems(vs: Seq<SpecVal>, i: int) -> Seq<u8>
    decreases vs, vs.len() - i,
{
    if i < 0 || i >= vs.len() {
        Seq::empty()
    } else {
        spec_encode(vs[i]) + spec_encode_elems(vs, i + 1)
    }
}

/// Whether `s` contains the two-byte sequence CR LF.
pub open spec fn contains_crlf(s: Seq<u8>) -> bool {
    exists|i: int| 0 <= i && i + 1 < s.len() && #[trigger] s[i] == 13 && s[i + 1] == 10
}

/// The values the wire format can carry faithfully: line-delimited payloads must not
/// embed CR LF, integers must fit a signed 64-bit word, and declared
/// lengths must be representable.
pub open spec fn encodable(v: SpecVal) -> bool
    decreases v, 0int,
{
    match v {
        SpecVal::SimpleString(s) => !contains_crlf(s),
        SpecVal::Error(s) => !contains_crlf(s),
        SpecVal::Integer(i) => i64::MIN <= i <= i64::MAX,
        SpecVal::BulkString(b) => b.len() <= usize::MAX,
        SpecVal::Array(vs) => vs.len() <= usize::MAX && encodable_elems(vs, 0),
        SpecVal::Null => true,
    }
}

/// All of `vs[i..]` are encodable.
pub open spec fn encodable_elems(vs: Seq<SpecVal>, i: int) -> bool
    decreases vs, vs.len() - i,
{
    if i < 0 || i >= vs.len() {
        true
    } else {
        encodable(vs[i]) && encodable_elems(vs, i + 1)
    }
}

/// The values whose wire form the parser recognizes. The parser dispatches
/// on the tags `*`, `$`, `+` and `:` only, so an error frame (tag `-`),
/// while encodable, is not parseable.
pub open spec fn decodable(v: SpecVal) -> bool
    decreases v, 0int,
{
    match v {
        SpecVal::Error(_) => false,
        SpecVal::Array(vs) => decodable_elems(vs, 0),
        _ => true,
    }
}

/// All of `vs[i..]` are decodable.
pub open spec fn decodable_elems(vs: Seq<SpecVal>, i: int) -> bool
    decreases vs, vs.len() - i,
{
    if i < 0 || i >= vs.len() {
        true
    } else {
        decodable(vs[i]) && decodable_elems(vs, i + 1)
    }
}

/// Appends the decimal digits of `n` to `out`.
fn push_decimal(out: &mut Vec<u8>, n: u64)
    ensures
        final(out)@ == old(out)@ + dec_digits(n as nat),
    decreases n,
{
    if n < 10 {
        out.push((48 + n) as u8);
    } else {
        push_decimal(out, n / 10);
        out.push((48 + (n % 10)) as u8);
    }
    assert(out@ =~= old(out)@ + dec_digits(n as nat));
}

impl Value {
    /// Serializes the value into `out`, appending its exact wire form.
    #[verifier::loop_isolation(false)]
    fn encode_into(&self, out: &mut Vec<u8>)
        ensures
            final(out)@ == old(out)@ + spec_encode(model(*self)),
        decreases self,
    {
        match self {
            Value::SimpleString(s) => {
                out.push(43);
                push_all(out, s);
                out.push(13);
                out.push(10);
                assert(out@ =~= old(out)@ + spec_encode(model(*self)));
            }
            Value::Error(s) => {
                out.push(45);
                push_all(out, s);
                out.push(13);
                out.push(10);
                assert(out@ =~= old(out)@ + spec_encode(model(*self)));
            }
            Value::Integer(i) => {
                out.push(58);
                if *i < 0 {
                    out.push(45);
                    let m: u64 = (-(*i as i128)) as u64;
                    push_decimal(out, m);
                } else {
                    push_decimal(out, *i as u64);
                }
                out.push(13);
                out.push(10);
                assert(out@ =~= old(out)@ + spec_encode(model(*self)));
            }
            Value::BulkString(b) => {
                out.push(36);
                push_decimal(out, b.len() as u64);
                out.push(13);
                out.push(10);
                push_all(out, b);
                out.push(13);
                out.push(10);
                assert(out@ =~= old(out)@ + spec_encode(model(*self)));
            }
            Value::Null => {
                out.push(36);
                out.push(45);
                out.push(49);
                out.push(13);
                out.push(10);
                assert(out@ =~= old(out)@ + spec_encode(model(*self)));
            }
            Value::Array(vs) => {
                out.push(42);
                push_decimal(out, vs.len() as u64);
                out.push(13);
                out.push(10);
                let ghost dvs = models(vs@, 0);
                let ghost target = old(out)@ + spec_encode(model(*self));
                proof {
                    lemma_models(vs@, 0);
                }
                assert(out@ + spec_encode_elems(dvs, 0) =~= target);
                let mut j: usize = 0;
                while j < vs.len()
                    invariant
                        j <= vs.len(),
                        dvs == models(vs@, 0),
                        out@ + spec_encode_elems(dvs, j as int) == target,
                    decreases vs.len() - j,
                {
                    let ghost pre = out@;
                    vs[j].encode_into(out);
                    proof {
                        lemma_models(vs@, 0);
                        assert(model(vs@[j as int]) == dvs[j as int]);
                    }
                    assert(out@ + spec_encode_elems(dvs, j + 1) =~= pre
                        + spec_encode_elems(dvs, j as int));
                    j += 1;
                }
                assert(spec_encode_elems(dvs, vs.len() as int) =~= Seq::<u8>::empty());
                assert(out@ =~= out@ + spec_encode_elems(dvs, vs.len() as int));
            }
        }
    }

    /// Serializes the value; the result is exactly its wire encoding.
    pub fn encode(&self) -> (out: Vec<u8>)
        ensures
            out@ == spec_encode(model(*self)),
    {
        let mut out: Vec<u8> = Vec::new();
        self.encode_into(&mut out);
        assert(out@ =~= spec_encode(model(*self)));
        out
    }
}

/// Appends every byte of `src` to `out`.
pub fn push_all(out: &mut Vec<u8>, src: &Vec<u8>)
    ensures
        final(out)@ == old(out)@ + src@,
{
    let mut i: usize = 0;
    while i < src.len()
        invariant
            i <= src.len(),
            out@ == old(out)@ + src@.take(i as int),
        decreases src.len() - i,
    {
        out.push(src[i]);
        assert(out@ =~= old(out)@ + src@.take(i + 1));
        i += 1;
    }
    assert(out@ =~= old(out)@ + src@);
}

} // verus!
