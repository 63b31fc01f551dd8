//! Laws of the codec: encoding then parsing gives the same value back, and
//! parsing is invariant under incremental delivery of the input.

use vstd::prelude::*;

use crate::parser::{
    all_digits, dec_value, find_crlf_at, int_line_value, is_digits, is_int_line, lemma_dec_value_nonneg,
    lemma_find_props, lemma_parse_bounds, lemma_parse_n_bounds, spec_parse, spec_parse_at,
    spec_parse_n_at, SpecParse, SpecParseN,
};
use crate::value::{
    contains_crlf, dec_digits, dec_int, decodable, decodable_elems, encodable, encodable_elems,
    spec_encode, spec_encode_elems, SpecVal,
};

verus! {

/// The decimal digits of `n` are digits, at least one, and read back as `n`.
pub proof fn lemma_dec_digits(n: nat)
    ensures
        all_digits(dec_digits(n)),
        dec_digits(n).len() >= 1,
        dec_value(dec_digits(n)) == n,
    decreases n,
{
    if n < 10 {
        let w = dec_digits(n);
        assert(w.len() == 1);
        assert(w.drop_last() =~= Seq::<u8>::empty());
        assert(w.last() == (48 + n) as u8);
        reveal_with_fuel(dec_value, 2);
        assert(dec_value(w) == n);
    } else {
        lemma_dec_digits(n / 10);
        let d = dec_digits(n / 10);
        let w = dec_digits(n);
        assert(w == d.push((48 + n % 10) as u8));
        assert(w.drop_last() =~= d);
        assert(w.last() == (48 + n % 10) as u8);
        assert(dec_value(w) == dec_value(d) * 10 + n % 10);
        assert((n / 10) * 10 + n % 10 == n) by (nonlinear_arith);
        assert forall|k: int| 0 <= k < w.len() implies crate::parser::is_digit(#[trigger] w[k]) by {
            if k < d.len() {
                assert(w[k] == d[k]);
            }
        }
    }
}

/// Every encoding is at least three bytes long.
pub proof fn lemma_encode_len(v: SpecVal)
    ensures
        spec_encode(v).len() >= 3,
{
    match v {
        SpecVal::Integer(i) => {
            if i < 0 {
                lemma_dec_digits((-i) as nat);
            } else {
                lemma_dec_digits(i as nat);
            }
        }
        SpecVal::BulkString(b) => {
            lemma_dec_digits(b.len());
        }
        SpecVal::Array(vs) => {
            lemma_dec_digits(vs.len());
        }
        _ => {}
    }
}

/// When a CR LF pair sits at `j` and none precedes it from `a` on, the scan
/// from `a` finds exactly `j`.
proof fn lemma_find_exact(s: Seq<u8>, a: int, j: int)
    requires
        0 <= a <= j,
        j + 2 <= s.len(),
        s[j] == 13 && s[j + 1] == 10,
        forall|m: int| a <= m < j ==> #[trigger] s[m] != 13 || s[m + 1] != 10,
    ensures
        find_crlf_at(s, a) == Some(j),
    decreases j - a,
{
    if a < j {
        lemma_find_exact(s, a + 1, j);
    }
}

/// A found CR LF transfers to any buffer that agrees on the scanned region.
proof fn lemma_find_agree(s: Seq<u8>, t: Seq<u8>, a: int, j: int)
    requires
        0 <= a,
        find_crlf_at(s, a) == Some(j),
        j + 2 <= t.len(),
        forall|m: int| a <= m < j + 2 ==> s[m] == #[trigger] t[m],
    ensures
        find_crlf_at(t, a) == Some(j),
    decreases j - a,
{
    lemma_find_props(s, a);
    if s[a] == 13 && s[a + 1] == 10 {
        assert(j == a);
    } else {
        lemma_find_agree(s, t, a + 1, j);
    }
}

/// Cutting the buffer before a found CR LF leaves no CR LF to find.
proof fn lemma_find_truncated(s: Seq<u8>, a: int, j: int, m: int)
    requires
        0 <= a,
        find_crlf_at(s, a) == Some(j),
        a <= m < j + 2,
        m <= s.len(),
    ensures
        find_crlf_at(s.take(m), a) is None,
{
    lemma_find_props(s, a);
    lemma_find_props(s.take(m), a);
    if let Some(q) = find_crlf_at(s.take(m), a) {
        assert(s.take(m)[q] == 13 && s.take(m)[q + 1] == 10);
        assert(s[q] == 13 && s[q + 1] == 10);
        assert(a <= q && q < j);
        assert(false);
    }
}

/// Parsing an encoded value embedded in a larger buffer yields that value
/// and consumes exactly its encoding.
#[verifier::rlimit(60)]
proof fn lemma_encode_parse_at(s: Seq<u8>, i: int, v: SpecVal)
    requires
        encodable(v),
        decodable(v),
        0 <= i,
        i + spec_encode(v).len() <= s.len(),
        s.subrange(i, i + spec_encode(v).len() as int) == spec_encode(v),
    ensures
        spec_parse_at(s, i) == SpecParse::Complete(v, spec_encode(v).len() as int),
    decreases v, 0int,
{
    let e = spec_encode(v);
    assert forall|m: int| i <= m < i + e.len() implies #[trigger] s[m] == e[m - i] by {
        assert(s.subrange(i, i + e.len() as int)[m - i] == e[m - i]);
    }
    match v {
        SpecVal::SimpleString(str) => {
            let sl = str.len() as int;
            let j = i + 1 + sl;
            assert(s[i] == 43);
            assert(s[j] == 13 && s[j + 1] == 10);
            assert forall|m: int| i + 1 <= m < j implies #[trigger] s[m] != 13 || s[m + 1]
                != 10 by {
                if s[m] == 13 && s[m + 1] == 10 {
                    if m + 1 < j {
                        assert(str[m - i - 1] == 13 && str[m - i] == 10);
                        assert(contains_crlf(str));
                    } else {
                        assert(m + 1 == j);
                        assert(s[m + 1] == 13);
                    }
                }
            }
            lemma_find_exact(s, i + 1, j);
            assert(s.subrange(i + 1, j) =~= str);
            assert(j + 2 - i == e.len());
        }
        SpecVal::Error(_) => {
            assert(false);
        }
        SpecVal::Integer(iv) => {
            let d = dec_int(iv);
            let dl = d.len() as int;
            let j = i + 1 + dl;
            if iv < 0 {
                lemma_dec_digits((-iv) as nat);
                assert forall|k: int| 0 <= k < dl implies crate::parser::is_digit(
                    #[trigger] d[k],
                ) || d[k] == 45 by {
                    if k > 0 {
                        assert(d[k] == dec_digits((-iv) as nat)[k - 1]);
                    }
                }
            } else {
                lemma_dec_digits(iv as nat);
            }
            assert(s[i] == 58);
            assert(s[j] == 13 && s[j + 1] == 10);
            assert forall|m: int| i + 1 <= m < j implies #[trigger] s[m] != 13 || s[m + 1]
                != 10 by {
                assert(s[m] == d[m - i - 1]);
            }
            lemma_find_exact(s, i + 1, j);
            let line = s.subrange(i + 1, j);
            assert(line =~= d);
            if iv < 0 {
                assert(line[0] == 45);
                assert(line.skip(1) =~= dec_digits((-iv) as nat));
                assert(is_int_line(line));
                assert(int_line_value(line) == iv);
            } else {
                assert(crate::parser::is_digit(line[0]));
                assert(!(line[0] == 45 || line[0] == 43));
                assert(is_int_line(line));
                assert(int_line_value(line) == iv);
            }
            assert(j + 2 - i == e.len());
        }
        SpecVal::BulkString(b) => {
            let dd = dec_digits(b.len());
            lemma_dec_digits(b.len());
            let dl = dd.len() as int;
            let bl = b.len() as int;
            let j = i + 1 + dl;
            assert(s[i] == 36);
            assert(s[j] == 13 && s[j + 1] == 10);
            assert forall|m: int| i + 1 <= m < j implies #[trigger] s[m] != 13 || s[m + 1]
                != 10 by {
                assert(s[m] == dd[m - i - 1]);
            }
            lemma_find_exact(s, i + 1, j);
            let line = s.subrange(i + 1, j);
            assert(line =~= dd);
            assert(crate::parser::is_digit(line[0]));
            assert(line != seq![45u8, 49u8]);
            assert(is_digits(line) && dec_value(line) == bl);
            let p = j + 2;
            assert(p + bl + 2 <= s.len());
            assert(s[p + bl] == e[3 + dl + bl] && e[3 + dl + bl] == 13);
            assert(s[p + bl + 1] == e[4 + dl + bl] && e[4 + dl + bl] == 10);
            assert(s.subrange(p, p + bl) =~= b);
            assert(p + bl + 2 - i == e.len());
        }
        SpecVal::Null => {
            assert(s[i] == 36);
            assert(s[i + 1] == 45 && s[i + 2] == 49);
            assert(s[i + 3] == 13 && s[i + 4] == 10);
            assert forall|m: int| i + 1 <= m < i + 3 implies #[trigger] s[m] != 13 || s[m + 1]
                != 10 by {}
            lemma_find_exact(s, i + 1, i + 3);
            let line = s.subrange(i + 1, i + 3);
            assert(line =~= seq![45u8, 49u8]);
            assert(i + 3 + 2 - i == 5 == e.len());
        }
        SpecVal::Array(vs) => {
            let dd = dec_digits(vs.len());
            lemma_dec_digits(vs.len());
            let dl = dd.len() as int;
            let j = i + 1 + dl;
            assert(s[i] == 42);
            assert(s[j] == 13 && s[j + 1] == 10);
            assert forall|m: int| i + 1 <= m < j implies #[trigger] s[m] != 13 || s[m + 1]
                != 10 by {
                assert(s[m] == dd[m - i - 1]);
            }
            lemma_find_exact(s, i + 1, j);
            let line = s.subrange(i + 1, j);
            assert(line =~= dd);
            assert(is_digits(line) && dec_value(line) == vs.len());
            let body = spec_encode_elems(vs, 0);
            assert(s.subrange(j + 2, j + 2 + body.len() as int) =~= body);
            assert(decreases_to!(v => vs));
            lemma_encode_parse_n(s, j + 2, vs, 0);
            assert(vs.skip(0) =~= vs);
            assert(j + 2 + body.len() - i == e.len());
        }
    }
}

/// Parsing the encoded elements `vs[k..]` embedded at `i` yields exactly
/// those elements.
proof fn lemma_encode_parse_n(s: Seq<u8>, i: int, vs: Seq<SpecVal>, k: int)
    requires
        0 <= k <= vs.len(),
        encodable_elems(vs, k),
        decodable_elems(vs, k),
        0 <= i,
        i + spec_encode_elems(vs, k).len() <= s.len(),
        s.subrange(i, i + spec_encode_elems(vs, k).len() as int) == spec_encode_elems(vs, k),
    ensures
        spec_parse_n_at(s, i, (vs.len() - k) as nat) == SpecParseN::Complete(
            vs.skip(k),
            spec_encode_elems(vs, k).len() as int,
        ),
    decreases vs, vs.len() - k,
{
    if k == vs.len() {
        assert(vs.skip(k) =~= Seq::<SpecVal>::empty());
    } else {
        let e1 = spec_encode(vs[k]);
        let rest = spec_encode_elems(vs, k + 1);
        let whole = spec_encode_elems(vs, k);
        assert(whole == e1 + rest);
        assert forall|m: int| i <= m < i + whole.len() implies #[trigger] s[m] == whole[m - i] by {
            assert(s.subrange(i, i + whole.len() as int)[m - i] == whole[m - i]);
        }
        assert(s.subrange(i, i + e1.len() as int) =~= e1);
        assert(decreases_to!(vs => vs[k]));
        lemma_encode_parse_at(s, i, vs[k]);
        lemma_encode_len(vs[k]);
        assert forall|x: int| 0 <= x < rest.len() implies s[i + e1.len() + x] == rest[x] by {
            assert(s[i + e1.len() + x] == whole[e1.len() + x]);
            assert(whole[e1.len() + x] == rest[x]);
        }
        assert(s.subrange(i + e1.len(), i + e1.len() + rest.len() as int) =~= rest);
        lemma_encode_parse_n(s, i + e1.len() as int, vs, k + 1);
        assert(seq![vs[k]] + vs.skip(k + 1) =~= vs.skip(k));
    }
}

/// A complete parse transfers to any buffer that agrees on the consumed
/// region: bytes beyond what a frame consumed never change its result.
#[verifier::rlimit(60)]
proof fn lemma_parse_agree(s: Seq<u8>, t: Seq<u8>, i: int, v: SpecVal, n: int)
    requires
        spec_parse_at(s, i) == SpecParse::Complete(v, n),
        i + n <= t.len(),
        forall|m: int| i <= m < i + n ==> s[m] == #[trigger] t[m],
    ensures
        spec_parse_at(t, i) == SpecParse::Complete(v, n),
    decreases s.len() - i, 0int, 0int,
{
    lemma_parse_bounds(s, i);
    assert(0 <= i < s.len());
    assert(t[i] == s[i]);
    if s[i] == 43 || s[i] == 58 {
        if let Some(j) = find_crlf_at(s, i + 1) {
            lemma_find_props(s, i + 1);
            assert(n == j + 2 - i);
            lemma_find_agree(s, t, i + 1, j);
            assert(t.subrange(i + 1, j) =~= s.subrange(i + 1, j));
        }
    } else if s[i] == 36 {
        if let Some(j) = find_crlf_at(s, i + 1) {
            lemma_find_props(s, i + 1);
            let line = s.subrange(i + 1, j);
            if line == seq![45u8, 49u8] {
                assert(n == j + 2 - i);
                lemma_find_agree(s, t, i + 1, j);
                assert(t.subrange(i + 1, j) =~= line);
            } else {
                assert(is_digits(line) && dec_value(line) <= usize::MAX);
                lemma_dec_value_nonneg(line);
                let len = dec_value(line);
                let p = j + 2;
                assert(n == p + len + 2 - i);
                lemma_find_agree(s, t, i + 1, j);
                assert(t.subrange(i + 1, j) =~= line);
                assert(t[p + len] == s[p + len] && t[p + len + 1] == s[p + len + 1]);
                assert(t.subrange(p, p + len) =~= s.subrange(p, p + len));
            }
        }
    } else if s[i] == 42 {
        if let Some(j) = find_crlf_at(s, i + 1) {
            lemma_find_props(s, i + 1);
            let line = s.subrange(i + 1, j);
            assert(is_digits(line) && dec_value(line) <= usize::MAX);
            lemma_dec_value_nonneg(line);
            let cnt = dec_value(line) as nat;
            if let SpecParseN::Complete(vs0, c) = spec_parse_n_at(s, j + 2, cnt) {
                lemma_parse_n_bounds(s, j + 2, cnt);
                assert(n == j + 2 + c - i);
                lemma_find_agree(s, t, i + 1, j);
                assert(t.subrange(i + 1, j) =~= line);
                lemma_parse_n_agree(s, t, j + 2, vs0, c, cnt);
            }
        }
    }
}

/// The run-of-frames form of `lemma_parse_agree`.
proof fn lemma_parse_n_agree(s: Seq<u8>, t: Seq<u8>, i: int, vs: Seq<SpecVal>, c: int, n: nat)
    requires
        spec_parse_n_at(s, i, n) == SpecParseN::Complete(vs, c),
        0 <= i,
        i + c <= t.len(),
        forall|m: int| i <= m < i + c ==> s[m] == #[trigger] t[m],
    ensures
        spec_parse_n_at(t, i, n) == SpecParseN::Complete(vs, c),
    decreases s.len() - i, 1int, 0int,
{
    lemma_parse_n_bounds(s, i, n);
    assert(i <= s.len());
    if n > 0 {
        if let SpecParse::Complete(v1, c1) = spec_parse_at(s, i) {
            lemma_parse_bounds(s, i);
            if let SpecParseN::Complete(vs2, c2) = spec_parse_n_at(s, i + c1, (n - 1) as nat) {
                lemma_parse_n_bounds(s, i + c1, (n - 1) as nat);
                lemma_parse_agree(s, t, i, v1, c1);
                lemma_parse_n_agree(s, t, i + c1, vs2, c2, (n - 1) as nat);
            }
        }
    }
}

/// Cutting a parsable frame anywhere short of its end yields `Incomplete`:
/// a partial prefix never errors and never returns a value.
#[verifier::rlimit(60)]
proof fn lemma_parse_take(s: Seq<u8>, i: int, m: int, v: SpecVal, n: int)
    requires
        spec_parse_at(s, i) == SpecParse::Complete(v, n),
        0 <= i <= m < i + n,
        m <= s.len(),
    ensures
        spec_parse_at(s.take(m), i) == SpecParse::Incomplete,
    decreases s.len() - i, 0int, 0int,
{
    lemma_parse_bounds(s, i);
    let p = s.take(m);
    assert(p.len() == m);
    if m > i {
        assert(p[i] == s[i]);
        if s[i] == 43 || s[i] == 58 {
            if let Some(j) = find_crlf_at(s, i + 1) {
                lemma_find_props(s, i + 1);
                assert(n == j + 2 - i);
                lemma_find_truncated(s, i + 1, j, m);
            }
        } else if s[i] == 36 {
            if let Some(j) = find_crlf_at(s, i + 1) {
                lemma_find_props(s, i + 1);
                let line = s.subrange(i + 1, j);
                if m < j + 2 {
                    lemma_find_truncated(s, i + 1, j, m);
                } else {
                    lemma_find_agree(s, p, i + 1, j);
                    assert(p.subrange(i + 1, j) =~= line);
                    if line == seq![45u8, 49u8] {
                        assert(n == j + 2 - i);
                        assert(false);
                    } else {
                        assert(is_digits(line) && dec_value(line) <= usize::MAX);
                        lemma_dec_value_nonneg(line);
                        let len = dec_value(line);
                        assert(n == j + 2 + len + 2 - i);
                        assert(j + 2 + len + 2 > m);
                    }
                }
            }
        } else if s[i] == 42 {
            if let Some(j) = find_crlf_at(s, i + 1) {
                lemma_find_props(s, i + 1);
                let line = s.subrange(i + 1, j);
                assert(is_digits(line) && dec_value(line) <= usize::MAX);
                lemma_dec_value_nonneg(line);
                let cnt = dec_value(line) as nat;
                if let SpecParseN::Complete(vs0, c) = spec_parse_n_at(s, j + 2, cnt) {
                    lemma_parse_n_bounds(s, j + 2, cnt);
                    assert(n == j + 2 + c - i);
                    if m < j + 2 {
                        lemma_find_truncated(s, i + 1, j, m);
                    } else {
                        lemma_find_agree(s, p, i + 1, j);
                        assert(p.subrange(i + 1, j) =~= line);
                        lemma_parse_n_take(s, j + 2, m, vs0, c, cnt);
                    }
                }
            }
        }
    }
}

/// The run-of-frames form of `lemma_parse_take`.
proof fn lemma_parse_n_take(s: Seq<u8>, i: int, m: int, vs: Seq<SpecVal>, c: int, n: nat)
    requires
        spec_parse_n_at(s, i, n) == SpecParseN::Complete(vs, c),
        0 <= i <= m < i + c,
        m <= s.len(),
    ensures
        spec_parse_n_at(s.take(m), i, n) == SpecParseN::Incomplete,
    decreases s.len() - i, 1int, 0int,
{
    lemma_parse_n_bounds(s, i, n);
    if n == 0 {
        assert(false);
    } else {
        if let SpecParse::Complete(v1, c1) = spec_parse_at(s, i) {
            lemma_parse_bounds(s, i);
            if let SpecParseN::Complete(vs2, c2) = spec_parse_n_at(s, i + c1, (n - 1) as nat) {
                lemma_parse_n_bounds(s, i + c1, (n - 1) as nat);
                if m < i + c1 {
                    lemma_parse_take(s, i, m, v1, c1);
                } else {
                    lemma_parse_agree(s, s.take(m), i, v1, c1);
                    lemma_parse_n_take(s, i + c1, m, vs2, c2, (n - 1) as nat);
                }
            }
        }
    }
}

/// Incremental delivery, first half: every strict prefix of a parsable
/// frame parses as `Incomplete`, so a reader that retries from the same
/// starting point as bytes arrive neither errors nor misparses early.
pub proof fn lemma_incremental_delivery(s: Seq<u8>, m: int, v: SpecVal, n: int)
    requires
        spec_parse(s) == SpecParse::Complete(v, n),
        0 <= m < n,
    ensures
        spec_parse(s.take(m)) == SpecParse::Incomplete,
{
    lemma_parse_bounds(s, 0);
    lemma_parse_take(s, 0, m, v, n);
}

/// Incremental delivery, second half: once the bytes of a parsable frame
/// have arrived, any further bytes after them leave the result unchanged,
/// so parsing the accumulated buffer equals parsing the frame alone.
pub proof fn lemma_parse_extension(s: Seq<u8>, t: Seq<u8>, v: SpecVal, n: int)
    requires
        spec_parse(s) == SpecParse::Complete(v, n),
        n <= t.len(),
        forall|k: int| 0 <= k < n ==> s[k] == #[trigger] t[k],
    ensures
        spec_parse(t) == SpecParse::Complete(v, n),
{
    lemma_parse_bounds(s, 0);
    lemma_parse_agree(s, t, 0, v, n);
}

/// Round trip: parsing the encoding of any encodable, parseable value
/// succeeds, returns that value, and consumes the whole encoding.
pub proof fn lemma_round_trip(v: SpecVal)
    requires
        encodable(v),
        decodable(v),
    ensures
        spec_parse(spec_encode(v)) == SpecParse::Complete(v, spec_encode(v).len() as int),
{
    let e = spec_encode(v);
    assert(e.subrange(0, e.len() as int) =~= e);
    lemma_encode_parse_at(e, 0, v);
}

} // verus!
