//! The codec: the canonical encoding of a value, the meaning of a byte
//! buffer under the decoder, and the verified encoder and decoder.

use vstd::prelude::*;
use crate::value::{RedisValue, ValueModel, elems_view, line_ok, wf};
use crate::num::{
    dec_digits, dec_int, spec_parse_dec, is_digit, parse_dec, fmt_u64, lemma_dec_digits_props,
    lemma_parse_dec_int,
};

verus! {

broadcast use vstd::std_specs::vec::group_vec_axioms;

pub const CR: u8 = 13;

pub const LF: u8 = 10;

pub const TAG_SIMPLE: u8 = 43;

pub const TAG_ERROR: u8 = 45;

pub const TAG_INT: u8 = 58;

pub const TAG_BULK: u8 = 36;

pub const TAG_ARRAY: u8 = 42;

pub open spec fn crlf() -> Seq<u8> {
    seq![CR, LF]
}

/// The canonical wire bytes of a value: tag byte, payload, terminator; an
/// array is its count line followed by its encoded elements in order.
pub open spec fn spec_encode(v: ValueModel) -> Seq<u8>
    decreases v, 0int,
{
    match v {
        ValueModel::Str(s) => seq![TAG_SIMPLE] + s + crlf(),
        ValueModel::Error(s) => seq![TAG_ERROR] + s + crlf(),
        ValueModel::Int(i) => seq![TAG_INT] + dec_int(i) + crlf(),
        ValueModel::Nil => seq![TAG_BULK] + dec_int(-1) + crlf(),
        ValueModel::Bulk(p) => seq![TAG_BULK] + dec_int(p.len() as int) + crlf() + p + crlf(),
        ValueModel::Array(es) => seq![TAG_ARRAY] + dec_int(es.len() as int) + crlf()
            + spec_encode_from(es, 0),
    }
}

/// The concatenated encodings of the elements of `es` from position `i` on,
/// with no separator between them.
pub open spec fn spec_encode_from(es: Seq<ValueModel>, i: int) -> Seq<u8>
    decreases es, es.len() - i,
{
    if i < 0 || i >= es.len() {
        Seq::empty()
    } else {
        spec_encode(es[i]) + spec_encode_from(es, i + 1)
    }
}

/// The index of the first carriage return at or after `i`, if any.
pub open spec fn find_cr(s: Seq<u8>, i: int) -> Option<int>
    decreases s.len() - i,
{
    if i < 0 || i >= s.len() {
        None
    } else if s[i] == CR {
        Some(i)
    } else {
        find_cr(s, i + 1)
    }
}

/// What one wire line means: the bytes before the first carriage return and
/// the count consumed through the line feed; no carriage return, or one as
/// the final byte, means the line has not fully arrived, and a carriage
/// return not followed by a line feed is a corrupt frame.
pub enum LineRes {
    Line(Seq<u8>, int),
    Incomplete,
    Malformed,
}

pub open spec fn spec_line(s: Seq<u8>) -> LineRes {
    match find_cr(s, 0) {
        Option::None => LineRes::Incomplete,
        Option::Some(j) => if j + 1 >= s.len() {
            LineRes::Incomplete
        } else if s[j + 1] != LF {
            LineRes::Malformed
        } else {
            LineRes::Line(s.subrange(0, j), j + 2)
        },
    }
}

/// The decoder's verdict on a buffer: a complete value and the bytes it
/// consumed, a buffer that does not yet hold a whole value, or a corrupt
/// frame.
pub enum DecodedSpec {
    Complete(ValueModel, int),
    Incomplete,
    Malformed,
}

/// The verdict on reading `n` consecutive values: the values and the total
/// bytes consumed, or the first non-complete verdict among them.
pub enum ElemsSpec {
    Complete(Seq<ValueModel>, int),
    Incomplete,
    Malformed,
}

/// The meaning of a byte buffer: single-pass recursive descent with the tag
/// byte as the only lookahead. An empty buffer holds no value yet; an
/// unrecognized tag or a non-numeric length, count or integer field is a
/// corrupt frame.
pub open spec fn spec_decode(s: Seq<u8>) -> DecodedSpec
    decreases s.len(), 0int,
{
    if s.len() == 0 {
        DecodedSpec::Incomplete
    } else {
        let tag = s[0];
        let rest = s.skip(1);
        if tag == TAG_SIMPLE || tag == TAG_ERROR {
            match spec_line(rest) {
                LineRes::Line(line, c) => DecodedSpec::Complete(
                    if tag == TAG_SIMPLE {
                        ValueModel::Str(line)
                    } else {
                        ValueModel::Error(line)
                    },
                    1 + c,
                ),
                LineRes::Incomplete => DecodedSpec::Incomplete,
                LineRes::Malformed => DecodedSpec::Malformed,
            }
        } else if tag == TAG_INT {
            match spec_line(rest) {
                LineRes::Line(line, c) => match spec_parse_dec(line) {
                    Option::Some(v) => if i64::MIN <= v <= i64::MAX {
                        DecodedSpec::Complete(ValueModel::Int(v), 1 + c)
                    } else {
                        DecodedSpec::Malformed
                    },
                    Option::None => DecodedSpec::Malformed,
                },
                LineRes::Incomplete => DecodedSpec::Incomplete,
                LineRes::Malformed => DecodedSpec::Malformed,
            }
        } else if tag == TAG_BULK {
            match spec_line(rest) {
                LineRes::Line(line, c) => match spec_parse_dec(line) {
                    Option::Some(n) => if n == -1 {
                        DecodedSpec::Complete(ValueModel::Nil, 1 + c)
                    } else if n < 0 {
                        DecodedSpec::Malformed
                    } else {
                        let start = 1 + c;
                        if s.len() < start + n + 2 {
                            DecodedSpec::Incomplete
                        } else if s[start + n] == CR && s[start + n + 1] == LF {
                            DecodedSpec::Complete(
                                ValueModel::Bulk(s.subrange(start, start + n)),
                                start + n + 2,
                            )
                        } else {
                            DecodedSpec::Malformed
                        }
                    },
                    Option::None => DecodedSpec::Malformed,
                },
                LineRes::Incomplete => DecodedSpec::Incomplete,
                LineRes::Malformed => DecodedSpec::Malformed,
            }
        } else if tag == TAG_ARRAY {
            match spec_line(rest) {
                LineRes::Line(line, c) => match spec_parse_dec(line) {
                    Option::Some(n) => if n < 0 {
                        DecodedSpec::Malformed
                    } else {
                        let start = 1 + c;
                        if 1 <= start <= s.len() {
                            match spec_decode_elems(s.skip(start), n as nat) {
                                ElemsSpec::Complete(vs, c2) => DecodedSpec::Complete(
                                    ValueModel::Array(vs),
                                    start + c2,
                                ),
                                ElemsSpec::Incomplete => DecodedSpec::Incomplete,
                                ElemsSpec::Malformed => DecodedSpec::Malformed,
                            }
                        } else {
                            // a real line verdict always lands in range
                            DecodedSpec::Malformed
                        }
                    },
                    Option::None => DecodedSpec::Malformed,
                },
                LineRes::Incomplete => DecodedSpec::Incomplete,
                LineRes::Malformed => DecodedSpec::Malformed,
            }
        } else {
            DecodedSpec::Malformed
        }
    }
}

/// What `find_cr` returns: the first carriage return at or after `i`, or
/// a promise that there is none.
pub proof fn lemma_find_cr(s: Seq<u8>, i: int)
    requires
        0 <= i <= s.len(),
    ensures
        match find_cr(s, i) {
            Option::Some(j) => i <= j < s.len() && s[j] == CR && forall|k: int|
                i <= k < j ==> s[k] != CR,
            Option::None => forall|k: int| i <= k < s.len() ==> s[k] != CR,
        },
    decreases s.len() - i,
{
    if i < s.len() && s[i] != CR {
        lemma_find_cr(s, i + 1);
    }
}

/// A line verdict's shape: the consumed count covers the payload and the
/// two terminator bytes, the payload is the prefix before the first
/// carriage return, and it contains none itself.
pub proof fn lemma_line_shape(s: Seq<u8>)
    ensures
        spec_line(s) matches LineRes::Line(l, c) ==> {
            &&& 2 <= c <= s.len()
            &&& l == s.subrange(0, c - 2)
            &&& l.len() == c - 2
            &&& line_ok(l)
            &&& s[c - 2] == CR
            &&& s[c - 1] == LF
        },
{
    lemma_find_cr(s, 0);
}

/// Scanning a clean payload followed by the terminator finds exactly that
/// payload, whatever follows.
pub proof fn lemma_line_of(payload: Seq<u8>, tail: Seq<u8>)
    requires
        line_ok(payload),
    ensures
        spec_line(payload + crlf() + tail) == LineRes::Line(payload, payload.len() as int + 2),
{
    let s = payload + crlf() + tail;
    let n = payload.len() as int;
    assert(s[n] == CR);
    assert(s[n + 1] == LF);
    assert(forall|k: int| 0 <= k < n ==> s[k] == payload[k] && s[k] != CR);
    lemma_find_cr(s, 0);
    match find_cr(s, 0) {
        Option::None => {
            assert(false);
        },
        Option::Some(j) => {
            if j < n {
                assert(s[j] != CR);
                assert(false);
            }
            if j > n {
                assert(s[n] != CR);
                assert(false);
            }
            assert(s.subrange(0, n) =~= payload);
        },
    }
}

/// A complete value consumes at least one byte and never more than the
/// buffer holds.
pub proof fn lemma_decode_bounds(s: Seq<u8>)
    ensures
        spec_decode(s) matches DecodedSpec::Complete(v, c) ==> 1 <= c <= s.len(),
    decreases s.len(), 0int,
{
    if s.len() > 0 {
        let rest = s.skip(1);
        lemma_line_shape(rest);
        let tag = s[0];
        if tag == TAG_ARRAY {
            match spec_line(rest) {
                LineRes::Line(line, c) => {
                    match spec_parse_dec(line) {
                        Option::Some(n) => {
                            if n >= 0 {
                                let start = 1 + c;
                                if 1 <= start <= s.len() {
                                    lemma_decode_elems_bounds(s.skip(start), n as nat);
                                }
                            }
                        },
                        Option::None => {},
                    }
                },
                LineRes::Incomplete => {},
                LineRes::Malformed => {},
            }
        }
    }
}

/// `n` complete values are exactly `n` values, and consume at least one
/// byte each.
pub proof fn lemma_decode_elems_bounds(s: Seq<u8>, n: nat)
    ensures
        spec_decode_elems(s, n) matches ElemsSpec::Complete(vs, c) ==> {
            &&& vs.len() == n
            &&& n <= c <= s.len()
        },
    decreases s.len(), 1 + n,
{
    if n > 0 {
        lemma_decode_bounds(s);
        match spec_decode(s) {
            DecodedSpec::Complete(v, c) => {
                if 1 <= c <= s.len() {
                    lemma_decode_elems_bounds(s.skip(c), (n - 1) as nat);
                }
            },
            DecodedSpec::Incomplete => {},
            DecodedSpec::Malformed => {},
        }
    }
}

pub open spec fn spec_decode_elems(s: Seq<u8>, n: nat) -> ElemsSpec
    decreases s.len(), 1 + n,
{
    if n == 0 {
        ElemsSpec::Complete(Seq::empty(), 0)
    } else {
        match spec_decode(s) {
            DecodedSpec::Complete(v, c) => if 1 <= c <= s.len() {
                match spec_decode_elems(s.skip(c), (n - 1) as nat) {
                    ElemsSpec::Complete(vs, c2) => ElemsSpec::Complete(seq![v] + vs, c + c2),
                    ElemsSpec::Incomplete => ElemsSpec::Incomplete,
                    ElemsSpec::Malformed => ElemsSpec::Malformed,
                }
            } else {
                // a complete value always consumes within the buffer
                ElemsSpec::Malformed
            },
            DecodedSpec::Incomplete => ElemsSpec::Incomplete,
            DecodedSpec::Malformed => ElemsSpec::Malformed,
        }
    }
}

/// The canonical decimal rendering of an integer never contains a carriage
/// return, so it always forms a clean wire line.
pub proof fn lemma_dec_int_clean(i: int)
    ensures
        line_ok(dec_int(i)),
        dec_int(i).len() >= 1,
{
    if i < 0 {
        lemma_dec_digits_props((-i) as nat);
        let s = dec_int(i);
        assert forall|k: int| 0 <= k < s.len() implies s[k] != 13u8 by {
            if k >= 1 {
                assert(is_digit(dec_digits((-i) as nat)[k - 1]));
            }
        }
    } else {
        lemma_dec_digits_props(i as nat);
        let s = dec_int(i);
        assert forall|k: int| 0 <= k < s.len() implies s[k] != 13u8 by {
            assert(is_digit(dec_digits(i as nat)[k]));
        }
    }
}

/// Decoding a buffer that starts with the encoding of a well-formed value
/// yields exactly that value and consumes exactly its encoding, whatever
/// bytes follow: back-to-back frames decode one after the other.
pub proof fn lemma_decode_encode(v: ValueModel, rest: Seq<u8>)
    requires
        wf(v),
    ensures
        spec_decode(spec_encode(v) + rest) == DecodedSpec::Complete(
            v,
            spec_encode(v).len() as int,
        ),
    decreases v, 0int,
{
    let e = spec_encode(v);
    let s = e + rest;
    match v {
        ValueModel::Str(p) => {
            assert(s[0] == TAG_SIMPLE);
            assert(s.skip(1) =~= p + crlf() + rest);
            lemma_line_of(p, rest);
        },
        ValueModel::Error(p) => {
            assert(s[0] == TAG_ERROR);
            assert(s.skip(1) =~= p + crlf() + rest);
            lemma_line_of(p, rest);
        },
        ValueModel::Int(i) => {
            assert(s[0] == TAG_INT);
            assert(s.skip(1) =~= dec_int(i) + crlf() + rest);
            lemma_dec_int_clean(i);
            lemma_line_of(dec_int(i), rest);
            lemma_parse_dec_int(i);
        },
        ValueModel::Nil => {
            assert(s[0] == TAG_BULK);
            assert(s.skip(1) =~= dec_int(-1) + crlf() + rest);
            lemma_dec_int_clean(-1);
            lemma_line_of(dec_int(-1), rest);
            lemma_parse_dec_int(-1);
        },
        ValueModel::Bulk(p) => {
            let len = p.len() as int;
            let line = dec_int(len);
            let start = 1 + line.len() as int + 2;
            assert(s[0] == TAG_BULK);
            assert(s.skip(1) =~= line + crlf() + (p + crlf() + rest));
            lemma_dec_int_clean(len);
            lemma_line_of(line, p + crlf() + rest);
            lemma_parse_dec_int(len);
            assert(e.len() == start + len + 2);
            assert(s.len() >= start + len + 2);
            assert(s.subrange(start, start + len) =~= p);
            assert(s[start + len] == CR);
            assert(s[start + len + 1] == LF);
        },
        ValueModel::Array(es) => {
            let count = es.len() as int;
            let line = dec_int(count);
            let start = 1 + line.len() as int + 2;
            let body = spec_encode_from(es, 0);
            assert(s[0] == TAG_ARRAY);
            assert(s.skip(1) =~= line + crlf() + (body + rest));
            lemma_dec_int_clean(count);
            lemma_line_of(line, body + rest);
            lemma_parse_dec_int(count);
            assert(1 <= start <= s.len());
            assert(s.skip(start) =~= body + rest);
            lemma_decode_encode_elems(es, 0, rest);
            assert(es.skip(0) =~= es);
            assert(e.len() == start + body.len());
        },
    }
}

/// Reading the concatenated encodings of the elements from `i` on, followed
/// by anything, yields exactly those elements and consumes exactly their
/// encodings.
pub proof fn lemma_decode_encode_elems(es: Seq<ValueModel>, i: int, rest: Seq<u8>)
    requires
        0 <= i <= es.len(),
        forall|k: int| 0 <= k < es.len() ==> wf(#[trigger] es[k]),
    ensures
        spec_decode_elems(spec_encode_from(es, i) + rest, (es.len() - i) as nat)
            == ElemsSpec::Complete(es.skip(i), spec_encode_from(es, i).len() as int),
    decreases es, es.len() - i + 1,
{
    let e = spec_encode_from(es, i);
    if i == es.len() {
        assert(e + rest =~= rest);
        assert(es.skip(i) =~= Seq::<ValueModel>::empty());
    } else {
        let e0 = spec_encode(es[i]);
        let e1 = spec_encode_from(es, i + 1);
        assert(wf(es[i]));
        assert(e + rest =~= e0 + (e1 + rest));
        lemma_decode_encode(es[i], e1 + rest);
        lemma_decode_bounds(e + rest);
        assert((e + rest).skip(e0.len() as int) =~= e1 + rest);
        lemma_decode_encode_elems(es, i + 1, rest);
        assert(seq![es[i]] + es.skip(i + 1) =~= es.skip(i));
        assert(e.len() == e0.len() + e1.len());
    }
}

/// Round trip: decoding the encoding of any well-formed value yields
/// exactly that value, never another, and consumes its whole encoding.
pub proof fn lemma_round_trip(v: ValueModel)
    requires
        wf(v),
    ensures
        spec_decode(spec_encode(v)) == DecodedSpec::Complete(v, spec_encode(v).len() as int),
{
    lemma_decode_encode(v, Seq::empty());
    assert(spec_encode(v) + Seq::<u8>::empty() =~= spec_encode(v));
}

/// A partial wire line is only ever incomplete: a prefix that stops within
/// the payload or right after the carriage return has no verdict yet.
proof fn lemma_line_prefix(l: Seq<u8>, k: int)
    requires
        line_ok(l),
        0 <= k <= l.len() + 1,
    ensures
        spec_line((l + crlf()).subrange(0, k)) is Incomplete,
{
    let t = (l + crlf()).subrange(0, k);
    lemma_find_cr(t, 0);
    if k <= l.len() {
        match find_cr(t, 0) {
            Option::Some(j) => {
                assert(t[j] == l[j]);
                assert(false);
            },
            Option::None => {},
        }
    } else {
        match find_cr(t, 0) {
            Option::None => {
                assert(t[l.len() as int] == CR);
                assert(false);
            },
            Option::Some(j) => {
                if j < l.len() {
                    assert(t[j] == l[j]);
                    assert(false);
                }
                assert(j == l.len());
                assert(j + 1 >= t.len());
            },
        }
    }
}

/// Truncation: a strict prefix of the encoding of a well-formed value is
/// only ever incomplete - never a corrupt frame, never some other value.
pub proof fn lemma_prefix_incomplete(v: ValueModel, k: int)
    requires
        wf(v),
        0 <= k < spec_encode(v).len(),
    ensures
        spec_decode(spec_encode(v).subrange(0, k)) is Incomplete,
    decreases v, 0int,
{
    let e = spec_encode(v);
    let t = e.subrange(0, k);
    if k == 0 {
        assert(t.len() == 0);
    } else {
        match v {
            ValueModel::Str(p) => {
                assert(t[0] == TAG_SIMPLE);
                assert(t.skip(1) =~= (p + crlf()).subrange(0, k - 1));
                lemma_line_prefix(p, k - 1);
            },
            ValueModel::Error(p) => {
                assert(t[0] == TAG_ERROR);
                assert(t.skip(1) =~= (p + crlf()).subrange(0, k - 1));
                lemma_line_prefix(p, k - 1);
            },
            ValueModel::Int(i) => {
                assert(t[0] == TAG_INT);
                lemma_dec_int_clean(i);
                assert(t.skip(1) =~= (dec_int(i) + crlf()).subrange(0, k - 1));
                lemma_line_prefix(dec_int(i), k - 1);
            },
            ValueModel::Nil => {
                assert(t[0] == TAG_BULK);
                lemma_dec_int_clean(-1);
                assert(t.skip(1) =~= (dec_int(-1) + crlf()).subrange(0, k - 1));
                lemma_line_prefix(dec_int(-1), k - 1);
            },
            ValueModel::Bulk(p) => {
                let l = dec_int(p.len() as int);
                let start = 1 + l.len() as int + 2;
                lemma_dec_int_clean(p.len() as int);
                assert(t[0] == TAG_BULK);
                assert(e.len() == start + p.len() + 2);
                if k < start {
                    assert(t.skip(1) =~= (l + crlf()).subrange(0, k - 1));
                    lemma_line_prefix(l, k - 1);
                } else {
                    let tail = (p + crlf()).subrange(0, k - start);
                    assert(t.skip(1) =~= l + crlf() + tail);
                    lemma_line_of(l, tail);
                    lemma_parse_dec_int(p.len() as int);
                    assert(t.len() < start + p.len() + 2);
                }
            },
            ValueModel::Array(es) => {
                let l = dec_int(es.len() as int);
                let start = 1 + l.len() as int + 2;
                let body = spec_encode_from(es, 0);
                lemma_dec_int_clean(es.len() as int);
                assert(t[0] == TAG_ARRAY);
                assert(e.len() == start + body.len());
                if k < start {
                    assert(t.skip(1) =~= (l + crlf()).subrange(0, k - 1));
                    lemma_line_prefix(l, k - 1);
                } else {
                    let m = k - start;
                    assert(t.skip(1) =~= l + crlf() + body.subrange(0, m));
                    lemma_line_of(l, body.subrange(0, m));
                    lemma_parse_dec_int(es.len() as int);
                    assert(1 <= start <= t.len());
                    assert(t.skip(start) =~= body.subrange(0, m));
                    lemma_elems_prefix_incomplete(es, 0, m);
                }
            },
        }
    }
}

/// A strict prefix of the concatenated element encodings from `i` on is
/// only ever incomplete.
proof fn lemma_elems_prefix_incomplete(es: Seq<ValueModel>, i: int, m: int)
    requires
        0 <= i <= es.len(),
        forall|k: int| 0 <= k < es.len() ==> wf(#[trigger] es[k]),
        0 <= m < spec_encode_from(es, i).len(),
    ensures
        spec_decode_elems(spec_encode_from(es, i).subrange(0, m), (es.len() - i) as nat)
            is Incomplete,
    decreases es, es.len() - i + 1,
{
    let e = spec_encode_from(es, i);
    let t = e.subrange(0, m);
    assert(i < es.len());
    let e0 = spec_encode(es[i]);
    let e1 = spec_encode_from(es, i + 1);
    assert(wf(es[i]));
    if m < e0.len() {
        assert(t =~= e0.subrange(0, m));
        lemma_prefix_incomplete(es[i], m);
    } else {
        let m1 = m - e0.len() as int;
        assert(t =~= e0 + e1.subrange(0, m1));
        lemma_decode_encode(es[i], e1.subrange(0, m1));
        lemma_decode_bounds(t);
        assert(t.skip(e0.len() as int) =~= e1.subrange(0, m1));
        lemma_elems_prefix_incomplete(es, i + 1, m1);
    }
}

/// Every value the decoder completes is well-formed: line-oriented
/// payloads never embed the terminator's carriage return, integers fit the
/// signed 64-bit range, and so on recursively through arrays.
pub proof fn lemma_decode_wf(s: Seq<u8>)
    ensures
        spec_decode(s) matches DecodedSpec::Complete(v, c) ==> wf(v),
    decreases s.len(), 0int,
{
    if s.len() > 0 {
        let rest = s.skip(1);
        lemma_line_shape(rest);
        let tag = s[0];
        if tag == TAG_ARRAY {
            match spec_line(rest) {
                LineRes::Line(line, c) => {
                    match spec_parse_dec(line) {
                        Option::Some(n) => {
                            if n >= 0 {
                                let start = 1 + c;
                                if 1 <= start <= s.len() {
                                    lemma_decode_elems_wf(s.skip(start), n as nat);
                                }
                            }
                        },
                        Option::None => {},
                    }
                },
                LineRes::Incomplete => {},
                LineRes::Malformed => {},
            }
        }
    }
}

/// Every element of a completed element run is well-formed.
proof fn lemma_decode_elems_wf(s: Seq<u8>, n: nat)
    ensures
        spec_decode_elems(s, n) matches ElemsSpec::Complete(vs, c) ==> forall|k: int|
            0 <= k < vs.len() ==> wf(#[trigger] vs[k]),
    decreases s.len(), 1 + n,
{
    if n > 0 {
        lemma_decode_bounds(s);
        lemma_decode_wf(s);
        match spec_decode(s) {
            DecodedSpec::Complete(v, c) => {
                if 1 <= c <= s.len() {
                    lemma_decode_elems_wf(s.skip(c), (n - 1) as nat);
                    match spec_decode_elems(s.skip(c), (n - 1) as nat) {
                        ElemsSpec::Complete(vs2, c2) => {
                            let vs = seq![v] + vs2;
                            assert forall|k: int| 0 <= k < vs.len() implies wf(
                                #[trigger] vs[k],
                            ) by {
                                if k == 0 {
                                    assert(vs[0] == v);
                                } else {
                                    assert(vs[k] == vs2[k - 1]);
                                }
                            }
                        },
                        ElemsSpec::Incomplete => {},
                        ElemsSpec::Malformed => {},
                    }
                }
            },
            DecodedSpec::Incomplete => {},
            DecodedSpec::Malformed => {},
        }
    }
}

/// An unrecognized tag byte is a corrupt frame, never a fallback value.
pub proof fn lemma_malformed_tag(s: Seq<u8>)
    requires
        s.len() > 0,
        s[0] != TAG_SIMPLE,
        s[0] != TAG_ERROR,
        s[0] != TAG_INT,
        s[0] != TAG_BULK,
        s[0] != TAG_ARRAY,
    ensures
        spec_decode(s) == DecodedSpec::Malformed,
{
}

/// Prepends already-read values and bytes to an element verdict.
pub open spec fn lift_elems(pref: Seq<ValueModel>, consumed: int, o: ElemsSpec) -> ElemsSpec {
    match o {
        ElemsSpec::Complete(vs, c2) => ElemsSpec::Complete(pref + vs, consumed + c2),
        ElemsSpec::Incomplete => ElemsSpec::Incomplete,
        ElemsSpec::Malformed => ElemsSpec::Malformed,
    }
}

proof fn lemma_lift_nil(o: ElemsSpec)
    ensures
        lift_elems(Seq::empty(), 0, o) == o,
{
    match o {
        ElemsSpec::Complete(vs, c2) => {
            assert(Seq::empty() + vs =~= vs);
        },
        ElemsSpec::Incomplete => {},
        ElemsSpec::Malformed => {},
    }
}

proof fn lemma_lift_compose(p1: Seq<ValueModel>, c1: int, p2: Seq<ValueModel>, c2: int, o: ElemsSpec)
    ensures
        lift_elems(p1, c1, lift_elems(p2, c2, o)) == lift_elems(p1 + p2, c1 + c2, o),
{
    match o {
        ElemsSpec::Complete(vs, c) => {
            assert(p1 + (p2 + vs) =~= (p1 + p2) + vs);
        },
        ElemsSpec::Incomplete => {},
        ElemsSpec::Malformed => {},
    }
}

/// One step of reading `n` values: the first value's verdict decides, and a
/// complete first value leaves `n - 1` to read after it.
proof fn lemma_elems_unfold(s: Seq<u8>, n: nat)
    requires
        n > 0,
    ensures
        match spec_decode(s) {
            DecodedSpec::Complete(v, c) => spec_decode_elems(s, n) == lift_elems(
                seq![v],
                c,
                spec_decode_elems(s.skip(c), (n - 1) as nat),
            ),
            DecodedSpec::Incomplete => spec_decode_elems(s, n) == ElemsSpec::Incomplete,
            DecodedSpec::Malformed => spec_decode_elems(s, n) == ElemsSpec::Malformed,
        },
{
    lemma_decode_bounds(s);
    match spec_decode(s) {
        DecodedSpec::Complete(v, c) => {
            match spec_decode_elems(s.skip(c), (n - 1) as nat) {
                ElemsSpec::Complete(vs, c2) => {},
                ElemsSpec::Incomplete => {},
                ElemsSpec::Malformed => {},
            }
        },
        DecodedSpec::Incomplete => {},
        DecodedSpec::Malformed => {},
    }
}

/// The decoder's verdict on a byte buffer, executable form: the decoded
/// value with the count of bytes consumed, a buffer still waiting for
/// bytes, or a corrupt frame.
#[derive(Debug, PartialEq, Eq)]
pub enum Decoded {
    Complete(RedisValue, usize),
    Incomplete,
    Malformed,
}

/// The scanner's verdict on one line: the index of its carriage return and
/// the position just past its line feed.
enum ScanRes {
    Found(usize, usize),
    Incomplete,
    Malformed,
}

/// Finds the terminator of the line starting at `pos`.
#[verifier::loop_isolation(false)]
fn scan_line(buf: &[u8], pos: usize) -> (r: ScanRes)
    requires
        pos <= buf@.len(),
    ensures
        ({
            let s = buf@.skip(pos as int);
            match r {
                ScanRes::Found(end, next) => {
                    &&& pos <= end
                    &&& end + 2 == next
                    &&& next <= buf@.len()
                    &&& spec_line(s) == LineRes::Line(
                        buf@.subrange(pos as int, end as int),
                        next - pos,
                    )
                },
                ScanRes::Incomplete => spec_line(s) is Incomplete,
                ScanRes::Malformed => spec_line(s) is Malformed,
            }
        }),
{
    let ghost s = buf@.skip(pos as int);
    let mut i = pos;
    while i < buf.len()
        invariant
            pos <= i <= buf@.len(),
            forall|k: int| pos <= k < i ==> buf@[k] != CR,
        decreases buf@.len() - i,
    {
        if buf[i] == CR {
            proof {
                let j0 = i - pos;
                assert(s[j0] == buf@[i as int]);
                assert(forall|k: int| 0 <= k < j0 ==> s[k] == buf@[pos + k] && s[k] != CR);
                lemma_find_cr(s, 0);
                match find_cr(s, 0) {
                    Option::None => {
                        assert(false);
                    },
                    Option::Some(j) => {
                        if j < j0 {
                            assert(s[j] != CR);
                            assert(false);
                        }
                        if j > j0 {
                            assert(s[j0] != CR);
                            assert(false);
                        }
                    },
                }
                assert(find_cr(s, 0) == Option::Some(i - pos));
            }
            if i + 1 >= buf.len() {
                return ScanRes::Incomplete;
            }
            if buf[i + 1] == LF {
                proof {
                    assert(s[i - pos + 1] == buf@[i + 1]);
                    assert(s.subrange(0, i - pos) =~= buf@.subrange(pos as int, i as int));
                }
                return ScanRes::Found(i, i + 2);
            } else {
                proof {
                    assert(s[i - pos + 1] == buf@[i + 1]);
                }
                return ScanRes::Malformed;
            }
        }
        i = i + 1;
    }
    proof {
        lemma_find_cr(s, 0);
        match find_cr(s, 0) {
            Option::Some(j) => {
                assert(s[j] == buf@[pos + j]);
                assert(false);
            },
            Option::None => {},
        }
    }
    ScanRes::Incomplete
}

/// Copies `buf[a..b]` into a fresh vector.
#[verifier::loop_isolation(false)]
pub(crate) fn copy_range(buf: &[u8], a: usize, b: usize) -> (r: Vec<u8>)
    requires
        a <= b <= buf@.len(),
    ensures
        r@ == buf@.subrange(a as int, b as int),
{
    let mut r: Vec<u8> = Vec::new();
    proof {
        assert(buf@.subrange(a as int, a as int) =~= Seq::<u8>::empty());
    }
    let mut i = a;
    while i < b
        invariant
            a <= i <= b,
            r@ == buf@.subrange(a as int, i as int),
        decreases b - i,
    {
        r.push(buf[i]);
        proof {
            assert(buf@.subrange(a as int, i + 1) =~= buf@.subrange(a as int, i as int).push(
                buf@[i as int],
            ));
        }
        i = i + 1;
    }
    r
}

/// Appends a copy of `src` to `dst`.
#[verifier::loop_isolation(false)]
pub(crate) fn push_all(dst: &mut Vec<u8>, src: &Vec<u8>)
    ensures
        final(dst)@ == old(dst)@ + src@,
{
    proof {
        assert(dst@ + src@.subrange(0, 0) =~= dst@);
    }
    let mut i: usize = 0;
    while i < src.len()
        invariant
            i <= src@.len(),
            dst@ == old(dst)@ + src@.subrange(0, i as int),
        decreases src@.len() - i,
    {
        dst.push(src[i]);
        proof {
            assert(src@.subrange(0, i as int + 1) =~= src@.subrange(0, i as int).push(
                src@[i as int],
            ));
            assert(old(dst)@ + src@.subrange(0, i as int + 1) =~= (old(dst)@ + src@.subrange(
                0,
                i as int,
            )).push(src@[i as int]));
        }
        i = i + 1;
    }
    proof {
        assert(src@.subrange(0, src@.len() as int) =~= src@);
    }
}

/// Appends the line terminator.
fn push_crlf(dst: &mut Vec<u8>)
    ensures
        final(dst)@ == old(dst)@ + crlf(),
{
    dst.push(CR);
    dst.push(LF);
    proof {
        assert(old(dst)@.push(CR).push(LF) =~= old(dst)@ + crlf());
    }
}

/// Appends the canonical digits of a length or count.
pub(crate) fn push_len(dst: &mut Vec<u8>, n: usize)
    ensures
        final(dst)@ == old(dst)@ + dec_int(n as int),
{
    let d = fmt_u64(n as u64);
    push_all(dst, &d);
}

/// Appends the canonical decimal rendering of a signed integer.
pub(crate) fn push_int(dst: &mut Vec<u8>, i: i64)
    ensures
        final(dst)@ == old(dst)@ + dec_int(i as int),
{
    if i >= 0 {
        let d = fmt_u64(i as u64);
        push_all(dst, &d);
    } else {
        dst.push(45);
        let mag: u64 = ((-(i + 1)) as u64) + 1;
        let d = fmt_u64(mag);
        push_all(dst, &d);
        proof {
            assert(mag as int == -(i as int));
            assert(old(dst)@.push(45u8) + dec_digits((-(i as int)) as nat) =~= old(dst)@ + (seq![
                45u8,
            ] + dec_digits((-(i as int)) as nat)));
        }
    }
}

/// The verdict on the single value starting at `pos`: the value and the
/// position just past it, or why there is none.
enum DecodedAt {
    Complete(RedisValue, usize),
    Incomplete,
    Malformed,
}

/// Decodes the single value starting at `pos`: recursive descent with the
/// tag byte as the only lookahead.
#[verifier::loop_isolation(false)]
#[verifier::rlimit(60)]
fn decode_value(buf: &[u8], pos: usize) -> (r: DecodedAt)
    requires
        pos <= buf@.len(),
    ensures
        ({
            let s = buf@.skip(pos as int);
            match r {
                DecodedAt::Complete(v, next) => {
                    &&& pos < next <= buf@.len()
                    &&& spec_decode(s) == DecodedSpec::Complete(v@, next - pos)
                },
                DecodedAt::Incomplete => spec_decode(s) is Incomplete,
                DecodedAt::Malformed => spec_decode(s) is Malformed,
            }
        }),
    decreases buf@.len() - pos,
{
    let blen = buf.len();
    let ghost s = buf@.skip(pos as int);
    if pos == blen {
        return DecodedAt::Incomplete;
    }
    let tag = buf[pos];
    proof {
        assert(s[0] == buf@[pos as int]);
        assert(s.skip(1) =~= buf@.skip(pos as int + 1));
    }
    if tag == TAG_SIMPLE || tag == TAG_ERROR {
        match scan_line(buf, pos + 1) {
            ScanRes::Found(end, next) => {
                let payload = copy_range(buf, pos + 1, end);
                if tag == TAG_SIMPLE {
                    DecodedAt::Complete(RedisValue::Str(payload), next)
                } else {
                    DecodedAt::Complete(RedisValue::Error(payload), next)
                }
            },
            ScanRes::Incomplete => DecodedAt::Incomplete,
            ScanRes::Malformed => DecodedAt::Malformed,
        }
    } else if tag == TAG_INT {
        match scan_line(buf, pos + 1) {
            ScanRes::Found(end, next) => {
                let ghost line = buf@.subrange(pos as int + 1, end as int);
                let p = parse_dec(buf, pos + 1, end);
                if !p.ok {
                    return DecodedAt::Malformed;
                }
                let ghost nv = spec_parse_dec(line)->Some_0;
                if p.sat {
                    proof {
                        assert(nv > i64::MAX || nv < i64::MIN);
                    }
                    return DecodedAt::Malformed;
                }
                if p.neg {
                    if p.mag <= (i64::MAX as u64) {
                        let iv: i64 = -(p.mag as i64);
                        proof {
                            assert(nv == -(p.mag as int));
                        }
                        DecodedAt::Complete(RedisValue::Int(iv), next)
                    } else if p.mag == (i64::MAX as u64) + 1 {
                        proof {
                            assert(nv == -(p.mag as int));
                            assert(nv == i64::MIN);
                        }
                        DecodedAt::Complete(RedisValue::Int(i64::MIN), next)
                    } else {
                        proof {
                            assert(nv < i64::MIN);
                        }
                        DecodedAt::Malformed
                    }
                } else {
                    if p.mag <= (i64::MAX as u64) {
                        DecodedAt::Complete(RedisValue::Int(p.mag as i64), next)
                    } else {
                        proof {
                            assert(nv > i64::MAX);
                        }
                        DecodedAt::Malformed
                    }
                }
            },
            ScanRes::Incomplete => DecodedAt::Incomplete,
            ScanRes::Malformed => DecodedAt::Malformed,
        }
    } else if tag == TAG_BULK {
        match scan_line(buf, pos + 1) {
            ScanRes::Found(end, next) => {
                let ghost line = buf@.subrange(pos as int + 1, end as int);
                let ghost start = next - pos;
                let p = parse_dec(buf, pos + 1, end);
                if !p.ok {
                    return DecodedAt::Malformed;
                }
                let ghost nv = spec_parse_dec(line)->Some_0;
                if p.neg {
                    if p.sat {
                        proof {
                            assert(nv < -1);
                        }
                        return DecodedAt::Malformed;
                    }
                    if p.mag == 1 {
                        proof {
                            assert(nv == -1);
                        }
                        return DecodedAt::Complete(RedisValue::Nil, next);
                    }
                    if p.mag >= 2 {
                        proof {
                            assert(nv < -1);
                        }
                        return DecodedAt::Malformed;
                    }
                }
                // from here the declared length nv is non-negative
                if p.sat {
                    proof {
                        assert(nv > u64::MAX);
                        assert(buf@.len() <= usize::MAX);
                        assert(s.len() < start + nv + 2);
                    }
                    return DecodedAt::Incomplete;
                }
                let n: u64 = if p.neg {
                    0
                } else {
                    p.mag
                };
                proof {
                    assert(nv == n as int);
                }
                let remaining = blen - next;
                if n > (remaining as u64) {
                    proof {
                        assert(s.len() < start + nv + 2);
                    }
                    return DecodedAt::Incomplete;
                }
                let nn = n as usize;
                proof {
                    assert(nn as int == nv);
                }
                if remaining - nn < 2 {
                    proof {
                        assert(s.len() < start + nv + 2);
                    }
                    return DecodedAt::Incomplete;
                }
                proof {
                    assert(s.len() >= start + nv + 2);
                    assert(s[start + nv] == buf@[(next + nn) as int]);
                    assert(s[start + nv + 1] == buf@[(next + nn + 1) as int]);
                }
                if buf[next + nn] == CR && buf[next + nn + 1] == LF {
                    let payload = copy_range(buf, next, next + nn);
                    proof {
                        assert(s.subrange(start, start + nv) =~= buf@.subrange(
                            next as int,
                            next as int + nn as int,
                        ));
                    }
                    DecodedAt::Complete(RedisValue::Bulk(payload), next + nn + 2)
                } else {
                    DecodedAt::Malformed
                }
            },
            ScanRes::Incomplete => DecodedAt::Incomplete,
            ScanRes::Malformed => DecodedAt::Malformed,
        }
    } else if tag == TAG_ARRAY {
        match scan_line(buf, pos + 1) {
            ScanRes::Found(end, next) => {
                let ghost line = buf@.subrange(pos as int + 1, end as int);
                let ghost start = next - pos;
                let p = parse_dec(buf, pos + 1, end);
                if !p.ok {
                    return DecodedAt::Malformed;
                }
                let ghost nv = spec_parse_dec(line)->Some_0;
                if p.neg {
                    if p.sat || p.mag >= 1 {
                        proof {
                            assert(nv < 0);
                        }
                        return DecodedAt::Malformed;
                    }
                }
                let sat = p.sat;
                let mag: u64 = if p.neg {
                    0
                } else {
                    p.mag
                };
                proof {
                    assert(nv >= 0);
                    assert(1 <= start <= s.len());
                    assert(s.skip(start) =~= buf@.skip(next as int));
                    if !sat {
                        assert(nv == mag as int);
                    } else {
                        assert(nv > u64::MAX);
                    }
                }
                let mut items: Vec<RedisValue> = Vec::new();
                let mut cur: usize = next;
                let mut i: u64 = 0;
                proof {
                    lemma_lift_nil(spec_decode_elems(buf@.skip(next as int), nv as nat));
                    assert(elems_view(items@) =~= Seq::<ValueModel>::empty());
                }
                loop
                    invariant
                        pos < next <= cur <= blen,
                        blen == buf@.len(),
                        i as int == items@.len(),
                        i as int <= nv,
                        i as int <= cur - next,
                        spec_decode_elems(buf@.skip(next as int), nv as nat) == lift_elems(
                            elems_view(items@),
                            cur - next,
                            spec_decode_elems(buf@.skip(cur as int), (nv - i) as nat),
                        ),
                    decreases blen - cur,
                {
                    if !sat && i == mag {
                        proof {
                            assert((nv - i) as nat == 0nat);
                            assert(spec_decode_elems(buf@.skip(cur as int), 0nat)
                                == ElemsSpec::Complete(Seq::empty(), 0));
                            assert(elems_view(items@) + Seq::<ValueModel>::empty() =~= elems_view(
                                items@,
                            ));
                            assert(spec_decode_elems(buf@.skip(next as int), nv as nat)
                                == ElemsSpec::Complete(elems_view(items@), cur - next));
                        }
                        return DecodedAt::Complete(RedisValue::Array(items), cur);
                    }
                    proof {
                        if sat {
                            assert(i as int <= cur - next <= blen);
                        }
                        assert(i < nv);
                        lemma_elems_unfold(buf@.skip(cur as int), (nv - i) as nat);
                    }
                    match decode_value(buf, cur) {
                        DecodedAt::Complete(v, nxt) => {
                            proof {
                                assert(buf@.skip(cur as int).skip(nxt - cur) =~= buf@.skip(
                                    nxt as int,
                                ));
                                lemma_lift_compose(
                                    elems_view(items@),
                                    cur - next,
                                    seq![v@],
                                    nxt - cur,
                                    spec_decode_elems(buf@.skip(nxt as int), (nv - i - 1) as nat),
                                );
                                assert(elems_view(items@.push(v)) =~= elems_view(items@)
                                    + seq![v@]);
                            }
                            items.push(v);
                            cur = nxt;
                            i = i + 1;
                        },
                        DecodedAt::Incomplete => {
                            return DecodedAt::Incomplete;
                        },
                        DecodedAt::Malformed => {
                            return DecodedAt::Malformed;
                        },
                    }
                }
            },
            ScanRes::Incomplete => DecodedAt::Incomplete,
            ScanRes::Malformed => DecodedAt::Malformed,
        }
    } else {
        DecodedAt::Malformed
    }
}

impl RedisValue {
    /// Decodes the first value of `s` and reports how many bytes it covers;
    /// the verdict distinguishes a buffer that has not yet received a whole
    /// value from a corrupt frame.
    pub fn decode(s: &[u8]) -> (r: Decoded)
        ensures
            match r {
                Decoded::Complete(v, n) => {
                    &&& 0 < n <= s@.len()
                    &&& spec_decode(s@) == DecodedSpec::Complete(v@, n as int)
                },
                Decoded::Incomplete => spec_decode(s@) is Incomplete,
                Decoded::Malformed => spec_decode(s@) is Malformed,
            },
    {
        proof {
            assert(s@.skip(0) =~= s@);
        }
        match decode_value(s, 0) {
            DecodedAt::Complete(v, next) => Decoded::Complete(v, next),
            DecodedAt::Incomplete => Decoded::Incomplete,
            DecodedAt::Malformed => Decoded::Malformed,
        }
    }

    /// Decodes the first value of `s`, or nothing when the buffer holds no
    /// complete well-formed value; the count says where the next value
    /// would start.
    pub fn deserialize(s: &[u8]) -> (r: Option<(RedisValue, usize)>)
        ensures
            match r {
                Option::Some((v, n)) => {
                    &&& 0 < n <= s@.len()
                    &&& spec_decode(s@) == DecodedSpec::Complete(v@, n as int)
                },
                Option::None => !(spec_decode(s@) is Complete),
            },
    {
        match RedisValue::decode(s) {
            Decoded::Complete(v, n) => Option::Some((v, n)),
            Decoded::Incomplete => Option::None,
            Decoded::Malformed => Option::None,
        }
    }

    /// Encodes the value into its canonical wire bytes. Total: every value
    /// has exactly one encoding and nothing can fail.
    #[verifier::loop_isolation(false)]
    pub fn to_wire(&self) -> (r: Vec<u8>)
        ensures
            r@ == spec_encode(self@),
        decreases self,
    {
        let mut out: Vec<u8> = Vec::new();
        match self {
            RedisValue::Str(s) => {
                out.push(TAG_SIMPLE);
                push_all(&mut out, s);
                push_crlf(&mut out);
                proof {
                    assert(out@ =~= seq![TAG_SIMPLE] + s@ + crlf());
                }
            },
            RedisValue::Error(s) => {
                out.push(TAG_ERROR);
                push_all(&mut out, s);
                push_crlf(&mut out);
                proof {
                    assert(out@ =~= seq![TAG_ERROR] + s@ + crlf());
                }
            },
            RedisValue::Int(i) => {
                out.push(TAG_INT);
                push_int(&mut out, *i);
                push_crlf(&mut out);
                proof {
                    assert(out@ =~= seq![TAG_INT] + dec_int(*i as int) + crlf());
                }
            },
            RedisValue::Nil => {
                out.push(TAG_BULK);
                out.push(45);
                out.push(49);
                push_crlf(&mut out);
                proof {
                    assert(dec_digits(1nat) =~= seq![49u8]);
                    assert(dec_int(-1) =~= seq![45u8, 49u8]);
                    assert(out@ =~= seq![TAG_BULK] + dec_int(-1) + crlf());
                }
            },
            RedisValue::Bulk(p) => {
                out.push(TAG_BULK);
                push_len(&mut out, p.len());
                push_crlf(&mut out);
                push_all(&mut out, p);
                push_crlf(&mut out);
                proof {
                    assert(out@ =~= seq![TAG_BULK] + dec_int(p@.len() as int) + crlf() + p@
                        + crlf());
                }
            },
            RedisValue::Array(es) => {
                out.push(TAG_ARRAY);
                push_len(&mut out, es.len());
                push_crlf(&mut out);
                let ghost hdr = out@;
                let ghost evs = elems_view(es@);
                proof {
                    assert(out@ + spec_encode_from(evs, 0) == hdr + spec_encode_from(evs, 0));
                }
                let mut j: usize = 0;
                while j < es.len()
                    invariant
                        j <= es@.len(),
                        evs == elems_view(es@),
                        out@ + spec_encode_from(evs, j as int) == hdr + spec_encode_from(evs, 0),
                    decreases es@.len() - j,
                {
                    let ghost out_pre = out@;
                    proof {
                        assert(decreases_to!(*es => es@[j as int]));
                        assert(decreases_to!(self => es@[j as int]));
                    }
                    let w = es[j].to_wire();
                    push_all(&mut out, &w);
                    proof {
                        assert(evs[j as int] == es@[j as int]@);
                        assert(w@ == spec_encode(evs[j as int]));
                        assert(spec_encode_from(evs, j as int) == spec_encode(evs[j as int])
                            + spec_encode_from(evs, j as int + 1));
                        assert((out_pre + w@) + spec_encode_from(evs, j as int + 1) =~= out_pre + (
                        w@ + spec_encode_from(evs, j as int + 1)));
                    }
                    j = j + 1;
                }
                proof {
                    assert(spec_encode_from(evs, es@.len() as int) == Seq::<u8>::empty());
                    assert(out@ + Seq::<u8>::empty() =~= out@);
                    assert(hdr + spec_encode_from(evs, 0) =~= seq![TAG_ARRAY] + dec_int(
                        es@.len() as int,
                    ) + crlf() + spec_encode_from(evs, 0));
                }
            },
        }
        out
    }

    /// Whether the buffer begins with one complete, well-formed value.
    pub fn is_valid(s: &[u8]) -> (r: bool)
        ensures
            r == (spec_decode(s@) is Complete),
    {
        match RedisValue::decode(s) {
            Decoded::Complete(_, _) => true,
            Decoded::Incomplete => false,
            Decoded::Malformed => false,
        }
    }
}

} // verus!
