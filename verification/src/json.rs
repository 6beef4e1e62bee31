//! The JSON document model used by the wire protocol, with a canonical
//! serializer and a parser that are proved to invert each other.
//!
//! Wire payloads are JSON with insignificant whitespace between tokens
//! accepted on decoding (encoding is compact). Strings are UTF-8 with
//! `"`, `\` and control characters escaped; numbers are 64-bit signed
//! integers; `true`, `false`, `null`, arrays and objects follow the usual
//! grammar.

use vstd::prelude::*;
use vstd::utf8::{encode_utf8, decode_utf8, valid_utf8, encode_scalar};

verus! {

/// Mathematical model of a JSON document: the view of [`JsonValue`].
pub enum JVal {
    Null,
    Bool(bool),
    Int(i64),
    Str(Seq<char>),
    Arr(Seq<JVal>),
    Obj(Seq<(Seq<char>, JVal)>),
}

/// A JSON document as held and produced by the library.
///
/// Numbers are restricted to 64-bit signed integers: the wire protocol's
/// headers and bodies carry identifiers, counts and flags, never fractional
/// values.
pub enum JsonValue {
    Null,
    Bool(bool),
    Int(i64),
    Str(String),
    Arr(Vec<JsonValue>),
    Obj(Vec<(String, JsonValue)>),
}

/// The model of one executable JSON value.
pub open spec fn jval_of(v: JsonValue) -> JVal
    decreases v, 0int,
{
    match v {
        JsonValue::Null => JVal::Null,
        JsonValue::Bool(b) => JVal::Bool(b),
        JsonValue::Int(i) => JVal::Int(i),
        JsonValue::Str(s) => JVal::Str(s@),
        JsonValue::Arr(a) => JVal::Arr(jvals_of(a@, 0)),
        JsonValue::Obj(o) => JVal::Obj(jpairs_of(o@, 0)),
    }
}

/// The models of the elements of `a` from index `i` on.
pub open spec fn jvals_of(a: Seq<JsonValue>, i: int) -> Seq<JVal>
    decreases a, a.len() - i,
{
    if 0 <= i < a.len() {
        seq![jval_of(a[i])] + jvals_of(a, i + 1)
    } else {
        Seq::empty()
    }
}

/// The models of the key/value pairs of `o` from index `i` on.
pub open spec fn jpairs_of(o: Seq<(String, JsonValue)>, i: int) -> Seq<(Seq<char>, JVal)>
    decreases o, o.len() - i,
{
    if 0 <= i < o.len() {
        seq![(o[i].0@, jval_of(o[i].1))] + jpairs_of(o, i + 1)
    } else {
        Seq::empty()
    }
}

impl View for JsonValue {
    type V = JVal;

    open spec fn view(&self) -> JVal {
        jval_of(*self)
    }
}

pub proof fn lemma_jvals_of(a: Seq<JsonValue>, i: int)
    requires
        0 <= i <= a.len(),
    ensures
        jvals_of(a, i).len() == a.len() - i,
        forall|j: int| i <= j < a.len() ==> jvals_of(a, i)[j - i] == jval_of(a[j]),
    decreases a.len() - i,
{
    if i < a.len() {
        lemma_jvals_of(a, i + 1);
    }
}

pub proof fn lemma_jpairs_of(o: Seq<(String, JsonValue)>, i: int)
    requires
        0 <= i <= o.len(),
    ensures
        jpairs_of(o, i).len() == o.len() - i,
        forall|j: int| i <= j < o.len() ==> jpairs_of(o, i)[j - i] == (o[j].0@, jval_of(o[j].1)),
    decreases o.len() - i,
{
    if i < o.len() {
        lemma_jpairs_of(o, i + 1);
    }
}

// ---------------------------------------------------------------------------
// Canonical serialization
// ---------------------------------------------------------------------------

/// The lower-case hexadecimal digit for `n` (0 <= n < 16).
pub open spec fn hex_digit(n: int) -> u8 {
    if n < 10 {
        (0x30 + n) as u8
    } else {
        (0x57 + n) as u8
    }
}

/// How one byte of a string's UTF-8 form appears inside a JSON string
/// literal: `"` and `\` get a backslash escape, control bytes become
/// `\u00XX`, and every other byte stands for itself.
pub open spec fn escape_byte(c: u8) -> Seq<u8> {
    if c == 0x22 {
        seq![0x5cu8, 0x22u8]
    } else if c == 0x5c {
        seq![0x5cu8, 0x5cu8]
    } else if c < 0x20 {
        seq![0x5cu8, 0x75u8, 0x30u8, 0x30u8, hex_digit(c as int / 16), hex_digit(c as int % 16)]
    } else {
        seq![c]
    }
}

pub open spec fn escape_bytes(s: Seq<u8>) -> Seq<u8>
    decreases s.len(),
{
    if s.len() == 0 {
        Seq::empty()
    } else {
        escape_byte(s[0]) + escape_bytes(s.drop_first())
    }
}

/// A JSON string literal: quote, escaped UTF-8 bytes, quote.
pub open spec fn ser_string(s: Seq<char>) -> Seq<u8> {
    seq![0x22u8] + escape_bytes(encode_utf8(s)) + seq![0x22u8]
}

/// The decimal digits of `n`, most significant first.
pub open spec fn dec_digits(n: nat) -> Seq<u8>
    decreases n,
{
    if n < 10 {
        seq![(0x30 + n) as u8]
    } else {
        dec_digits(n / 10) + seq![(0x30 + n % 10) as u8]
    }
}

/// A JSON integer: optional minus sign, then decimal digits.
pub open spec fn ser_int(n: int) -> Seq<u8> {
    if n < 0 {
        seq![0x2du8] + dec_digits((-n) as nat)
    } else {
        dec_digits(n as nat)
    }
}

/// The canonical serialization of a JSON value.
pub open spec fn ser_val(v: JVal) -> Seq<u8>
    decreases v, 0int,
{
    match v {
        JVal::Null => seq![0x6eu8, 0x75u8, 0x6cu8, 0x6cu8],
        JVal::Bool(b) => if b {
            seq![0x74u8, 0x72u8, 0x75u8, 0x65u8]
        } else {
            seq![0x66u8, 0x61u8, 0x6cu8, 0x73u8, 0x65u8]
        },
        JVal::Int(i) => ser_int(i as int),
        JVal::Str(s) => ser_string(s),
        JVal::Arr(a) => if a.len() == 0 {
            seq![0x5bu8, 0x5du8]
        } else {
            seq![0x5bu8] + ser_elems(a, 0) + seq![0x5du8]
        },
        JVal::Obj(o) => if o.len() == 0 {
            seq![0x7bu8, 0x7du8]
        } else {
            seq![0x7bu8] + ser_members(o, 0) + seq![0x7du8]
        },
    }
}

/// The serialization of the elements of `a` from index `i` on,
/// separated by commas.
pub open spec fn ser_elems(a: Seq<JVal>, i: int) -> Seq<u8>
    decreases a, a.len() - i,
{
    if 0 <= i < a.len() {
        ser_val(a[i]) + (if i + 1 < a.len() {
            seq![0x2cu8] + ser_elems(a, i + 1)
        } else {
            Seq::empty()
        })
    } else {
        Seq::empty()
    }
}

/// The serialization of the members of `o` from index `i` on:
/// `"key":value` pairs separated by commas.
pub open spec fn ser_members(o: Seq<(Seq<char>, JVal)>, i: int) -> Seq<u8>
    decreases o, o.len() - i,
{
    if 0 <= i < o.len() {
        ser_string(o[i].0) + seq![0x3au8] + ser_val(o[i].1) + (if i + 1 < o.len() {
            seq![0x2cu8] + ser_members(o, i + 1)
        } else {
            Seq::empty()
        })
    } else {
        Seq::empty()
    }
}

// ---------------------------------------------------------------------------
// Parsing
// ---------------------------------------------------------------------------

pub open spec fn is_digit(c: u8) -> bool {
    0x30 <= c <= 0x39
}

/// JSON's insignificant whitespace bytes.
pub open spec fn is_ws(c: u8) -> bool {
    c == 0x20 || c == 0x09 || c == 0x0a || c == 0x0d
}

/// The end of the run of whitespace starting at `i`.
pub open spec fn ws_end(b: Seq<u8>, i: int) -> int
    decreases b.len() - i,
{
    if 0 <= i < b.len() && is_ws(b[i]) {
        ws_end(b, i + 1)
    } else {
        i
    }
}

pub open spec fn is_hex_digit(c: u8) -> bool {
    0x30 <= c <= 0x39 || 0x61 <= c <= 0x66 || 0x41 <= c <= 0x46
}

/// The value of the four hexadecimal digit bytes at `j`.
pub open spec fn hex4_val(b: Seq<u8>, j: int) -> int {
    ((hex_val(b[j]) * 16 + hex_val(b[j + 1])) * 16 + hex_val(b[j + 2])) * 16 + hex_val(b[j + 3])
}

/// Whether four hexadecimal digit bytes stand at `j`.
pub open spec fn hex4_at(b: Seq<u8>, j: int) -> bool {
    j + 4 <= b.len() && is_hex_digit(b[j]) && is_hex_digit(b[j + 1]) && is_hex_digit(b[j + 2])
        && is_hex_digit(b[j + 3])
}

/// The value of a hexadecimal digit byte.
pub open spec fn hex_val(c: u8) -> int {
    if 0x30 <= c <= 0x39 {
        c - 0x30
    } else if 0x61 <= c <= 0x66 {
        c - 0x57
    } else {
        c - 0x37
    }
}

/// The end of the run of decimal digits that starts at `j`.
pub open spec fn digits_end(b: Seq<u8>, j: int) -> int
    decreases b.len() - j,
{
    if 0 <= j < b.len() && is_digit(b[j]) {
        digits_end(b, j + 1)
    } else {
        j
    }
}

/// The numeric value of the digit bytes `b[j..e)`.
pub open spec fn digits_val(b: Seq<u8>, j: int, e: int) -> nat
    decreases e - j,
{
    if j < e {
        digits_val(b, j, e - 1) * 10 + (if is_digit(b[e - 1]) {
            (b[e - 1] - 0x30) as nat
        } else {
            0nat
        })
    } else {
        0nat
    }
}

/// Parses an integer at position `i`: an optional minus sign, then at least
/// one decimal digit, greedily. A value outside the `i64` range is rejected.
pub open spec fn parse_int(b: Seq<u8>, i: int) -> Option<(JVal, int)> {
    let neg = 0 <= i < b.len() && b[i] == 0x2d;
    let start = if neg { i + 1 } else { i };
    let e = digits_end(b, start);
    if e == start {
        None
    } else {
        let n = digits_val(b, start, e);
        if neg {
            if n > 0x8000_0000_0000_0000 {
                None
            } else {
                Some((JVal::Int((-(n as int)) as i64), e))
            }
        } else {
            if n > 0x7fff_ffff_ffff_ffff {
                None
            } else {
                Some((JVal::Int(n as i64), e))
            }
        }
    }
}

/// Parses the inside of a string literal from position `j` up to and over
/// the closing quote, returning the unescaped bytes. Raw control bytes and
/// unknown escapes are rejected; a `\uXXXX` escape stands for its code
/// point's UTF-8 bytes, with a surrogate pair read as one code point and a
/// lone surrogate rejected.
pub open spec fn parse_string_body(b: Seq<u8>, j: int) -> Option<(Seq<u8>, int)>
    decreases b.len() - j,
{
    if !(0 <= j < b.len()) {
        None
    } else if b[j] == 0x22 {
        Some((Seq::empty(), j + 1))
    } else if b[j] == 0x5c {
        if j + 1 >= b.len() {
            None
        } else {
            let e = b[j + 1];
            if e == 0x75 {
                if j + 6 <= b.len() && hex4_at(b, j + 2) {
                    let n = hex4_val(b, j + 2);
                    if n < 0xD800 || n > 0xDFFF {
                        match parse_string_body(b, j + 6) {
                            Some((rest, k)) => Some((encode_scalar(n as u32) + rest, k)),
                            None => None,
                        }
                    } else if n <= 0xDBFF {
                        if j + 12 <= b.len() && b[j + 6] == 0x5c && b[j + 7] == 0x75 && hex4_at(
                            b,
                            j + 8,
                        ) {
                            let n2 = hex4_val(b, j + 8);
                            if 0xDC00 <= n2 <= 0xDFFF {
                                let cp = 0x10000 + (n - 0xD800) * 0x400 + (n2 - 0xDC00);
                                match parse_string_body(b, j + 12) {
                                    Some((rest, k)) => Some((encode_scalar(cp as u32) + rest, k)),
                                    None => None,
                                }
                            } else {
                                None
                            }
                        } else {
                            None
                        }
                    } else {
                        None
                    }
                } else {
                    None
                }
            } else {
                let c: u8 = if e == 0x22 {
                    0x22
                } else if e == 0x5c {
                    0x5c
                } else if e == 0x2f {
                    0x2f
                } else if e == 0x62 {
                    0x08
                } else if e == 0x66 {
                    0x0c
                } else if e == 0x6e {
                    0x0a
                } else if e == 0x72 {
                    0x0d
                } else if e == 0x74 {
                    0x09
                } else {
                    0xff
                };
                if c == 0xff {
                    None
                } else {
                    match parse_string_body(b, j + 2) {
                        Some((rest, k)) => Some((seq![c] + rest, k)),
                        None => None,
                    }
                }
            }
        }
    } else if b[j] < 0x20 {
        None
    } else {
        match parse_string_body(b, j + 1) {
            Some((rest, k)) => Some((seq![b[j]] + rest, k)),
            None => None,
        }
    }
}

/// Parses a string literal at position `i` (which must hold the opening
/// quote) into its character sequence; the unescaped bytes must be UTF-8.
pub open spec fn parse_string(b: Seq<u8>, i: int) -> Option<(Seq<char>, int)> {
    if 0 <= i < b.len() && b[i] == 0x22 {
        match parse_string_body(b, i + 1) {
            Some((u, k)) => if valid_utf8(u) {
                Some((decode_utf8(u), k))
            } else {
                None
            },
            None => None,
        }
    } else {
        None
    }
}

/// Parses one JSON value whose first token byte stands at position `i`,
/// returning it with the position just past it. Whitespace between the
/// tokens of arrays and objects is insignificant.
pub open spec fn parse_val(b: Seq<u8>, i: int) -> Option<(JVal, int)>
    decreases b.len() - i, 0int,
{
    if !(0 <= i < b.len()) {
        None
    } else if b[i] == 0x6e {
        if i + 4 <= b.len() && b[i + 1] == 0x75 && b[i + 2] == 0x6c && b[i + 3] == 0x6c {
            Some((JVal::Null, i + 4))
        } else {
            None
        }
    } else if b[i] == 0x74 {
        if i + 4 <= b.len() && b[i + 1] == 0x72 && b[i + 2] == 0x75 && b[i + 3] == 0x65 {
            Some((JVal::Bool(true), i + 4))
        } else {
            None
        }
    } else if b[i] == 0x66 {
        if i + 5 <= b.len() && b[i + 1] == 0x61 && b[i + 2] == 0x6c && b[i + 3] == 0x73 && b[i
            + 4] == 0x65 {
            Some((JVal::Bool(false), i + 5))
        } else {
            None
        }
    } else if b[i] == 0x22 {
        match parse_string(b, i) {
            Some((s, k)) => Some((JVal::Str(s), k)),
            None => None,
        }
    } else if b[i] == 0x5b {
        let p = ws_end(b, i + 1);
        if p < b.len() && b[p] == 0x5d {
            Some((JVal::Arr(Seq::empty()), p + 1))
        } else {
            match parse_elems(b, i + 1) {
                Some((vs, k)) => Some((JVal::Arr(vs), k)),
                None => None,
            }
        }
    } else if b[i] == 0x7b {
        let p = ws_end(b, i + 1);
        if p < b.len() && b[p] == 0x7d {
            Some((JVal::Obj(Seq::empty()), p + 1))
        } else {
            match parse_members(b, i + 1) {
                Some((ps, k)) => Some((JVal::Obj(ps), k)),
                None => None,
            }
        }
    } else if b[i] == 0x2d || is_digit(b[i]) {
        parse_int(b, i)
    } else {
        None
    }
}

/// Parses the elements of a non-empty array from position `i` up to and
/// over the closing bracket.
pub open spec fn parse_elems(b: Seq<u8>, i: int) -> Option<(Seq<JVal>, int)>
    decreases b.len() - i, 1int,
{
    let s0 = ws_end(b, i);
    if s0 < i || s0 > b.len() {
        None
    } else {
        match parse_val(b, s0) {
            Some((v, k)) => {
                let k2 = ws_end(b, k);
                if k2 < i {
                    None
                } else if k2 < b.len() && b[k2] == 0x2c {
                    match parse_elems(b, k2 + 1) {
                        Some((vs, e)) => Some((seq![v] + vs, e)),
                        None => None,
                    }
                } else if k2 < b.len() && b[k2] == 0x5d {
                    Some((seq![v], k2 + 1))
                } else {
                    None
                }
            },
            None => None,
        }
    }
}

/// Parses the members of a non-empty object from position `i` up to and
/// over the closing brace.
pub open spec fn parse_members(b: Seq<u8>, i: int) -> Option<(Seq<(Seq<char>, JVal)>, int)>
    decreases b.len() - i, 1int,
{
    let s0 = ws_end(b, i);
    if s0 < i {
        None
    } else {
        match parse_string(b, s0) {
            Some((s, k)) => {
                let k2 = ws_end(b, k);
                if k2 < i || !(k2 < b.len() && b[k2] == 0x3a) {
                    None
                } else {
                    let v0 = ws_end(b, k2 + 1);
                    if v0 < i + 1 || v0 > b.len() {
                        None
                    } else {
                        match parse_val(b, v0) {
                            Some((v, m)) => {
                                let m2 = ws_end(b, m);
                                if m2 < i {
                                    None
                                } else if m2 < b.len() && b[m2] == 0x2c {
                                    match parse_members(b, m2 + 1) {
                                        Some((ps, e)) => Some((seq![(s, v)] + ps, e)),
                                        None => None,
                                    }
                                } else if m2 < b.len() && b[m2] == 0x7d {
                                    Some((seq![(s, v)], m2 + 1))
                                } else {
                                    None
                                }
                            },
                            None => None,
                        }
                    }
                }
            },
            None => None,
        }
    }
}

/// Parses a whole JSON document: one value, surrounded by nothing but
/// whitespace, covering every byte of `b`.
pub open spec fn parse_doc(b: Seq<u8>) -> Option<JVal> {
    match parse_val(b, ws_end(b, 0)) {
        Some((v, k)) => if ws_end(b, k) == b.len() {
            Some(v)
        } else {
            None
        },
        None => None,
    }
}

// ---------------------------------------------------------------------------
// The parser inverts the canonical serializer
// ---------------------------------------------------------------------------

proof fn lemma_parse_escaped(u: Seq<u8>, b: Seq<u8>, j: int)
    requires
        0 <= j,
        j + escape_bytes(u).len() + 1 <= b.len(),
        forall|m: int| 0 <= m < escape_bytes(u).len() ==> b[j + m] == escape_bytes(u)[m],
        b[j + escape_bytes(u).len()] == 0x22,
    ensures
        parse_string_body(b, j) == Some((u, j + escape_bytes(u).len() + 1)),
    decreases u.len(),
{
    if u.len() == 0 {
        assert(u =~= Seq::empty());
    } else {
        let e0 = escape_byte(u[0]);
        let rest = escape_bytes(u.drop_first());
        assert(escape_bytes(u) == e0 + rest);
        assert forall|m: int| 0 <= m < rest.len() implies b[j + e0.len() + m] == rest[m] by {
            assert(b[j + (e0.len() + m)] == (e0 + rest)[e0.len() + m]);
        }
        assert forall|m: int| 0 <= m < e0.len() implies b[j + m] == e0[m] by {
            assert(b[j + m] == (e0 + rest)[m]);
        }
        let j2 = j + e0.len();
        lemma_parse_escaped(u.drop_first(), b, j2);
        if u[0] == 0x22 {
            assert(b[j] == 0x5c && b[j + 1] == 0x22);
            assert(seq![u[0]] + u.drop_first() =~= u);
        } else if u[0] == 0x5c {
            assert(b[j] == 0x5c && b[j + 1] == 0x5c);
            assert(seq![u[0]] + u.drop_first() =~= u);
        } else if u[0] < 0x20 {
            assert(b[j] == 0x5c && b[j + 1] == 0x75);
            assert(b[j + 2] == 0x30 && b[j + 3] == 0x30);
            let h1 = hex_digit(u[0] as int / 16);
            let h2 = hex_digit(u[0] as int % 16);
            assert(b[j + 4] == h1 && b[j + 5] == h2);
            assert(is_hex_digit(h1) && is_hex_digit(h2));
            assert(hex_val(0x30) == 0);
            assert(hex_val(h1) == u[0] as int / 16);
            assert(hex_val(h2) == u[0] as int % 16);
            assert(hex4_at(b, j + 2));
            let n = hex4_val(b, j + 2);
            assert(n == u[0] as int / 16 * 16 + u[0] as int % 16);
            assert(n == u[0]);
            let cb = u[0];
            assert(((cb as u32) & 0x7F) as u8 == cb) by (bit_vector)
                requires
                    cb < 0x20,
            ;
            assert(encode_scalar(cb as u32) =~= seq![cb]);
            assert(encode_scalar(n as u32) =~= seq![u[0]]);
            assert(seq![u[0]] + u.drop_first() =~= u);
        } else {
            let m0: int = 0;
            assert(b[j + m0] == e0[m0]);
            assert(b[j] == u[0]);
            assert(seq![u[0]] + u.drop_first() =~= u);
        }
    }
}

proof fn lemma_dec_digits_are_digits(n: nat)
    ensures
        dec_digits(n).len() >= 1,
        forall|m: int| 0 <= m < dec_digits(n).len() ==> is_digit(#[trigger] dec_digits(n)[m]),
    decreases n,
{
    if n >= 10 {
        lemma_dec_digits_are_digits(n / 10);
    }
}

proof fn lemma_digits_end(b: Seq<u8>, j: int, e: int)
    requires
        0 <= j <= e <= b.len(),
        forall|m: int| j <= m < e ==> is_digit(b[m]),
        e == b.len() || !is_digit(b[e]),
    ensures
        digits_end(b, j) == e,
    decreases e - j,
{
    if j < e {
        lemma_digits_end(b, j + 1, e);
    }
}

proof fn lemma_digits_val(n: nat, b: Seq<u8>, j: int)
    requires
        0 <= j,
        j + dec_digits(n).len() <= b.len(),
        forall|m: int| 0 <= m < dec_digits(n).len() ==> b[j + m] == dec_digits(n)[m],
    ensures
        digits_val(b, j, j + dec_digits(n).len()) == n,
    decreases n,
{
    if n < 10 {
        let m0: int = 0;
        assert(b[j + m0] == dec_digits(n)[m0]);
        assert(b[j] == dec_digits(n)[0]);
        assert(is_digit(b[j]));
        assert(digits_val(b, j, j) == 0);
        assert(digits_val(b, j, j + 1) == n);
    } else {
        let hi = dec_digits(n / 10);
        assert(dec_digits(n) == hi + seq![(0x30 + n % 10) as u8]);
        assert forall|m: int| 0 <= m < hi.len() implies b[j + m] == hi[m] by {
            assert(b[j + m] == dec_digits(n)[m]);
        }
        lemma_digits_val(n / 10, b, j);
        let e = j + dec_digits(n).len();
        assert(b[e - 1] == dec_digits(n)[hi.len() as int]);
        assert(b[e - 1] == (0x30 + n % 10) as u8);
        assert(is_digit(b[e - 1]));
        assert(digits_val(b, j, e) == digits_val(b, j, e - 1) * 10 + (n % 10));
        assert(digits_val(b, j, e - 1) == n / 10);
        assert(n / 10 * 10 + n % 10 == n);
    }
}

/// No canonical serialization starts with a separator or closer, and none
/// is empty; this keeps the array and object parsers from mistaking an
/// element for the end of the aggregate.
proof fn lemma_ser_val_first(v: JVal)
    ensures
        ser_val(v).len() >= 1,
        ser_val(v)[0] == 0x6e || ser_val(v)[0] == 0x74 || ser_val(v)[0] == 0x66 || ser_val(
            v,
        )[0] == 0x22 || ser_val(v)[0] == 0x5b || ser_val(v)[0] == 0x7b || ser_val(v)[0] == 0x2d
            || is_digit(ser_val(v)[0]),
{
    match v {
        JVal::Int(i) => {
            if i >= 0 {
                lemma_dec_digits_are_digits(i as nat);
            } else {
                lemma_dec_digits_are_digits((-(i as int)) as nat);
            }
        },
        _ => {},
    }
}

proof fn lemma_parse_int_ser(iv: i64, b: Seq<u8>, i: int)
    requires
        0 <= i,
        i + ser_int(iv as int).len() <= b.len(),
        forall|m: int| 0 <= m < ser_int(iv as int).len() ==> b[i + m] == ser_int(iv as int)[m],
        i + ser_int(iv as int).len() == b.len() || !is_digit(b[i + ser_int(iv as int).len()]),
    ensures
        parse_int(b, i) == Some((JVal::Int(iv), i + ser_int(iv as int).len())),
{
    let s = ser_int(iv as int);
    if iv >= 0 {
        let n = iv as nat;
        lemma_dec_digits_are_digits(n);
        assert(s == dec_digits(n));
        let m0: int = 0;
        assert(b[i + m0] == s[m0]);
        assert(dec_digits(n)[0] == s[0]);
        assert(is_digit(b[i]));
        assert(b[i] != 0x2d);
        assert forall|m: int| i <= m < i + s.len() implies is_digit(b[m]) by {
            assert(b[m] == s[m - i]);
        }
        lemma_digits_end(b, i, i + s.len());
        lemma_digits_val(n, b, i);
        assert(n <= 0x7fff_ffff_ffff_ffff);
        assert(n as i64 == iv);
    } else {
        let n = (-(iv as int)) as nat;
        lemma_dec_digits_are_digits(n);
        assert(s == seq![0x2du8] + dec_digits(n));
        let m0: int = 0;
        assert(b[i + m0] == s[m0]);
        assert(b[i] == 0x2d);
        assert forall|m: int| 0 <= m < dec_digits(n).len() implies b[i + 1 + m] == dec_digits(
            n,
        )[m] by {
            assert(b[i + (1 + m)] == s[1 + m]);
        }
        assert forall|m: int| i + 1 <= m < i + s.len() implies is_digit(b[m]) by {
            assert(b[m] == s[m - i]);
        }
        lemma_digits_end(b, i + 1, i + s.len());
        lemma_digits_val(n, b, i + 1);
        assert(n <= 0x8000_0000_0000_0000);
        assert((-(n as int)) as i64 == iv);
    }
}

#[verifier::rlimit(100)]
proof fn lemma_parse_ser_val(v: JVal, b: Seq<u8>, i: int)
    requires
        0 <= i,
        i + ser_val(v).len() <= b.len(),
        forall|m: int| 0 <= m < ser_val(v).len() ==> b[i + m] == ser_val(v)[m],
        i + ser_val(v).len() == b.len() || !is_digit(b[i + ser_val(v).len()]),
    ensures
        parse_val(b, i) == Some((v, i + ser_val(v).len())),
    decreases v, 0int,
{
    let s = ser_val(v);
    match v {
        JVal::Null => {
            let m0: int = 0;
            assert(b[i + m0] == s[m0]);
            assert(b[i] == 0x6e && b[i + 1] == 0x75 && b[i + 2] == 0x6c && b[i + 3] == 0x6c);
            assert(parse_val(b, i) == Some((v, i + ser_val(v).len())));
        },
        JVal::Bool(t) => {
            if t {
                let m0: int = 0;
                assert(b[i + m0] == s[m0]);
                assert(b[i] == 0x74 && b[i + 1] == 0x72 && b[i + 2] == 0x75 && b[i + 3] == 0x65);
                assert(parse_val(b, i) == Some((v, i + ser_val(v).len())));
            } else {
                let m0: int = 0;
                assert(b[i + m0] == s[m0]);
                assert(b[i] == 0x66 && b[i + 1] == 0x61 && b[i + 2] == 0x6c && b[i + 3] == 0x73
                    && b[i + 4] == 0x65);
                assert(parse_val(b, i) == Some((v, i + ser_val(v).len())));
            }
        },
        JVal::Int(iv) => {
            let m0: int = 0;
            assert(b[i + m0] == s[m0]);
            if iv >= 0 {
                lemma_dec_digits_are_digits(iv as nat);
                assert(s == dec_digits(iv as nat));
                assert(is_digit(dec_digits(iv as nat)[0]));
                assert(is_digit(b[i]));
            } else {
                assert(s == seq![0x2du8] + dec_digits((-(iv as int)) as nat));
                assert(b[i] == 0x2d);
            }
            lemma_parse_int_ser(iv, b, i);
            assert(parse_val(b, i) == Some((v, i + ser_val(v).len())));
        },
        JVal::Str(cs) => {
            let u = encode_utf8(cs);
            let esc = escape_bytes(u);
            assert(s == seq![0x22u8] + esc + seq![0x22u8]);
            let m0: int = 0;
            assert(b[i + m0] == s[m0]);
            assert(b[i] == 0x22);
            assert forall|m: int| 0 <= m < esc.len() implies b[i + 1 + m] == esc[m] by {
                assert(b[i + (1 + m)] == s[1 + m]);
                assert(s[1 + m] == esc[m]);
            }
            assert(b[i + 1 + esc.len()] == 0x22) by {
                assert(b[i + (1 + esc.len())] == s[1 + esc.len() as int]);
            }
            lemma_parse_escaped(u, b, i + 1);
            vstd::utf8::encode_utf8_valid_utf8(cs);
            vstd::utf8::encode_utf8_decode_utf8(cs);
            assert(parse_val(b, i) == Some((v, i + ser_val(v).len())));
        },
        JVal::Arr(a) => {
            if a.len() == 0 {
                assert(b[i] == 0x5b && b[i + 1] == 0x5d);
                assert(a =~= Seq::<JVal>::empty());
                assert(parse_val(b, i) == Some((v, i + ser_val(v).len())));
            } else {
                let inner = ser_elems(a, 0);
                assert(s == seq![0x5bu8] + inner + seq![0x5du8]);
                let m0: int = 0;
                assert(b[i + m0] == s[m0]);
                assert(b[i] == 0x5b);
                assert forall|m: int| 0 <= m < inner.len() implies b[i + 1 + m] == inner[m] by {
                    assert(b[i + (1 + m)] == s[1 + m]);
                    assert(s[1 + m] == inner[m]);
                }
                assert(b[i + 1 + inner.len()] == 0x5d) by {
                    assert(b[i + (1 + inner.len())] == s[1 + inner.len() as int]);
                }
                lemma_ser_val_first(a[0]);
                assert(inner[0] == ser_val(a[0])[0]);
                assert(b[i + 1] != 0x5d);
                lemma_parse_ser_elems(a, 0, b, i + 1);
                assert(a.subrange(0, a.len() as int) =~= a);
                assert(parse_val(b, i) == Some((v, i + ser_val(v).len())));
            }
        },
        JVal::Obj(o) => {
            if o.len() == 0 {
                assert(b[i] == 0x7b && b[i + 1] == 0x7d);
                assert(o =~= Seq::<(Seq<char>, JVal)>::empty());
                assert(parse_val(b, i) == Some((v, i + ser_val(v).len())));
            } else {
                let inner = ser_members(o, 0);
                assert(s == seq![0x7bu8] + inner + seq![0x7du8]);
                let m0: int = 0;
                assert(b[i + m0] == s[m0]);
                assert(b[i] == 0x7b);
                assert forall|m: int| 0 <= m < inner.len() implies b[i + 1 + m] == inner[m] by {
                    assert(b[i + (1 + m)] == s[1 + m]);
                    assert(s[1 + m] == inner[m]);
                }
                assert(b[i + 1 + inner.len()] == 0x7d) by {
                    assert(b[i + (1 + inner.len())] == s[1 + inner.len() as int]);
                }
                assert(inner[0] == ser_string(o[0].0)[0]);
                assert(b[i + 1] != 0x7d);
                lemma_parse_ser_members(o, 0, b, i + 1);
                assert(o.subrange(0, o.len() as int) =~= o);
                assert(parse_val(b, i) == Some((v, i + ser_val(v).len())));
            }
        },
    }
}

proof fn lemma_parse_ser_elems(a: Seq<JVal>, j: int, b: Seq<u8>, i: int)
    requires
        0 <= j < a.len(),
        0 <= i,
        i + ser_elems(a, j).len() + 1 <= b.len(),
        forall|m: int| 0 <= m < ser_elems(a, j).len() ==> b[i + m] == ser_elems(a, j)[m],
        b[i + ser_elems(a, j).len()] == 0x5d,
    ensures
        parse_elems(b, i) == Some(
            (a.subrange(j, a.len() as int), i + ser_elems(a, j).len() + 1),
        ),
    decreases a, a.len() - j,
{
    let s = ser_elems(a, j);
    let s0 = ser_val(a[j]);
    assert forall|m: int| 0 <= m < s0.len() implies b[i + m] == s0[m] by {
        assert(b[i + m] == s[m]);
        assert(s[m] == s0[m]);
    }
    let k = i + s0.len();
    if j + 1 < a.len() {
        let tail = ser_elems(a, j + 1);
        assert(s == s0 + (seq![0x2cu8] + tail));
        assert(b[k] == 0x2c) by {
            assert(b[i + s0.len()] == s[s0.len() as int]);
        }
        assert(!is_digit(0x2c));
        lemma_parse_ser_val(a[j], b, i);
        assert forall|m: int| 0 <= m < tail.len() implies b[k + 1 + m] == tail[m] by {
            assert(b[i + (s0.len() + 1 + m)] == s[s0.len() + 1 + m]);
        }
        assert(b[k + 1 + tail.len()] == 0x5d) by {
            assert(i + s.len() == k + 1 + tail.len());
        }
        lemma_parse_ser_elems(a, j + 1, b, k + 1);
        assert(seq![a[j]] + a.subrange(j + 1, a.len() as int) =~= a.subrange(j, a.len() as int));
    } else {
        assert(s =~= s0);
        assert(b[k] == 0x5d);
        assert(!is_digit(0x5d));
        lemma_parse_ser_val(a[j], b, i);
        assert(seq![a[j]] =~= a.subrange(j, a.len() as int));
    }
}

#[verifier::rlimit(100)]
proof fn lemma_parse_ser_members(o: Seq<(Seq<char>, JVal)>, j: int, b: Seq<u8>, i: int)
    requires
        0 <= j < o.len(),
        0 <= i,
        i + ser_members(o, j).len() + 1 <= b.len(),
        forall|m: int| 0 <= m < ser_members(o, j).len() ==> b[i + m] == ser_members(o, j)[m],
        b[i + ser_members(o, j).len()] == 0x7d,
    ensures
        parse_members(b, i) == Some(
            (o.subrange(j, o.len() as int), i + ser_members(o, j).len() + 1),
        ),
    decreases o, o.len() - j,
{
    let s = ser_members(o, j);
    let ks = ser_string(o[j].0);
    let vs = ser_val(o[j].1);
    let u = encode_utf8(o[j].0);
    let esc = escape_bytes(u);
    assert(ks == seq![0x22u8] + esc + seq![0x22u8]);
    assert forall|m: int| 0 <= m < ks.len() implies b[i + m] == ks[m] by {
        assert(b[i + m] == s[m]);
    }
    let m0: int = 0;
    assert(b[i + m0] == ks[m0]);
    assert(b[i] == 0x22);
    assert forall|m: int| 0 <= m < esc.len() implies b[i + 1 + m] == esc[m] by {
        assert(b[i + (1 + m)] == ks[1 + m]);
        assert(ks[1 + m] == esc[m]);
    }
    assert(b[i + 1 + esc.len()] == 0x22) by {
        assert(b[i + (1 + esc.len())] == ks[1 + esc.len() as int]);
    }
    lemma_parse_escaped(u, b, i + 1);
    vstd::utf8::encode_utf8_valid_utf8(o[j].0);
    vstd::utf8::encode_utf8_decode_utf8(o[j].0);
    let k = i + ks.len();
    assert(parse_string(b, i) == Some((o[j].0, k)));
    assert(b[k] == 0x3a) by {
        assert(b[i + ks.len()] == s[ks.len() as int]);
    }
    assert forall|m: int| 0 <= m < vs.len() implies b[k + 1 + m] == vs[m] by {
        assert(b[i + (ks.len() + 1 + m)] == s[ks.len() + 1 + m]);
    }
    let p = k + 1 + vs.len();
    if j + 1 < o.len() {
        let tail = ser_members(o, j + 1);
        assert(b[p] == 0x2c) by {
            assert(b[i + (ks.len() + 1 + vs.len())] == s[ks.len() + 1 + vs.len() as int]);
        }
        assert(!is_digit(0x2c));
        lemma_parse_ser_val(o[j].1, b, k + 1);
        assert forall|m: int| 0 <= m < tail.len() implies b[p + 1 + m] == tail[m] by {
            assert(b[i + (ks.len() + 1 + vs.len() + 1 + m)] == s[ks.len() + 1 + vs.len() + 1 + m]);
        }
        assert(b[p + 1 + tail.len()] == 0x7d) by {
            assert(i + s.len() == p + 1 + tail.len());
        }
        lemma_parse_ser_members(o, j + 1, b, p + 1);
        assert(seq![(o[j].0, o[j].1)] + o.subrange(j + 1, o.len() as int) =~= o.subrange(
            j,
            o.len() as int,
        ));
        assert((o[j].0, o[j].1) == o[j]);
    } else {
        assert(s =~= ks + seq![0x3au8] + vs);
        assert(p == i + s.len());
        assert(b[p] == 0x7d);
        assert(!is_digit(0x7d));
        lemma_parse_ser_val(o[j].1, b, k + 1);
        assert(seq![(o[j].0, o[j].1)] =~= o.subrange(j, o.len() as int));
        assert((o[j].0, o[j].1) == o[j]);
    }
}

/// The canonical serialization of any JSON value parses back to exactly
/// that value, consuming the whole input.
pub proof fn lemma_parse_doc_ser_val(v: JVal)
    ensures
        parse_doc(ser_val(v)) == Some(v),
{
    lemma_ser_val_first(v);
    lemma_parse_ser_val(v, ser_val(v), 0);
}

// ---------------------------------------------------------------------------
// Executable serializer
// ---------------------------------------------------------------------------

proof fn lemma_escape_bytes_concat(x: Seq<u8>, y: Seq<u8>)
    ensures
        escape_bytes(x + y) == escape_bytes(x) + escape_bytes(y),
    decreases x.len(),
{
    if x.len() == 0 {
        assert(x + y =~= y);
        assert(escape_bytes(x) + escape_bytes(y) =~= escape_bytes(y));
    } else {
        assert((x + y).drop_first() =~= x.drop_first() + y);
        lemma_escape_bytes_concat(x.drop_first(), y);
        assert(escape_byte((x + y)[0]) == escape_byte(x[0]));
        assert(escape_byte(x[0]) + (escape_bytes(x.drop_first()) + escape_bytes(y))
            =~= (escape_byte(x[0]) + escape_bytes(x.drop_first())) + escape_bytes(y));
    }
}

/// Appends the decimal digits of `n` to `out`.
fn write_dec(out: &mut Vec<u8>, n: u64)
    ensures
        final(out)@ == old(out)@ + dec_digits(n as nat),
    decreases n,
{
    if n < 10 {
        out.push((0x30 + n) as u8);
        assert(out@ =~= old(out)@ + dec_digits(n as nat));
    } else {
        write_dec(out, n / 10);
        out.push((0x30 + (n % 10)) as u8);
        assert(out@ =~= old(out)@ + dec_digits(n as nat));
    }
}

/// Appends the canonical form of the integer `n` to `out`.
fn write_int(out: &mut Vec<u8>, n: i64)
    ensures
        final(out)@ == old(out)@ + ser_int(n as int),
{
    if n < 0 {
        out.push(0x2d);
        let m: u64 = if n == i64::MIN {
            9223372036854775808u64
        } else {
            (-n) as u64
        };
        assert(m as nat == (-(n as int)) as nat);
        write_dec(out, m);
        assert(out@ =~= old(out)@ + ser_int(n as int));
    } else {
        write_dec(out, n as u64);
    }
}

/// Appends a JSON string literal holding `s` to `out`.
pub fn write_string(out: &mut Vec<u8>, s: &str)
    ensures
        final(out)@ == old(out)@ + ser_string(s@),
{
    out.push(0x22);
    let bytes = s.as_bytes();
    let ghost u = encode_utf8(s@);
    assert(bytes@ == u);
    let mut i: usize = 0;
    while i < bytes.len()
        invariant
            i <= bytes.len(),
            bytes@ == u,
            out@ == old(out)@ + seq![0x22u8] + escape_bytes(u.take(i as int)),
        decreases bytes.len() - i,
    {
        let c = bytes[i];
        if c == 0x22 {
            out.push(0x5c);
            out.push(0x22);
        } else if c == 0x5c {
            out.push(0x5c);
            out.push(0x5c);
        } else if c < 0x20 {
            out.push(0x5c);
            out.push(0x75);
            out.push(0x30);
            out.push(0x30);
            let hi = c / 16;
            let lo = c % 16;
            out.push(if hi < 10 { 0x30 + hi } else { 0x57 + hi });
            out.push(if lo < 10 { 0x30 + lo } else { 0x57 + lo });
        } else {
            out.push(c);
        }
        proof {
            assert(u.take(i + 1) =~= u.take(i as int) + seq![u[i as int]]);
            lemma_escape_bytes_concat(u.take(i as int), seq![u[i as int]]);
            assert(seq![u[i as int]].drop_first() =~= Seq::<u8>::empty());
            assert(escape_bytes(Seq::<u8>::empty()) =~= Seq::<u8>::empty());
            assert(escape_bytes(seq![u[i as int]]) =~= escape_byte(u[i as int]));
            assert(out@ =~= old(out)@ + seq![0x22u8] + escape_bytes(u.take(i + 1)));
        }
        i = i + 1;
    }
    out.push(0x22);
    proof {
        assert(u.take(u.len() as int) =~= u);
        assert(out@ =~= old(out)@ + ser_string(s@));
    }
}

/// Appends the canonical serialization of `v` to `out`.
pub fn write_value(out: &mut Vec<u8>, v: &JsonValue)
    ensures
        final(out)@ == old(out)@ + ser_val(v@),
    decreases v, 0int,
{
    match v {
        JsonValue::Null => {
            out.push(0x6e);
            out.push(0x75);
            out.push(0x6c);
            out.push(0x6c);
            assert(out@ =~= old(out)@ + ser_val(v@));
        },
        JsonValue::Bool(t) => {
            if *t {
                out.push(0x74);
                out.push(0x72);
                out.push(0x75);
                out.push(0x65);
            } else {
                out.push(0x66);
                out.push(0x61);
                out.push(0x6c);
                out.push(0x73);
                out.push(0x65);
            }
            assert(out@ =~= old(out)@ + ser_val(v@));
        },
        JsonValue::Int(n) => {
            write_int(out, *n);
        },
        JsonValue::Str(s) => {
            write_string(out, s.as_str());
        },
        JsonValue::Arr(a) => {
            proof {
                lemma_jvals_of(a@, 0);
            }
            if a.len() == 0 {
                out.push(0x5b);
                out.push(0x5d);
                assert(out@ =~= old(out)@ + ser_val(v@));
            } else {
                out.push(0x5b);
                write_elems(out, a, 0);
                out.push(0x5d);
                assert(out@ =~= old(out)@ + ser_val(v@));
            }
        },
        JsonValue::Obj(o) => {
            proof {
                lemma_jpairs_of(o@, 0);
            }
            if o.len() == 0 {
                out.push(0x7b);
                out.push(0x7d);
                assert(out@ =~= old(out)@ + ser_val(v@));
            } else {
                out.push(0x7b);
                write_members(out, o, 0);
                out.push(0x7d);
                assert(out@ =~= old(out)@ + ser_val(v@));
            }
        },
    }
}

pub fn write_elems(out: &mut Vec<u8>, a: &Vec<JsonValue>, i: usize)
    requires
        i < a@.len(),
    ensures
        final(out)@ == old(out)@ + ser_elems(jvals_of(a@, 0), i as int),
    decreases a, a@.len() - i,
{
    proof {
        lemma_jvals_of(a@, 0);
    }
    write_value(out, &a[i]);
    if i < a.len() - 1 {
        out.push(0x2c);
        write_elems(out, a, i + 1);
        assert(out@ =~= old(out)@ + ser_elems(jvals_of(a@, 0), i as int));
    } else {
        assert(out@ =~= old(out)@ + ser_elems(jvals_of(a@, 0), i as int));
    }
}

pub fn write_members(out: &mut Vec<u8>, o: &Vec<(String, JsonValue)>, i: usize)
    requires
        i < o@.len(),
    ensures
        final(out)@ == old(out)@ + ser_members(jpairs_of(o@, 0), i as int),
    decreases o, o@.len() - i,
{
    proof {
        lemma_jpairs_of(o@, 0);
    }
    write_string(out, o[i].0.as_str());
    out.push(0x3a);
    write_value(out, &o[i].1);
    if i < o.len() - 1 {
        out.push(0x2c);
        write_members(out, o, i + 1);
        assert(out@ =~= old(out)@ + ser_members(jpairs_of(o@, 0), i as int));
    } else {
        assert(out@ =~= old(out)@ + ser_members(jpairs_of(o@, 0), i as int));
    }
}

/// The canonical serialization of `v` as a byte vector.
pub fn json_encode(v: &JsonValue) -> (r: Vec<u8>)
    ensures
        r@ == ser_val(v@),
{
    let mut out: Vec<u8> = Vec::new();
    write_value(&mut out, v);
    out
}

// ---------------------------------------------------------------------------
// Executable parser
// ---------------------------------------------------------------------------

/// Relies on `String::from_utf8`: it succeeds exactly on valid UTF-8 input,
/// and the returned string consists of exactly the bytes passed in.
#[verifier::external_body]
fn bytes_to_string(v: Vec<u8>) -> (r: Option<String>)
    ensures
        match r {
            Some(s) => encode_utf8(s@) == v@,
            None => !valid_utf8(v@),
        },
{
    String::from_utf8(v).ok()
}

/// How the string-body parser's result at `j` relates to the one at the
/// opening position `i`, given the bytes unescaped so far.
spec fn sbody_ctx(b: Seq<u8>, i: int, acc: Seq<u8>, j: int) -> bool {
    parse_string_body(b, i) == (match parse_string_body(b, j) {
        Some((rest, k)) => Some((acc + rest, k)),
        None => None::<(Seq<u8>, int)>,
    })
}

proof fn lemma_sbody_step(b: Seq<u8>, i: int, acc: Seq<u8>, j: int, cs: Seq<u8>, j2: int)
    requires
        sbody_ctx(b, i, acc, j),
        parse_string_body(b, j) == (match parse_string_body(b, j2) {
            Some((rest, k)) => Some((cs + rest, k)),
            None => None::<(Seq<u8>, int)>,
        }),
    ensures
        sbody_ctx(b, i, acc + cs, j2),
{
    match parse_string_body(b, j2) {
        Some((rest, k)) => {
            assert(acc + (cs + rest) =~= (acc + cs) + rest);
        },
        None => {},
    }
}

/// The value of four hexadecimal digit bytes at `j`, per [`hex4_val`].
fn read_hex4(b: &Vec<u8>, j: usize) -> (r: Option<u32>)
    requires
        j + 4 <= b@.len(),
    ensures
        match r {
            Some(v) => hex4_at(b@, j as int) && v as int == hex4_val(b@, j as int) && v <= 0xFFFF,
            None => !hex4_at(b@, j as int),
        },
{
    let blen = b.len();
    let h0 = b[j];
    let h1 = b[j + 1];
    let h2 = b[j + 2];
    let h3 = b[j + 3];
    let hex_ok = (0x30 <= h0 && h0 <= 0x39 || 0x61 <= h0 && h0 <= 0x66 || 0x41 <= h0 && h0 <= 0x46)
        && (0x30 <= h1 && h1 <= 0x39 || 0x61 <= h1 && h1 <= 0x66 || 0x41 <= h1 && h1 <= 0x46) && (
    0x30 <= h2 && h2 <= 0x39 || 0x61 <= h2 && h2 <= 0x66 || 0x41 <= h2 && h2 <= 0x46) && (0x30
        <= h3 && h3 <= 0x39 || 0x61 <= h3 && h3 <= 0x66 || 0x41 <= h3 && h3 <= 0x46);
    if !hex_ok {
        return None;
    }
    let v: u32 = ((hexv(h0) as u32 * 16 + hexv(h1) as u32) * 16 + hexv(h2) as u32) * 16 + hexv(
        h3,
    ) as u32;
    Some(v)
}

/// Appends the UTF-8 bytes of the Unicode scalar `v`, per
/// [`encode_scalar`].
fn push_utf8(acc: &mut Vec<u8>, v: u32)
    requires
        vstd::utf8::is_scalar(v),
    ensures
        final(acc)@ == old(acc)@ + encode_scalar(v),
{
    if v <= 0x7F {
        acc.push((v & 0x7F) as u8);
    } else if v <= 0x7FF {
        acc.push(0xC0 | ((v >> 6) & 0x1F) as u8);
        acc.push(0x80 | (v & 0x3F) as u8);
    } else if v <= 0xFFFF {
        acc.push(0xE0 | ((v >> 12) & 0x0F) as u8);
        acc.push(0x80 | ((v >> 6) & 0x3F) as u8);
        acc.push(0x80 | (v & 0x3F) as u8);
    } else {
        acc.push(0xF0 | ((v >> 18) & 0x7) as u8);
        acc.push(0x80 | ((v >> 12) & 0x3F) as u8);
        acc.push(0x80 | ((v >> 6) & 0x3F) as u8);
        acc.push(0x80 | (v & 0x3F) as u8);
    }
    proof {
        assert(acc@ =~= old(acc)@ + encode_scalar(v));
    }
}

/// The value of the hexadecimal digit byte `c`.
fn hexv(c: u8) -> (r: u8)
    requires
        is_hex_digit(c),
    ensures
        r as int == hex_val(c),
{
    if c <= 0x39 {
        c - 0x30
    } else if c >= 0x61 {
        c - 0x57
    } else {
        c - 0x37
    }
}

/// Parses the inside of a string literal from `i` (just past the opening
/// quote) through the closing quote, returning the unescaped bytes.
fn parse_sbody(b: &Vec<u8>, i: usize) -> (r: Option<(Vec<u8>, usize)>)
    requires
        i <= b@.len(),
    ensures
        match r {
            Some(p) => parse_string_body(b@, i as int) == Some((p.0@, p.1 as int)) && i <= p.1
                <= b@.len(),
            None => parse_string_body(b@, i as int) is None,
        },
{
    let mut acc: Vec<u8> = Vec::new();
    let mut j: usize = i;
    loop
        invariant
            i <= j <= b@.len(),
            sbody_ctx(b@, i as int, acc@, j as int),
        decreases b@.len() - j,
    {
        if j >= b.len() {
            return None;
        }
        let c = b[j];
        if c == 0x22 {
            proof {
                assert(acc@ + Seq::<u8>::empty() =~= acc@);
            }
            return Some((acc, j + 1));
        } else if c == 0x5c {
            if b.len() - j < 2 {
                return None;
            }
            let e = b[j + 1];
            if e == 0x75 {
                if b.len() - j < 6 {
                    return None;
                }
                let n = match read_hex4(b, j + 2) {
                    Some(v) => v,
                    None => {
                        return None;
                    },
                };
                if n < 0xD800 || n > 0xDFFF {
                    let ghost old_acc = acc@;
                    let ghost old_j = j as int;
                    push_utf8(&mut acc, n);
                    proof {
                        lemma_sbody_step(
                            b@,
                            i as int,
                            old_acc,
                            old_j,
                            encode_scalar(n),
                            old_j + 6,
                        );
                    }
                    j = j + 6;
                } else if n <= 0xDBFF {
                    if b.len() - j < 12 {
                        return None;
                    }
                    if !(b[j + 6] == 0x5c && b[j + 7] == 0x75) {
                        return None;
                    }
                    let n2 = match read_hex4(b, j + 8) {
                        Some(v) => v,
                        None => {
                            return None;
                        },
                    };
                    if !(0xDC00 <= n2 && n2 <= 0xDFFF) {
                        return None;
                    }
                    let cp: u32 = 0x10000 + (n - 0xD800) * 0x400 + (n2 - 0xDC00);
                    let ghost old_acc = acc@;
                    let ghost old_j = j as int;
                    push_utf8(&mut acc, cp);
                    proof {
                        lemma_sbody_step(
                            b@,
                            i as int,
                            old_acc,
                            old_j,
                            encode_scalar(cp),
                            old_j + 12,
                        );
                    }
                    j = j + 12;
                } else {
                    return None;
                }
            } else {
                let c2: u8 = if e == 0x22 {
                    0x22
                } else if e == 0x5c {
                    0x5c
                } else if e == 0x2f {
                    0x2f
                } else if e == 0x62 {
                    0x08
                } else if e == 0x66 {
                    0x0c
                } else if e == 0x6e {
                    0x0a
                } else if e == 0x72 {
                    0x0d
                } else if e == 0x74 {
                    0x09
                } else {
                    0xff
                };
                if c2 == 0xff {
                    return None;
                }
                let ghost old_acc = acc@;
                let ghost old_j = j as int;
                acc.push(c2);
                proof {
                    assert(acc@ =~= old_acc + seq![c2]);
                    lemma_sbody_step(b@, i as int, old_acc, old_j, seq![c2], old_j + 2);
                }
                j = j + 2;
            }
        } else if c < 0x20 {
            return None;
        } else {
            let ghost old_acc = acc@;
            let ghost old_j = j as int;
            acc.push(c);
            proof {
                assert(acc@ =~= old_acc + seq![c]);
                lemma_sbody_step(b@, i as int, old_acc, old_j, seq![c], old_j + 1);
            }
            j = j + 1;
        }
    }
}

/// Parses a string literal at `i` (at the opening quote).
fn parse_string_at(b: &Vec<u8>, i: usize) -> (r: Option<(String, usize)>)
    requires
        i < b@.len(),
        b@[i as int] == 0x22,
    ensures
        match r {
            Some(p) => parse_string(b@, i as int) == Some((p.0@, p.1 as int)) && i <= p.1
                <= b@.len(),
            None => parse_string(b@, i as int) is None,
        },
{
    let blen = b.len();
    match parse_sbody(b, i + 1) {
        Some((u, k)) => {
            let ghost uv = u@;
            match bytes_to_string(u) {
                Some(s) => {
                    proof {
                        vstd::utf8::encode_utf8_valid_utf8(s@);
                        vstd::utf8::encode_utf8_decode_utf8(s@);
                    }
                    Some((s, k))
                },
                None => None,
            }
        },
        None => None,
    }
}

/// Parses an integer at `i` per [`parse_int`], rejecting values outside
/// the `i64` range.
fn parse_int_at(b: &Vec<u8>, i: usize) -> (r: Option<(JsonValue, usize)>)
    requires
        i < b@.len(),
        b@[i as int] == 0x2d || is_digit(b@[i as int]),
    ensures
        match r {
            Some(p) => parse_int(b@, i as int) == Some((p.0@, p.1 as int)) && i <= p.1 <= b@.len(),
            None => parse_int(b@, i as int) is None,
        },
{
    let blen = b.len();
    let neg = b[i] == 0x2d;
    let start: usize = if neg {
        i + 1
    } else {
        i
    };
    let mut j: usize = start;
    let mut val: u128 = 0;
    while j < b.len() && 0x30 <= b[j] && b[j] <= 0x39
        invariant
            i <= start <= j <= b@.len(),
            start <= b@.len(),
            digits_end(b@, start as int) == digits_end(b@, j as int),
            digits_val(b@, start as int, j as int) <= 0x1_0000_0000_0000_0000 ==> val
                == digits_val(b@, start as int, j as int),
            digits_val(b@, start as int, j as int) > 0x1_0000_0000_0000_0000 ==> val
                > 0x1_0000_0000_0000_0000,
            val <= 0xa_0000_0000_0000_0009,
        decreases b@.len() - j,
    {
        let d = b[j] - 0x30;
        let ghost dv = digits_val(b@, start as int, j as int);
        proof {
            assert(digits_val(b@, start as int, j + 1) == dv * 10 + d);
            if dv > 0x1_0000_0000_0000_0000 {
                assert(dv * 10 + d > 0x1_0000_0000_0000_0000) by (nonlinear_arith)
                    requires
                        dv > 0x1_0000_0000_0000_0000,
                        d >= 0,
                ;
            }
        }
        if val <= 0x1_0000_0000_0000_0000 {
            val = val * 10 + d as u128;
        }
        j = j + 1;
    }
    if j == start {
        return None;
    }
    proof {
        assert(digits_end(b@, j as int) == j);
    }
    let ghost n = digits_val(b@, start as int, j as int);
    if neg {
        if val > 0x8000_0000_0000_0000 {
            proof {
                if n <= 0x1_0000_0000_0000_0000 {
                    assert(n == val > 0x8000_0000_0000_0000);
                }
            }
            return None;
        }
        proof {
            assert(n == val);
        }
        let r: i64 = if val == 0x8000_0000_0000_0000 {
            i64::MIN
        } else {
            -((val as u64) as i64)
        };
        proof {
            assert(r as int == -(n as int));
        }
        Some((JsonValue::Int(r), j))
    } else {
        if val > 0x7fff_ffff_ffff_ffff {
            proof {
                if n <= 0x1_0000_0000_0000_0000 {
                    assert(n == val > 0x7fff_ffff_ffff_ffff);
                }
            }
            return None;
        }
        proof {
            assert(n == val);
        }
        Some((JsonValue::Int(val as i64), j))
    }
}

proof fn lemma_jvals_of_insert0(s: Seq<JsonValue>, x: JsonValue)
    ensures
        jvals_of(s.insert(0, x), 0) =~= seq![jval_of(x)] + jvals_of(s, 0),
{
    let t = s.insert(0, x);
    lemma_jvals_of(s, 0);
    lemma_jvals_of(t, 0);
    assert(t.len() == s.len() + 1);
    assert(jvals_of(t, 0).len() == (seq![jval_of(x)] + jvals_of(s, 0)).len());
    assert forall|m: int| 0 <= m < t.len() implies jvals_of(t, 0)[m] == (seq![jval_of(x)]
        + jvals_of(s, 0))[m] by {
        assert(jvals_of(t, 0)[m - 0] == jval_of(t[m]));
        if m == 0 {
            assert(t[0] == x);
        } else {
            assert(t[m] == s[m - 1]);
            assert(jvals_of(s, 0)[(m - 1) - 0] == jval_of(s[m - 1]));
        }
    }
}

proof fn lemma_jpairs_of_insert0(s: Seq<(String, JsonValue)>, x: (String, JsonValue))
    ensures
        jpairs_of(s.insert(0, x), 0) =~= seq![(x.0@, jval_of(x.1))] + jpairs_of(s, 0),
{
    let t = s.insert(0, x);
    lemma_jpairs_of(s, 0);
    lemma_jpairs_of(t, 0);
    assert(t.len() == s.len() + 1);
    assert(jpairs_of(t, 0).len() == (seq![(x.0@, jval_of(x.1))] + jpairs_of(s, 0)).len());
    assert forall|m: int| 0 <= m < t.len() implies jpairs_of(t, 0)[m] == (seq![
        (x.0@, jval_of(x.1)),
    ] + jpairs_of(s, 0))[m] by {
        assert(jpairs_of(t, 0)[m - 0] == (t[m].0@, jval_of(t[m].1)));
        if m == 0 {
            assert(t[0] == x);
        } else {
            assert(t[m] == s[m - 1]);
            assert(jpairs_of(s, 0)[(m - 1) - 0] == (s[m - 1].0@, jval_of(s[m - 1].1)));
        }
    }
}

/// The end of the whitespace run at `i`, per [`ws_end`].
fn skip_ws(b: &Vec<u8>, i: usize) -> (r: usize)
    requires
        i <= b@.len(),
    ensures
        r as int == ws_end(b@, i as int),
        i <= r <= b@.len(),
{
    let mut j = i;
    while j < b.len() && (b[j] == 0x20 || b[j] == 0x09 || b[j] == 0x0a || b[j] == 0x0d)
        invariant
            i <= j <= b@.len(),
            ws_end(b@, i as int) == ws_end(b@, j as int),
        decreases b@.len() - j,
    {
        j = j + 1;
    }
    proof {
        assert(ws_end(b@, j as int) == j as int);
    }
    j
}

/// Parses one JSON value at `i` per [`parse_val`].
#[verifier::rlimit(100)]
pub fn parse_value_at(b: &Vec<u8>, i: usize) -> (r: Option<(JsonValue, usize)>)
    ensures
        match r {
            Some(p) => parse_val(b@, i as int) == Some((p.0@, p.1 as int)) && i <= p.1 <= b@.len(),
            None => parse_val(b@, i as int) is None,
        },
    decreases b@.len() - i, 0int,
{
    if i >= b.len() {
        return None;
    }
    let c = b[i];
    if c == 0x6e {
        if b.len() - i >= 4 && b[i + 1] == 0x75 && b[i + 2] == 0x6c && b[i + 3] == 0x6c {
            Some((JsonValue::Null, i + 4))
        } else {
            None
        }
    } else if c == 0x74 {
        if b.len() - i >= 4 && b[i + 1] == 0x72 && b[i + 2] == 0x75 && b[i + 3] == 0x65 {
            Some((JsonValue::Bool(true), i + 4))
        } else {
            None
        }
    } else if c == 0x66 {
        if b.len() - i >= 5 && b[i + 1] == 0x61 && b[i + 2] == 0x6c && b[i + 3] == 0x73 && b[i + 4]
            == 0x65 {
            Some((JsonValue::Bool(false), i + 5))
        } else {
            None
        }
    } else if c == 0x22 {
        match parse_string_at(b, i) {
            Some((s, k)) => Some((JsonValue::Str(s), k)),
            None => None,
        }
    } else if c == 0x5b {
        let p = skip_ws(b, i + 1);
        if p < b.len() && b[p] == 0x5d {
            proof {
                assert(jvals_of(Seq::<JsonValue>::empty(), 0) =~= Seq::<JVal>::empty());
            }
            Some((JsonValue::Arr(Vec::new()), p + 1))
        } else {
            match parse_elems_at(b, i + 1) {
                Some((u, k)) => Some((JsonValue::Arr(u), k)),
                None => None,
            }
        }
    } else if c == 0x7b {
        let p = skip_ws(b, i + 1);
        if p < b.len() && b[p] == 0x7d {
            proof {
                assert(jpairs_of(Seq::<(String, JsonValue)>::empty(), 0) =~= Seq::<
                    (Seq<char>, JVal),
                >::empty());
            }
            Some((JsonValue::Obj(Vec::new()), p + 1))
        } else {
            match parse_members_at(b, i + 1) {
                Some((u, k)) => Some((JsonValue::Obj(u), k)),
                None => None,
            }
        }
    } else if c == 0x2d || 0x30 <= c && c <= 0x39 {
        parse_int_at(b, i)
    } else {
        None
    }
}

/// Parses the elements of a non-empty array from `i` per [`parse_elems`].
fn parse_elems_at(b: &Vec<u8>, i: usize) -> (r: Option<(Vec<JsonValue>, usize)>)
    requires
        i <= b@.len(),
    ensures
        match r {
            Some(p) => parse_elems(b@, i as int) == Some((jvals_of(p.0@, 0), p.1 as int)) && i
                <= p.1 <= b@.len(),
            None => parse_elems(b@, i as int) is None,
        },
    decreases b@.len() - i, 1int,
{
    let s0 = skip_ws(b, i);
    match parse_value_at(b, s0) {
        Some((v, k)) => {
            let k2 = skip_ws(b, k);
            if k2 < b.len() && b[k2] == 0x2c {
                match parse_elems_at(b, k2 + 1) {
                    Some((mut u, e)) => {
                        let ghost tailv = u@;
                        u.insert(0, v);
                        proof {
                            lemma_jvals_of_insert0(tailv, v);
                        }
                        Some((u, e))
                    },
                    None => None,
                }
            } else if k2 < b.len() && b[k2] == 0x5d {
                let mut u: Vec<JsonValue> = Vec::new();
                u.push(v);
                proof {
                    lemma_jvals_of(u@, 0);
                    assert(jvals_of(u@, 0) =~= seq![jval_of(v)]);
                }
                Some((u, k2 + 1))
            } else {
                None
            }
        },
        None => None,
    }
}

/// Parses the members of a non-empty object from `i` per [`parse_members`].
fn parse_members_at(b: &Vec<u8>, i: usize) -> (r: Option<(Vec<(String, JsonValue)>, usize)>)
    requires
        i <= b@.len(),
    ensures
        match r {
            Some(p) => parse_members(b@, i as int) == Some((jpairs_of(p.0@, 0), p.1 as int)) && i
                <= p.1 <= b@.len(),
            None => parse_members(b@, i as int) is None,
        },
    decreases b@.len() - i, 1int,
{
    let s0 = skip_ws(b, i);
    if s0 >= b.len() || b[s0] != 0x22 {
        return None;
    }
    match parse_string_at(b, s0) {
        Some((s, k)) => {
            let k2 = skip_ws(b, k);
            if !(k2 < b.len() && b[k2] == 0x3a) {
                return None;
            }
            let v0 = skip_ws(b, k2 + 1);
            match parse_value_at(b, v0) {
                Some((v, m)) => {
                    let m2 = skip_ws(b, m);
                    if m2 < b.len() && b[m2] == 0x2c {
                        match parse_members_at(b, m2 + 1) {
                            Some((mut u, e)) => {
                                let ghost tailv = u@;
                                let ghost sv = s@;
                                let ghost vv = v@;
                                u.insert(0, (s, v));
                                proof {
                                    lemma_jpairs_of_insert0(tailv, (s, v));
                                }
                                Some((u, e))
                            },
                            None => None,
                        }
                    } else if m2 < b.len() && b[m2] == 0x7d {
                        let ghost sv = s@;
                        let ghost vv = v@;
                        let mut u: Vec<(String, JsonValue)> = Vec::new();
                        u.push((s, v));
                        proof {
                            lemma_jpairs_of(u@, 0);
                            assert(jpairs_of(u@, 0) =~= seq![(sv, vv)]);
                        }
                        Some((u, m2 + 1))
                    } else {
                        None
                    }
                },
                None => None,
            }
        },
        None => None,
    }
}

/// A copy of `v` with the same model.
#[verifier::loop_isolation(false)]
pub fn json_clone(v: &JsonValue) -> (r: JsonValue)
    ensures
        r@ == v@,
    decreases v, 0int,
{
    match v {
        JsonValue::Null => JsonValue::Null,
        JsonValue::Bool(b) => JsonValue::Bool(*b),
        JsonValue::Int(i) => JsonValue::Int(*i),
        JsonValue::Str(s) => JsonValue::Str(s.clone()),
        JsonValue::Arr(a) => {
            let mut out: Vec<JsonValue> = Vec::new();
            let mut i: usize = 0;
            while i < a.len()
                invariant
                    i <= a@.len(),
                    out@.len() == i,
                    forall|m: int|
                        0 <= m < i ==> jval_of(#[trigger] out@[m]) == jval_of(a@[m]),
                decreases a@.len() - i,
            {
                let c = json_clone(&a[i]);
                out.push(c);
                i = i + 1;
            }
            proof {
                lemma_jvals_of(out@, 0);
                lemma_jvals_of(a@, 0);
                assert forall|j: int| 0 <= j < a@.len() implies jvals_of(out@, 0)[j] == jvals_of(
                    a@,
                    0,
                )[j] by {
                    assert(jvals_of(out@, 0)[j - 0] == jval_of(out@[j]));
                    assert(jvals_of(a@, 0)[j - 0] == jval_of(a@[j]));
                }
                assert(jvals_of(out@, 0) =~= jvals_of(a@, 0));
            }
            JsonValue::Arr(out)
        },
        JsonValue::Obj(o) => {
            let mut out: Vec<(String, JsonValue)> = Vec::new();
            let mut i: usize = 0;
            while i < o.len()
                invariant
                    i <= o@.len(),
                    out@.len() == i,
                    forall|m: int|
                        0 <= m < i ==> #[trigger] out@[m].0@ == o@[m].0@ && jval_of(out@[m].1)
                            == jval_of(o@[m].1),
                decreases o@.len() - i,
            {
                let k = o[i].0.clone();
                let c = json_clone(&o[i].1);
                out.push((k, c));
                i = i + 1;
            }
            proof {
                lemma_jpairs_of(out@, 0);
                lemma_jpairs_of(o@, 0);
                assert forall|j: int| 0 <= j < o@.len() implies jpairs_of(out@, 0)[j] == jpairs_of(
                    o@,
                    0,
                )[j] by {
                    assert(jpairs_of(out@, 0)[j - 0] == (out@[j].0@, jval_of(out@[j].1)));
                    assert(jpairs_of(o@, 0)[j - 0] == (o@[j].0@, jval_of(o@[j].1)));
                }
                assert(jpairs_of(out@, 0) =~= jpairs_of(o@, 0));
            }
            JsonValue::Obj(out)
        },
    }
}

/// Parses a whole JSON document per [`parse_doc`].
pub fn json_parse(b: &Vec<u8>) -> (r: Option<JsonValue>)
    ensures
        match r {
            Some(v) => parse_doc(b@) == Some(v@),
            None => parse_doc(b@) is None,
        },
{
    let s0 = skip_ws(b, 0);
    match parse_value_at(b, s0) {
        Some((v, k)) => {
            let e = skip_ws(b, k);
            if e == b.len() {
                Some(v)
            } else {
                None
            }
        },
        None => None,
    }
}

} // verus!
