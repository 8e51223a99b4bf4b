//! Every text has a string literal that decodes back to it: the minimal JSON
//! encoding (quotes around the text, with `"`, `\`, and control characters
//! escaped and everything else written as UTF-8).
use vstd::prelude::*;
use vstd::utf8::*;

use crate::laws::law_utf8_len_is_encoded_length;
use crate::spec::{
    backslash, is_forbidden_raw, lemma_escape_next, prefixed, quote, spec_decode_from,
    spec_decode_string, spec_escape, spec_hex_digit, spec_read_hex4, spec_utf8_len,
};

verus! {

/// The lower-case hexadecimal digit for `d` (below 16).
pub open spec fn hex_lower(d: u32) -> u8 {
    if d < 10 {
        (0x30 + d) as u8
    } else {
        (0x61 + d - 10) as u8
    }
}

/// How one character is written inside a minimal JSON string literal.
pub open spec fn encode_char(c: char) -> Seq<u8> {
    if c == '"' {
        seq![0x5Cu8, 0x22u8]
    } else if c == '\\' {
        seq![0x5Cu8, 0x5Cu8]
    } else if c == '\n' {
        seq![0x5Cu8, 0x6Eu8]
    } else if c == '\r' {
        seq![0x5Cu8, 0x72u8]
    } else if c == '\t' {
        seq![0x5Cu8, 0x74u8]
    } else if c == '\u{0008}' {
        seq![0x5Cu8, 0x62u8]
    } else if c == '\u{000C}' {
        seq![0x5Cu8, 0x66u8]
    } else if (c as u32) < 0x20 {
        seq![
            0x5Cu8,
            0x75u8,
            0x30u8,
            0x30u8,
            hex_lower((c as u32) / 16),
            hex_lower((c as u32) % 16),
        ]
    } else {
        encode_scalar(c as u32)
    }
}

/// The body of the minimal JSON string literal for `t`.
pub open spec fn encode_body(t: Seq<char>) -> Seq<u8>
    decreases t.len(),
{
    if t.len() == 0 {
        seq![]
    } else {
        encode_char(t[0]) + encode_body(t.drop_first())
    }
}

/// The minimal JSON string literal for `t`, quotes included.
pub open spec fn encode_literal(t: Seq<char>) -> Seq<u8> {
    seq![0x22u8] + encode_body(t) + seq![0x22u8]
}

proof fn lemma_read_hex4_shift(p: Seq<u8>, s: Seq<u8>, i: int)
    requires
        0 <= i,
    ensures
        spec_read_hex4(p + s, p.len() + i) == spec_read_hex4(s, i),
{
    let u = p + s;
    if i + 4 <= s.len() {
        assert(u[p.len() + i] == s[i]);
        assert(u[p.len() + i + 1] == s[i + 1]);
        assert(u[p.len() + i + 2] == s[i + 2]);
        assert(u[p.len() + i + 3] == s[i + 3]);
    }
}

proof fn lemma_escape_shift(p: Seq<u8>, s: Seq<u8>, i: int)
    requires
        0 <= i < s.len(),
    ensures
        spec_escape(p + s, p.len() + i) == match spec_escape(s, i) {
            Some((c, n)) => Some((c, p.len() + n)),
            None => None,
        },
{
    let u = p + s;
    let e: int = i + 1;
    if e < s.len() {
        assert(u[p.len() + e] == s[e]);
        lemma_read_hex4_shift(p, s, e + 1);
        lemma_read_hex4_shift(p, s, e + 7);
        if e + 6 < s.len() {
            assert(u[p.len() + e + 5] == s[e + 5]);
            assert(u[p.len() + e + 6] == s[e + 6]);
        }
    }
}

/// Decoding reads nothing before the position it starts from.
pub(crate) proof fn lemma_decode_shift(p: Seq<u8>, s: Seq<u8>, i: int, utf8: bool, strict: bool)
    requires
        0 <= i,
    ensures
        spec_decode_from(p + s, p.len() + i, utf8, strict) == spec_decode_from(s, i, utf8, strict),
    decreases s.len() - i,
{
    let u = p + s;
    if i < s.len() {
        assert(u[p.len() + i] == s[i]);
        if s[i] == backslash() {
            lemma_escape_shift(p, s, i);
            if let Some((c, n)) = spec_escape(s, i) {
                lemma_escape_next(s, i);
                lemma_decode_shift(p, s, n, utf8, strict);
            }
        } else if !(strict && is_forbidden_raw(s[i])) {
            lemma_decode_shift(p, s, i + 1, utf8, strict);
            let w: int = spec_utf8_len(s[i]);
            if w != 0 && i + w <= s.len() {
                assert(u.subrange(p.len() + i, p.len() + i + w) =~= s.subrange(i, i + w));
                lemma_decode_shift(p, s, i + w, utf8, strict);
            }
        }
    }
}

pub(crate) proof fn lemma_hex_lower_digit(d: u32)
    requires
        d < 16,
    ensures
        spec_hex_digit(hex_lower(d)) == Some(d),
{
}

/// One encoded character decodes back to that character, and decoding goes
/// on with what follows it.
#[verifier::rlimit(60)]
#[verifier::spinoff_prover]
proof fn lemma_decode_encoded_char(c: char, rest: Seq<u8>)
    ensures
        spec_decode_from(encode_char(c) + rest, 0, true, true) == prefixed(
            seq![c],
            spec_decode_from(rest, 0, true, true),
        ),
{
    let x = encode_char(c);
    let u = x + rest;
    let v: u32 = c as u32;
    char_u32_cast(c, v);
    char_is_scalar(c);
    lemma_decode_shift(x, rest, 0, true, true);
    assert(u[0] == x[0]);
    if c == '"' || c == '\\' || c == '\n' || c == '\r' || c == '\t' || c == '\u{0008}' || c
        == '\u{000C}' {
        assert(u[1] == x[1]);
    } else if v < 0x20 {
        assert(v == (v / 16) * 16 + v % 16);
        lemma_hex_lower_digit(v / 16);
        lemma_hex_lower_digit(v % 16);
        assert(u[1] == x[1]);
        assert(u[2] == x[2]);
        assert(u[3] == x[3]);
        assert(u[4] == x[4]);
        assert(u[5] == x[5]);
        assert(spec_read_hex4(u, 2) == Some(v));
        assert(is_scalar(v));
    } else {
        law_utf8_len_is_encoded_length(c);
        let w: int = x.len() as int;
        assert(u.subrange(0, w) =~= x);
        assert(encode_utf8(seq![c]) =~= x) by {
            assert(seq![c].drop_first() =~= Seq::<char>::empty());
            assert(encode_utf8(Seq::<char>::empty()) =~= Seq::<u8>::empty());
        }
        encode_utf8_valid_utf8(seq![c]);
        encode_utf8_decode_utf8(seq![c]);
        if has_width_1_encoding(v) {
            assert((v & 0x7F) as u8 == v) by (bit_vector)
                requires
                    v <= 0x7F,
            ;
            assert(c != '"' && c != '\\');
            assert(v != 0x22 && v != 0x5C);
        } else if has_width_2_encoding(v) {
            assert(0xC0u8 <= (0xC0u8 | ((v >> 6) & 0x1F) as u8)) by (bit_vector);
        } else if has_width_3_encoding(v) {
            assert(0xE0u8 <= (0xE0u8 | ((v >> 12) & 0x0F) as u8)) by (bit_vector);
        } else {
            assert(0xF0u8 <= (0xF0u8 | ((v >> 18) & 0x7) as u8)) by (bit_vector);
        }
    }
}

proof fn lemma_decode_encoded_body(t: Seq<char>)
    ensures
        spec_decode_from(encode_body(t), 0, true, true) == Some(t),
    decreases t.len(),
{
    if t.len() == 0 {
        assert(encode_body(t) =~= Seq::<u8>::empty());
    } else {
        lemma_decode_encoded_body(t.drop_first());
        lemma_decode_encoded_char(t[0], encode_body(t.drop_first()));
        assert(seq![t[0]] + t.drop_first() =~= t);
    }
}

/// Decoding the minimal JSON string literal of any text gives that text back.
pub proof fn law_decode_of_encoded_literal(t: Seq<char>)
    ensures
        spec_decode_string(encode_literal(t), 0, encode_literal(t).len() as int) == Some(t),
{
    let lit = encode_literal(t);
    let body = encode_body(t);
    assert(lit.subrange(1, lit.len() - 1) =~= body);
    assert(lit[0] == quote());
    assert(lit[lit.len() - 1] == quote());
    lemma_decode_encoded_body(t);
}

} // verus!
