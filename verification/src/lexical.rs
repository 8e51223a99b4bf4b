//! What the scanner and the decoder do, stated over the input bytes
//! themselves: which bytes are whitespace, where a scalar or a string value
//! ends, and which character a `\u` escape stands for.
use vstd::prelude::*;
use vstd::utf8::*;

use crate::laws::law_escaped_quote_does_not_end_string;
use crate::round_trip::{hex_lower, lemma_hex_lower_digit};
use crate::spec::{
    remaining, spec_container_end, spec_decode_from, spec_hex_digit, spec_decode_string, spec_read_hex4, spec_scalar_end,
    spec_skip_ws, spec_string_end, spec_value_end,
};

verus! {

/// The four lower-case hexadecimal digits of a 16-bit value, most
/// significant first.
pub open spec fn hex4_lower(v: u32) -> Seq<u8> {
    seq![
        hex_lower((v >> 12u32) & 0xFu32),
        hex_lower((v >> 8u32) & 0xFu32),
        hex_lower((v >> 4u32) & 0xFu32),
        hex_lower(v & 0xFu32),
    ]
}

/// `skip_ws` moves past space, tab, carriage return and line feed and nothing
/// else: every byte it passes is one of 0x20, 0x09, 0x0D, 0x0A, and the byte
/// it stops at, if any, is none of them.
pub proof fn law_skip_ws_skips_exactly_json_whitespace(s: Seq<u8>, i: int)
    requires
        0 <= i,
    ensures
        i <= spec_skip_ws(s, i),
        i < s.len() ==> spec_skip_ws(s, i) <= s.len(),
        i >= s.len() ==> spec_skip_ws(s, i) == i,
        forall|k: int|
            i <= k < spec_skip_ws(s, i) ==> #[trigger] s[k] == 0x20u8 || s[k] == 0x09u8 || s[k]
                == 0x0Du8 || s[k] == 0x0Au8,
        spec_skip_ws(s, i) < s.len() ==> !(s[spec_skip_ws(s, i)] == 0x20u8 || s[spec_skip_ws(s, i)]
            == 0x09u8 || s[spec_skip_ws(s, i)] == 0x0Du8 || s[spec_skip_ws(s, i)] == 0x0Au8),
    decreases remaining(s, i),
{
    if i < s.len() && (s[i] == 0x20u8 || s[i] == 0x09u8 || s[i] == 0x0Du8 || s[i] == 0x0Au8) {
        law_skip_ws_skips_exactly_json_whitespace(s, i + 1);
    }
}

/// The bytes that end a scalar: `,` `}` `]` space, tab, carriage return, line
/// feed.
proof fn lemma_scalar_end_first_stop(s: Seq<u8>, j: int)
    requires
        0 <= j <= s.len(),
    ensures
        j <= spec_scalar_end(s, j) <= s.len(),
        spec_scalar_end(s, j) < s.len() ==> {
            let b = s[spec_scalar_end(s, j)];
            b == 0x2Cu8 || b == 0x7Du8 || b == 0x5Du8 || b == 0x20u8 || b == 0x09u8 || b == 0x0Du8
                || b == 0x0Au8
        },
        forall|k: int|
            j <= k < spec_scalar_end(s, j) ==> !(#[trigger] s[k] == 0x2Cu8 || s[k] == 0x7Du8 || s[k]
                == 0x5Du8 || s[k] == 0x20u8 || s[k] == 0x09u8 || s[k] == 0x0Du8 || s[k] == 0x0Au8),
    decreases s.len() - j,
{
    if j < s.len() && !(s[j] == 0x2Cu8 || s[j] == 0x7Du8 || s[j] == 0x5Du8 || s[j] == 0x20u8
        || s[j] == 0x09u8 || s[j] == 0x0Du8 || s[j] == 0x0Au8) {
        lemma_scalar_end_first_stop(s, j + 1);
    }
}

/// A value that starts with neither a quote nor a bracket is a scalar: it
/// ends at the first of `,` `}` `]` space, tab, carriage return or line feed
/// at or after its first byte, or at the end of the input, and there is no
/// value when that first byte is itself one of them.
pub proof fn law_scalar_value_ends_at_first_stop_byte(s: Seq<u8>, i: int)
    requires
        0 <= i,
        spec_skip_ws(s, i) < s.len(),
        s[spec_skip_ws(s, i)] != 0x22u8,
        s[spec_skip_ws(s, i)] != 0x7Bu8,
        s[spec_skip_ws(s, i)] != 0x5Bu8,
    ensures
        spec_value_end(s, i) matches Some(t) ==> {
            &&& spec_skip_ws(s, i) < t <= s.len()
            &&& t < s.len() ==> (s[t] == 0x2Cu8 || s[t] == 0x7Du8 || s[t] == 0x5Du8 || s[t] == 0x20u8
                || s[t] == 0x09u8 || s[t] == 0x0Du8 || s[t] == 0x0Au8)
            &&& forall|k: int|
                spec_skip_ws(s, i) <= k < t ==> !(#[trigger] s[k] == 0x2Cu8 || s[k] == 0x7Du8 || s[k]
                    == 0x5Du8 || s[k] == 0x20u8 || s[k] == 0x09u8 || s[k] == 0x0Du8 || s[k]
                    == 0x0Au8)
        },
        spec_value_end(s, i) is None ==> {
            let b = s[spec_skip_ws(s, i)];
            b == 0x2Cu8 || b == 0x7Du8 || b == 0x5Du8 || b == 0x20u8 || b == 0x09u8 || b == 0x0Du8
                || b == 0x0Au8
        },
{
    let v: int = spec_skip_ws(s, i);
    law_skip_ws_skips_exactly_json_whitespace(s, i);
    lemma_scalar_end_first_stop(s, v);
}

/// A string literal whose body holds no backslash ends just past the first
/// quote after its opening one.
pub proof fn law_plain_string_ends_at_first_quote(s: Seq<u8>, j: int, e: int)
    requires
        0 <= j < e <= s.len(),
        s[e - 1] == 0x22u8,
        forall|k: int| j <= k < e - 1 ==> #[trigger] s[k] != 0x5Cu8 && s[k] != 0x22u8,
    ensures
        spec_string_end(s, j) == Some(e),
    decreases e - j,
{
    if j < e - 1 {
        law_plain_string_ends_at_first_quote(s, j + 1, e);
    }
}

/// A value that starts with a quote is a string literal and ends where
/// scanning that literal ends; in particular a backslash-quote pair inside it
/// never ends it.
pub proof fn law_string_value_ends_where_its_literal_does(s: Seq<u8>, i: int)
    requires
        0 <= i,
        spec_skip_ws(s, i) < s.len(),
        s[spec_skip_ws(s, i)] == 0x22u8,
    ensures
        spec_value_end(s, i) == spec_string_end(s, spec_skip_ws(s, i) + 1),
        forall|j: int|
            spec_skip_ws(s, i) < j && j + 1 < s.len() && s[j] == 0x5Cu8 && s[j + 1] == 0x22u8
                && spec_string_end(s, spec_skip_ws(s, i) + 1) == #[trigger] spec_string_end(s, j)
                ==> (spec_value_end(s, i) matches Some(t) ==> j + 2 < t),
{
    law_skip_ws_skips_exactly_json_whitespace(s, i);
    assert forall|j: int|
        spec_skip_ws(s, i) < j && j + 1 < s.len() && s[j] == 0x5Cu8 && s[j + 1] == 0x22u8
            && spec_string_end(s, spec_skip_ws(s, i) + 1) == #[trigger] spec_string_end(s, j) implies (
    spec_value_end(s, i) matches Some(t) ==> j + 2 < t) by {
        law_escaped_quote_does_not_end_string(s, j);
    }
}

proof fn lemma_hex4_lower_reads_back(v: u32)
    requires
        v < 0x10000,
    ensures
        hex4_lower(v).len() == 4,
        spec_read_hex4(hex4_lower(v), 0) == Some(v),
{
    let a: u32 = (v >> 12u32) & 0xFu32;
    let b: u32 = (v >> 8u32) & 0xFu32;
    let c: u32 = (v >> 4u32) & 0xFu32;
    let d: u32 = v & 0xFu32;
    assert(((v >> 12u32) & 0xFu32) < 16 && ((v >> 8u32) & 0xFu32) < 16 && ((v >> 4u32) & 0xFu32)
        < 16 && (v & 0xFu32) < 16) by (bit_vector);
    assert(v < 0x10000 ==> v == ((v >> 12u32) & 0xFu32) * 4096 + ((v >> 8u32) & 0xFu32) * 256 + ((
    v >> 4u32) & 0xFu32) * 16 + (v & 0xFu32)) by (bit_vector);
    lemma_hex_lower_digit(a);
    lemma_hex_lower_digit(b);
    lemma_hex_lower_digit(c);
    lemma_hex_lower_digit(d);
}

/// The body `\uXXXX` (four lower-case hex digits) of a code point below
/// 0x10000 that is not a surrogate.
pub open spec fn unicode_escape(cp: u32) -> Seq<u8> {
    seq![0x5Cu8, 0x75u8] + hex4_lower(cp)
}

/// A `\uXXXX` escape of any code point below 0x10000 outside the surrogate
/// range stands for exactly that one character, both inside a literal given
/// to `decode_string` and in a body given to `decode_string_utf8`.
pub proof fn law_unicode_escape_decodes_to_its_code_point(cp: u32)
    requires
        cp < 0x10000,
        !(0xD800 <= cp <= 0xDFFF),
    ensures
        spec_decode_from(unicode_escape(cp), 0, true, false) == Some(seq![cp as char]),
        spec_decode_string(seq![0x22u8] + unicode_escape(cp) + seq![0x22u8], 0, 8) == Some(
            seq![cp as char],
        ),
{
    let body = unicode_escape(cp);
    lemma_hex4_lower_reads_back(cp);
    assert(spec_read_hex4(body, 2) == Some(cp)) by {
        assert(body.subrange(2, 6) =~= hex4_lower(cp));
        assert(body[2] == hex4_lower(cp)[0]);
        assert(body[3] == hex4_lower(cp)[1]);
        assert(body[4] == hex4_lower(cp)[2]);
        assert(body[5] == hex4_lower(cp)[3]);
    }
    assert(is_scalar(cp));
    assert(spec_decode_from(body, 6, true, false) == Some(Seq::<char>::empty()));
    assert(spec_decode_from(body, 6, true, true) == Some(Seq::<char>::empty()));
    assert(seq![cp as char] + Seq::<char>::empty() =~= seq![cp as char]);
    let lit = seq![0x22u8] + body + seq![0x22u8];
    assert(lit.subrange(1, 7) =~= body);
}

/// The body `\uHHHH\uLLLL` of a high surrogate `h` (0xD800..=0xDBFF) and a
/// low surrogate `l` (0xDC00..=0xDFFF).
pub open spec fn surrogate_escapes(h: u32, l: u32) -> Seq<u8> {
    unicode_escape_raw(h) + unicode_escape_raw(l)
}

/// The six bytes `\u` and four lower-case hex digits of `v`.
pub open spec fn unicode_escape_raw(v: u32) -> Seq<u8> {
    seq![0x5Cu8, 0x75u8] + hex4_lower(v)
}

/// Every surrogate pair escape stands for exactly the one character
/// 0x10000 + (h - 0xD800) * 1024 + (l - 0xDC00), both inside a literal given
/// to `decode_string` and in a body given to `decode_string_utf8`.
pub proof fn law_surrogate_pair_decodes_to_its_character(h: u32, l: u32)
    requires
        0xD800 <= h <= 0xDBFF,
        0xDC00 <= l <= 0xDFFF,
    ensures
        spec_decode_from(surrogate_escapes(h, l), 0, true, false) == Some(
            seq![(0x10000 + (h - 0xD800) * 1024 + (l - 0xDC00)) as char],
        ),
        spec_decode_string(seq![0x22u8] + surrogate_escapes(h, l) + seq![0x22u8], 0, 14) == Some(
            seq![(0x10000 + (h - 0xD800) * 1024 + (l - 0xDC00)) as char],
        ),
{
    let body = surrogate_escapes(h, l);
    lemma_hex4_lower_reads_back(h);
    lemma_hex4_lower_reads_back(l);
    assert(body.len() == 12);
    assert(spec_read_hex4(body, 2) == Some(h)) by {
        assert(body[2] == hex4_lower(h)[0]);
        assert(body[3] == hex4_lower(h)[1]);
        assert(body[4] == hex4_lower(h)[2]);
        assert(body[5] == hex4_lower(h)[3]);
    }
    assert(spec_read_hex4(body, 8) == Some(l)) by {
        assert(body[8] == hex4_lower(l)[0]);
        assert(body[9] == hex4_lower(l)[1]);
        assert(body[10] == hex4_lower(l)[2]);
        assert(body[11] == hex4_lower(l)[3]);
    }
    assert(body[0] == 0x5Cu8 && body[1] == 0x75u8 && body[6] == 0x5Cu8 && body[7] == 0x75u8);
    let c: char = (0x10000 + (h - 0xD800) * 1024 + (l - 0xDC00)) as char;
    assert(spec_decode_from(body, 12, true, false) == Some(Seq::<char>::empty()));
    assert(spec_decode_from(body, 12, true, true) == Some(Seq::<char>::empty()));
    assert(seq![c] + Seq::<char>::empty() =~= seq![c]);
    let lit = seq![0x22u8] + body + seq![0x22u8];
    assert(lit.subrange(1, 13) =~= body);
}

/// The character a two-byte escape `\x` stands for, by its letter.
pub open spec fn simple_escape_char(x: u8) -> Option<char> {
    if x == 0x22u8 {
        Some('"')
    } else if x == 0x5Cu8 {
        Some('\\')
    } else if x == 0x2Fu8 {
        Some('/')
    } else if x == 0x62u8 {
        Some('\u{0008}')
    } else if x == 0x66u8 {
        Some('\u{000C}')
    } else if x == 0x6Eu8 {
        Some('\n')
    } else if x == 0x72u8 {
        Some('\r')
    } else if x == 0x74u8 {
        Some('\t')
    } else {
        None
    }
}

/// The two-byte escapes `\"` `\\` `\/` `\b` `\f` `\n` `\r` `\t` stand for quote,
/// backslash, slash, backspace, form feed, line feed, carriage return and
/// tab, and decoding goes on with what follows them; a backslash followed by
/// any other byte than these or `u` makes the body fail to decode.
pub proof fn law_simple_escapes(x: u8, rest: Seq<u8>, utf8: bool, strict: bool)
    ensures
        simple_escape_char(x) matches Some(c) ==> spec_decode_from(
            seq![0x5Cu8, x] + rest,
            0,
            utf8,
            strict,
        ) == match spec_decode_from(rest, 0, utf8, strict) {
            Some(t) => Some(seq![c] + t),
            None => None,
        },
        simple_escape_char(x) is None && x != 0x75u8 ==> spec_decode_from(
            seq![0x5Cu8, x] + rest,
            0,
            utf8,
            strict,
        ) is None,
{
    let u = seq![0x5Cu8, x] + rest;
    assert(u[0] == 0x5Cu8 && u[1] == x);
    crate::round_trip::lemma_decode_shift(seq![0x5Cu8, x], rest, 0, utf8, strict);
}

/// Text with no escapes decodes, in `decode_string_utf8`, exactly as UTF-8
/// does: it succeeds just when the bytes are valid UTF-8, and then gives the
/// characters they encode.
pub proof fn law_unescaped_text_decodes_as_utf8(s: Seq<u8>)
    requires
        forall|k: int| 0 <= k < s.len() ==> #[trigger] s[k] != 0x5Cu8,
    ensures
        spec_decode_from(s, 0, true, false) is Some <==> valid_utf8(s),
        valid_utf8(s) ==> spec_decode_from(s, 0, true, false) == Some(decode_utf8(s)),
    decreases s.len(),
{
    if s.len() > 0 {
        let w: int = crate::spec::spec_utf8_len(s[0]);
        if w != 0 && w <= s.len() {
            let c = s.subrange(0, w);
            let r = s.subrange(w, s.len() as int);
            assert forall|k: int| 0 <= k < r.len() implies #[trigger] r[k] != 0x5Cu8 by {
                assert(r[k] == s[w + k]);
            }
            law_unescaped_text_decodes_as_utf8(r);
            assert(c + r =~= s);
            crate::round_trip::lemma_decode_shift(c, r, 0, true, false);
            assert(c.len() == w);
            assert forall|k: int| 0 <= k < w implies #[trigger] c[k] == s[k] by {}
            assert(valid_first_scalar(s) == valid_first_scalar(c));
            assert(pop_first_scalar(c) =~= Seq::<u8>::empty());
            assert(valid_utf8(Seq::<u8>::empty()));
            assert(decode_utf8(Seq::<u8>::empty()) =~= Seq::<char>::empty());
            if valid_first_scalar(s) {
                assert(length_of_first_scalar(s) == w);
                assert(pop_first_scalar(s) =~= r);
                assert(decode_first_scalar(s) == decode_first_scalar(c));
            }
        }
    }
}

/// A literal whose body holds no backslash, quote or control byte decodes
/// exactly as UTF-8 does: it succeeds just when the body is valid UTF-8, and
/// then gives the characters the body encodes.
pub proof fn law_unescaped_literal_decodes_as_utf8(body: Seq<u8>)
    requires
        forall|k: int|
            0 <= k < body.len() ==> #[trigger] body[k] != 0x5Cu8 && body[k] != 0x22u8 && body[k]
                >= 0x20u8,
    ensures
        spec_decode_string(seq![0x22u8] + body + seq![0x22u8], 0, body.len() + 2int) == (if valid_utf8(
            body,
        ) {
            Some(decode_utf8(body))
        } else {
            None
        }),
{
    let lit = seq![0x22u8] + body + seq![0x22u8];
    assert(lit.subrange(1, body.len() + 1int) =~= body);
    law_unescaped_text_decodes_as_utf8(body);
    lemma_lenient_is_strict_without_barred_bytes(body, 0);
}

proof fn lemma_lenient_is_strict_without_barred_bytes(s: Seq<u8>, i: int)
    requires
        0 <= i,
        forall|k: int| 0 <= k < s.len() ==> #[trigger] s[k] != 0x22u8 && s[k] >= 0x20u8,
    ensures
        spec_decode_from(s, i, true, true) == spec_decode_from(s, i, true, false),
    decreases remaining(s, i),
{
    if i < s.len() {
        if s[i] == 0x5Cu8 {
            if let Some((c, n)) = crate::spec::spec_escape(s, i) {
                crate::spec::lemma_escape_next(s, i);
                lemma_lenient_is_strict_without_barred_bytes(s, n);
            }
        } else {
            let w: int = crate::spec::spec_utf8_len(s[i]);
            if w != 0 && i + w <= s.len() {
                lemma_lenient_is_strict_without_barred_bytes(s, i + w);
            }
        }
    }
}

/// The number of `open` bytes minus the number of `close` bytes in
/// `s[j..t]`.
pub open spec fn bracket_balance(s: Seq<u8>, j: int, t: int, open: u8, close: u8) -> int
    decreases t - j,
{
    if j >= t {
        0
    } else {
        (if s[j] == open {
            1int
        } else if s[j] == close {
            -1int
        } else {
            0int
        }) + bracket_balance(s, j + 1, t, open, close)
    }
}

proof fn lemma_container_balance(s: Seq<u8>, p: int, d: int, open: u8, close: u8)
    requires
        0 <= p <= s.len(),
        d >= 1,
        open != close,
        open != 0x22u8,
        close != 0x22u8,
        forall|k: int| p <= k < s.len() ==> #[trigger] s[k] != 0x22u8,
    ensures
        spec_container_end(s, p, d, open, close) matches Some(e) ==> {
            &&& p < e <= s.len()
            &&& d + bracket_balance(s, p, e, open, close) == 0
            &&& forall|t: int| p <= t < e ==> d + #[trigger] bracket_balance(s, p, t, open, close) >= 1
        },
        spec_container_end(s, p, d, open, close) is None ==> forall|t: int|
            p <= t <= s.len() ==> d + #[trigger] bracket_balance(s, p, t, open, close) >= 1,
    decreases s.len() - p,
{
    if p < s.len() {
        let nd: int = if s[p] == open {
            d + 1
        } else if s[p] == close {
            d - 1
        } else {
            d
        };
        assert forall|t: int| p < t implies #[trigger] bracket_balance(s, p, t, open, close) == (
        nd - d) + bracket_balance(s, p + 1, t, open, close) by {}
        assert(bracket_balance(s, p, p, open, close) == 0);
        if nd >= 1 {
            lemma_container_balance(s, p + 1, nd, open, close);
            if let Some(e) = spec_container_end(s, p, d, open, close) {
                assert forall|t: int| p <= t < e implies d + #[trigger] bracket_balance(
                    s,
                    p,
                    t,
                    open,
                    close,
                ) >= 1 by {
                    if t > p {
                        assert(nd + bracket_balance(s, p + 1, t, open, close) >= 1);
                    }
                }
            } else {
                assert forall|t: int| p <= t <= s.len() implies d + #[trigger] bracket_balance(
                    s,
                    p,
                    t,
                    open,
                    close,
                ) >= 1 by {
                    if t > p {
                        assert(nd + bracket_balance(s, p + 1, t, open, close) >= 1);
                    }
                }
            }
        } else {
            assert(bracket_balance(s, p + 1, p + 1, open, close) == 0);
            assert(spec_container_end(s, p, d, open, close) == Some(p + 1));
        }
    }
}

/// Outside string literals a container scan counts its own bracket kind: a
/// container that opens at `j` and holds no quote ends just past the first
/// bracket at which as many `close` as `open` bytes have been seen since `j`,
/// and has no end if that never happens.
pub proof fn law_container_ends_where_brackets_balance(s: Seq<u8>, j: int, open: u8, close: u8)
    requires
        0 <= j < s.len(),
        s[j] == open,
        open != close,
        open != 0x22u8,
        close != 0x22u8,
        forall|k: int| j <= k < s.len() ==> #[trigger] s[k] != 0x22u8,
    ensures
        spec_container_end(s, j, 0, open, close) matches Some(e) ==> {
            &&& j < e <= s.len()
            &&& bracket_balance(s, j, e, open, close) == 0
            &&& forall|t: int| j < t < e ==> #[trigger] bracket_balance(s, j, t, open, close) >= 1
        },
        spec_container_end(s, j, 0, open, close) is None ==> forall|t: int|
            j < t <= s.len() ==> #[trigger] bracket_balance(s, j, t, open, close) >= 1,
{
    lemma_container_balance(s, j + 1, 1, open, close);
    assert forall|t: int| j < t implies #[trigger] bracket_balance(s, j, t, open, close) == 1
        + bracket_balance(s, j + 1, t, open, close) by {}
    assert(spec_container_end(s, j, 0, open, close) == spec_container_end(s, j + 1, 1, open, close));
}

/// The upper-case hexadecimal digit for `d` (below 16).
pub open spec fn hex_upper(d: u32) -> u8 {
    if d < 10 {
        (0x30 + d) as u8
    } else {
        (0x41 + d - 10) as u8
    }
}

/// The body `\uXXXX` of a 16-bit value written with upper-case hex digits.
pub open spec fn unicode_escape_upper(v: u32) -> Seq<u8> {
    seq![
        0x5Cu8,
        0x75u8,
        hex_upper((v >> 12u32) & 0xFu32),
        hex_upper((v >> 8u32) & 0xFu32),
        hex_upper((v >> 4u32) & 0xFu32),
        hex_upper(v & 0xFu32),
    ]
}

/// Upper-case hex digits in a `\uXXXX` escape mean the same as lower-case
/// ones: the escape of a code point below 0x10000 outside the surrogate
/// range stands for exactly that character.
pub proof fn law_upper_case_unicode_escape_decodes_to_its_code_point(cp: u32)
    requires
        cp < 0x10000,
        !(0xD800 <= cp <= 0xDFFF),
    ensures
        spec_decode_from(unicode_escape_upper(cp), 0, true, false) == Some(seq![cp as char]),
        spec_decode_string(seq![0x22u8] + unicode_escape_upper(cp) + seq![0x22u8], 0, 8) == Some(
            seq![cp as char],
        ),
{
    let body = unicode_escape_upper(cp);
    let a: u32 = (cp >> 12u32) & 0xFu32;
    let b: u32 = (cp >> 8u32) & 0xFu32;
    let c: u32 = (cp >> 4u32) & 0xFu32;
    let d: u32 = cp & 0xFu32;
    assert(((cp >> 12u32) & 0xFu32) < 16 && ((cp >> 8u32) & 0xFu32) < 16 && ((cp >> 4u32)
        & 0xFu32) < 16 && (cp & 0xFu32) < 16) by (bit_vector);
    assert(cp < 0x10000 ==> cp == ((cp >> 12u32) & 0xFu32) * 4096 + ((cp >> 8u32) & 0xFu32) * 256
        + ((cp >> 4u32) & 0xFu32) * 16 + (cp & 0xFu32)) by (bit_vector);
    assert(spec_hex_digit(hex_upper(a)) == Some(a));
    assert(spec_hex_digit(hex_upper(b)) == Some(b));
    assert(spec_hex_digit(hex_upper(c)) == Some(c));
    assert(spec_hex_digit(hex_upper(d)) == Some(d));
    assert(spec_read_hex4(body, 2) == Some(cp));
    assert(is_scalar(cp));
    assert(spec_decode_from(body, 6, true, false) == Some(Seq::<char>::empty()));
    assert(spec_decode_from(body, 6, true, true) == Some(Seq::<char>::empty()));
    assert(seq![cp as char] + Seq::<char>::empty() =~= seq![cp as char]);
    let lit = seq![0x22u8] + body + seq![0x22u8];
    assert(lit.subrange(1, 7) =~= body);
}

/// Whether `b` is a hexadecimal digit: `0`-`9`, `a`-`f` or `A`-`F`.
pub open spec fn is_hex_byte(b: u8) -> bool {
    (0x30u8 <= b <= 0x39u8) || (0x61u8 <= b <= 0x66u8) || (0x41u8 <= b <= 0x46u8)
}

/// A `\u` escape whose next four bytes are not all hexadecimal digits (or
/// that runs out of bytes first) makes the body fail to decode, in both
/// decoders.
pub proof fn law_unicode_escape_needs_four_hex_digits(rest: Seq<u8>, utf8: bool, strict: bool)
    requires
        !(rest.len() >= 4 && is_hex_byte(rest[0]) && is_hex_byte(rest[1]) && is_hex_byte(rest[2])
            && is_hex_byte(rest[3])),
    ensures
        spec_decode_from(seq![0x5Cu8, 0x75u8] + rest, 0, utf8, strict) is None,
{
    let u = seq![0x5Cu8, 0x75u8] + rest;
    assert(u[0] == 0x5Cu8 && u[1] == 0x75u8);
    if rest.len() >= 4 {
        assert(u[2] == rest[0] && u[3] == rest[1] && u[4] == rest[2] && u[5] == rest[3]);
    }
}

/// Inside a string literal, `\u` hides the four bytes after the `u` as well:
/// scanning goes on six bytes after the backslash, so a quote among those
/// four bytes does not end the string.
pub proof fn law_unicode_escape_hides_four_bytes(s: Seq<u8>, j: int)
    requires
        0 <= j,
        j + 1 < s.len(),
        s[j] == 0x5Cu8,
        s[j + 1] == 0x75u8,
    ensures
        spec_string_end(s, j) == spec_string_end(s, j + 6),
        spec_string_end(s, j) matches Some(e) ==> j + 6 < e,
{
    crate::spec::lemma_string_end_bounds(s, j + 6);
}

proof fn lemma_bytewise_meets_barred_byte(s: Seq<u8>, i: int, k: int)
    requires
        0 <= i <= k < s.len(),
        forall|m: int| 0 <= m < s.len() ==> #[trigger] s[m] != 0x5Cu8,
        s[k] == 0x22u8 || s[k] < 0x20u8,
    ensures
        spec_decode_from(s, i, false, true) is None,
    decreases k - i,
{
    if i < k && !(s[i] == 0x22u8 || s[i] < 0x20u8) {
        lemma_bytewise_meets_barred_byte(s, i + 1, k);
    }
}

/// A literal whose body holds no escape but holds a raw quote or control
/// byte is not well-formed: decoding it gives `None`.
pub proof fn law_raw_quote_or_control_byte_is_refused(body: Seq<u8>, k: int)
    requires
        0 <= k < body.len(),
        body[k] == 0x22u8 || body[k] < 0x20u8,
        forall|m: int| 0 <= m < body.len() ==> #[trigger] body[m] != 0x5Cu8,
    ensures
        spec_decode_string(seq![0x22u8] + body + seq![0x22u8], 0, body.len() + 2int) is None,
{
    let lit = seq![0x22u8] + body + seq![0x22u8];
    assert(lit.subrange(1, body.len() + 1int) =~= body);
    lemma_bytewise_meets_barred_byte(body, 0, k);
    crate::laws::law_utf8_decoding_passes_bytewise(body);
}

} // verus!
