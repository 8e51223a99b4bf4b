//! A small, honest JSON field extractor.
//!
//! This is not a full JSON parser and it builds no document tree. It is a
//! single-pass scanner that understands just enough of the grammar to skip
//! string literals (escapes and `\uXXXX` units included), to find where a value
//! ends, and to decode a string literal into text.
use vstd::prelude::*;

use crate::spec::{
    lemma_string_end_bounds, quote, spec_container_end, spec_scalar_end, spec_skip_ws,
    spec_string_end, spec_value_end, spec_hex_digit, spec_read_hex4, spec_utf8_len, spec_escape,
    backslash, spec_decode_from, prefixed, spec_decode_string, lemma_escape_next, spec_container_underflows,
};
use crate::text::{char_from_u32, str_from_utf8, string_push};
use vstd::slice::slice_subrange;
use vstd::string::StringExecFns;
use crate::laws::{
    law_container_end_is_close, law_container_from_open_never_underflows, law_passes_agree_on_ascii,
    law_utf8_decoding_passes_bytewise, law_value_end_bounds,
    law_checked_body_decodes_alike_in_both_utf8_modes,
};

verus! {

/// The kind of a scanned JSON value, as far as the scanner can tell from the
/// first significant byte.
#[derive(Debug, Clone, Copy, PartialEq, Eq, Structural)]
pub enum ValueKind {
    String,
    Object,
    Array,
    /// number, `true`, `false` or `null`: anything not covered above.
    Scalar,
}

/// A located value: its kind and the byte range `[start, end)` in the source.
#[derive(Debug, Clone, Copy, PartialEq, Eq, Structural)]
pub struct ValueSpan {
    pub kind: ValueKind,
    pub start: usize,
    pub end: usize,
}

/// Result of scanning a whole message for structural sanity.
#[derive(Debug, Clone, Copy, PartialEq, Eq, Structural)]
pub struct StructureReport {
    /// `true` if brackets/braces/quotes are balanced across the input.
    pub balanced: bool,
    /// Maximum nesting depth encountered (objects + arrays).
    pub max_depth: usize,
}

/// Skip whitespace starting at `i`, returning the next non-whitespace index.
pub fn skip_ws(bytes: &[u8], i: usize) -> (r: usize)
    ensures
        r == spec_skip_ws(bytes@, i as int),
        i <= r,
        r == i || r <= bytes@.len(),
        forall|k: int| i <= k < r ==> crate::spec::is_ws(#[trigger] bytes@[k]),
        r < bytes@.len() ==> !crate::spec::is_ws(bytes@[r as int]),
        i >= bytes@.len() ==> r == i,
{
    let mut j: usize = i;
    while j < bytes.len()
        && (bytes[j] == 0x20u8 || bytes[j] == 0x09u8 || bytes[j] == 0x0Du8 || bytes[j] == 0x0Au8)
        invariant
            i <= j,
            spec_skip_ws(bytes@, i as int) == spec_skip_ws(bytes@, j as int),
            j == i || j <= bytes@.len(),
            forall|k: int| i <= k < j ==> crate::spec::is_ws(#[trigger] bytes@[k]),
            i >= bytes@.len() ==> j == i,
        decreases bytes.len() - j,
    {
        j += 1;
    }
    j
}

/// Given `i` pointing at the opening quote of a JSON string, return the index
/// just past the closing quote, or `None` if the string is unterminated.
///
/// Handles `\"`, `\\`, and `\uXXXX` so that an escaped quote does not
/// prematurely end the string.
pub fn scan_string(bytes: &[u8], i: usize) -> (r: Option<usize>)
    requires
        i < bytes@.len(),
        bytes@[i as int] == quote(),
    ensures
        match r {
            Some(e) => spec_string_end(bytes@, i + 1) == Some(e as int),
            None => spec_string_end(bytes@, i + 1) is None,
        },
        r matches Some(e) ==> i + 2 <= e <= bytes@.len() && bytes@[e - 1] == quote(),
{
    let len: usize = bytes.len();
    let mut j: usize = i + 1;
    while j < len
        invariant
            len == bytes@.len(),
            i < j,
            spec_string_end(bytes@, i + 1) == spec_string_end(bytes@, j as int),
        decreases bytes.len() - j,
    {
        let b: u8 = bytes[j];
        if b == 0x5Cu8 {
            // Skip the escape introducer and the escaped byte; for `\u` also
            // the four hex digits.
            if j + 1 < bytes.len() && bytes[j + 1] == 0x75u8 {
                if bytes.len() - j <= 6 {
                    assert(spec_string_end(bytes@, j + 6) is None);
                    return None;
                }
                j += 6;
            } else {
                if bytes.len() - j <= 2 {
                    assert(spec_string_end(bytes@, j + 2) is None);
                    return None;
                }
                j += 2;
            }
        } else if b == 0x22u8 {
            proof {
                lemma_string_end_bounds(bytes@, i + 1);
            }
            return Some(j + 1);
        } else {
            j += 1;
        }
    }
    None
}

/// Given `i` pointing at the `open` bracket of an object or array, return the
/// index just past the matching `close` bracket, or `None` if the input ends
/// first. String literals are skipped whole, so brackets inside them do not
/// count. The scan must not meet a `close` bracket while none of its kind is
/// open, as the count of open brackets cannot go below zero.
pub fn scan_container(bytes: &[u8], i: usize, open: u8, close: u8) -> (r: Option<usize>)
    requires
        !spec_container_underflows(bytes@, i as int, 0, open, close),
    ensures
        match r {
            Some(e) => spec_container_end(bytes@, i as int, 0, open, close) == Some(e as int),
            None => spec_container_end(bytes@, i as int, 0, open, close) is None,
        },
        r matches Some(e) ==> i < e <= bytes@.len() && bytes@[e - 1] == close,
{
    proof {
        law_container_end_is_close(bytes@, i as int, 0, open, close);
    }
    let mut depth: usize = 0;
    let mut j: usize = i;
    while j < bytes.len()
        invariant
            i <= j,
            depth <= j - i,
            !spec_container_underflows(bytes@, j as int, depth as int, open, close),
            spec_container_end(bytes@, i as int, 0, open, close) == spec_container_end(
                bytes@,
                j as int,
                depth as int,
                open,
                close,
            ),
        decreases bytes.len() - j,
    {
        let b: u8 = bytes[j];
        if b == 0x22u8 {
            proof {
                lemma_string_end_bounds(bytes@, j + 1);
            }
            match scan_string(bytes, j) {
                Some(e) => {
                    j = e;
                },
                None => {
                    return None;
                },
            }
        } else {
            if b == open {
                depth += 1;
            } else if b == close {
                depth -= 1;
                if depth == 0 {
                    return Some(j + 1);
                }
            }
            j += 1;
        }
    }
    None
}

/// Given `i` pointing at the first byte of a JSON value (leading whitespace
/// allowed), return the byte index just past the end of that value. Supports
/// objects, arrays, strings and scalars. Returns `None` on malformed or
/// truncated input.
pub fn scan_value_end(bytes: &[u8], i: usize) -> (r: Option<usize>)
    ensures
        match r {
            Some(e) => spec_value_end(bytes@, i as int) == Some(e as int),
            None => spec_value_end(bytes@, i as int) is None,
        },
        r matches Some(e) ==> i <= spec_skip_ws(bytes@, i as int) < e <= bytes@.len(),
{
    proof {
        law_value_end_bounds(bytes@, i as int);
    }
    let i: usize = skip_ws(bytes, i);
    if i >= bytes.len() {
        return None;
    }
    let b: u8 = bytes[i];
    if b == 0x22u8 {
        scan_string(bytes, i)
    } else if b == 0x7Bu8 {
        proof {
            law_container_from_open_never_underflows(bytes@, i as int, 0x7Bu8, 0x7Du8);
        }
        scan_container(bytes, i, 0x7Bu8, 0x7Du8)
    } else if b == 0x5Bu8 {
        proof {
            law_container_from_open_never_underflows(bytes@, i as int, 0x5Bu8, 0x5Du8);
        }
        scan_container(bytes, i, 0x5Bu8, 0x5Du8)
    } else {
        // Scalar: read until a structural terminator at the current level.
        let mut j: usize = i;
        while j < bytes.len() && !(bytes[j] == 0x2Cu8 || bytes[j] == 0x7Du8 || bytes[j] == 0x5Du8
            || bytes[j] == 0x20u8 || bytes[j] == 0x09u8 || bytes[j] == 0x0Du8 || bytes[j] == 0x0Au8)
            invariant
                i <= j <= bytes@.len(),
                spec_scalar_end(bytes@, i as int) == spec_scalar_end(bytes@, j as int),
            decreases bytes.len() - j,
        {
            j += 1;
        }
        if j == i {
            None
        } else {
            Some(j)
        }
    }
}

/// The length a UTF-8 leading byte announces, or 0 for a byte that cannot lead
/// a sequence.
pub fn utf8_len(b: u8) -> (r: usize)
    ensures
        r == spec_utf8_len(b),
{
    if b <= 0x7Fu8 {
        1
    } else if 0xC0u8 <= b && b <= 0xDFu8 {
        2
    } else if 0xE0u8 <= b && b <= 0xEFu8 {
        3
    } else if 0xF0u8 <= b && b <= 0xF7u8 {
        4
    } else {
        0
    }
}

/// Read four hexadecimal digits (either case) at `i..i + 4` as a number, or
/// `None` when the input ends first or one of them is not a hex digit.
pub fn read_hex4(bytes: &[u8], i: usize) -> (r: Option<u32>)
    ensures
        r == spec_read_hex4(bytes@, i as int),
        r matches Some(v) ==> v < 0x10000 && i + 4 <= bytes@.len(),
{
    if i >= bytes.len() || bytes.len() - i < 4 {
        return None;
    }
    let len: usize = bytes.len();
    let mut v: u32 = 0;
    let mut k: usize = 0;
    while k < 4
        invariant
            len == bytes@.len(),
            i + 4 <= len,
            k <= 4,
            k <= 1 ==> v < 16,
            k <= 2 ==> v < 256,
            k <= 3 ==> v < 4096,
            v < 0x10000,
            forall|t: int| 0 <= t < k ==> spec_hex_digit(#[trigger] bytes@[i + t]) is Some,
            k == 0 ==> v == 0,
            k == 1 ==> v == spec_hex_digit(bytes@[i as int])->0,
            k == 2 ==> v == spec_hex_digit(bytes@[i as int])->0 * 16 + spec_hex_digit(
                bytes@[i + 1],
            )->0,
            k == 3 ==> v == spec_hex_digit(bytes@[i as int])->0 * 256 + spec_hex_digit(
                bytes@[i + 1],
            )->0 * 16 + spec_hex_digit(bytes@[i + 2])->0,
            k == 4 ==> v == spec_hex_digit(bytes@[i as int])->0 * 4096 + spec_hex_digit(
                bytes@[i + 1],
            )->0 * 256 + spec_hex_digit(bytes@[i + 2])->0 * 16 + spec_hex_digit(
                bytes@[i + 3],
            )->0,
        decreases 4 - k,
    {
        let c: u8 = bytes[i + k];
        let d: u32 = if 0x30u8 <= c && c <= 0x39u8 {
            (c - 0x30u8) as u32
        } else if 0x61u8 <= c && c <= 0x66u8 {
            (c - 0x61u8 + 10) as u32
        } else if 0x41u8 <= c && c <= 0x46u8 {
            (c - 0x41u8 + 10) as u32
        } else {
            assert(spec_hex_digit(bytes@[i + k]) is None);
            return None;
        };
        assert(spec_hex_digit(bytes@[i + k]) == Some(d));
        v = v * 16 + d;
        k += 1;
    }
    assert(spec_hex_digit(bytes@[i + 0]) is Some);
    assert(spec_hex_digit(bytes@[i + 1]) is Some);
    assert(spec_hex_digit(bytes@[i + 2]) is Some);
    assert(spec_hex_digit(bytes@[i + 3]) is Some);
    Some(v)
}

/// Decode the escape whose backslash is at `i` of a string literal's body:
/// the character it stands for and the index just past it, or `None` when it
/// is not a valid escape (including a lone or unpaired surrogate).
fn decode_escape(inner: &[u8], i: usize) -> (r: Option<(char, usize)>)
    requires
        i < inner@.len(),
        inner@[i as int] == backslash(),
    ensures
        match r {
            Some((c, n)) => spec_escape(inner@, i as int) == Some((c, n as int)),
            None => spec_escape(inner@, i as int) is None,
        },
{
    let len: usize = inner.len();
    let e: usize = i + 1;
    if e >= len {
        return None;
    }
    let esc: u8 = inner[e];
    if esc == 0x22u8 {
        Some(('"', e + 1))
    } else if esc == 0x5Cu8 {
        Some(('\\', e + 1))
    } else if esc == 0x2Fu8 {
        Some(('/', e + 1))
    } else if esc == 0x62u8 {
        Some(('\u{0008}', e + 1))
    } else if esc == 0x66u8 {
        Some(('\u{000C}', e + 1))
    } else if esc == 0x6Eu8 {
        Some(('\n', e + 1))
    } else if esc == 0x72u8 {
        Some(('\r', e + 1))
    } else if esc == 0x74u8 {
        Some(('\t', e + 1))
    } else if esc == 0x75u8 {
        let cp: u32 = match read_hex4(inner, e + 1) {
            Some(v) => v,
            None => {
                return None;
            },
        };
        // `j` is the index of the last of the four hex digits.
        let j: usize = e + 4;
        if 0xD800u32 <= cp && cp <= 0xDBFFu32 {
            // High surrogate: a `\uXXXX` low surrogate must follow.
            if len - j > 2 && inner[j + 1] == 0x5Cu8 && inner[j + 2] == 0x75u8 {
                let low: u32 = match read_hex4(inner, j + 3) {
                    Some(v) => v,
                    None => {
                        return None;
                    },
                };
                if 0xDC00u32 <= low && low <= 0xDFFFu32 {
                    let c: u32 = 0x10000u32 + (cp - 0xD800u32) * 1024 + (low - 0xDC00u32);
                    match char_from_u32(c) {
                        Some(ch) => Some((ch, j + 7)),
                        None => None,
                    }
                } else {
                    None
                }
            } else {
                None
            }
        } else {
            match char_from_u32(cp) {
                Some(ch) => Some((ch, j + 1)),
                None => None,
            }
        }
    } else {
        None
    }
}

/// Decode the body of a string literal treating every byte outside an escape
/// as UTF-8. Escapes are handled exactly as in `decode_string`.
pub fn decode_string_utf8(inner: &[u8]) -> (r: Option<String>)
    ensures
        match r {
            Some(s) => spec_decode_from(inner@, 0, true, false) == Some(s@),
            None => spec_decode_from(inner@, 0, true, false) is None,
        },
{
    let len: usize = inner.len();
    let mut out: String = String::new();
    let mut i: usize = 0;
    while i < len
        invariant
            len == inner@.len(),
            i <= len,
            spec_decode_from(inner@, 0, true, false) == prefixed(
                out@,
                spec_decode_from(inner@, i as int, true, false),
            ),
        decreases len - i,
    {
        if inner[i] == 0x5Cu8 {
            match decode_escape(inner, i) {
                Some((c, n)) => {
                    proof {
                        lemma_escape_next(inner@, i as int);
                    }
                    let ghost before = out@;
                    string_push(&mut out, c);
                    assert(out@ == before + seq![c]);
                    i = n;
                },
                None => {
                    return None;
                },
            }
        } else {
            // Decode one UTF-8 scalar.
            let w: usize = utf8_len(inner[i]);
            if w == 0 || len - i < w {
                return None;
            }
            let chunk: &[u8] = slice_subrange(inner, i, i + w);
            let piece: &str = match str_from_utf8(chunk) {
                Some(p) => p,
                None => {
                    return None;
                },
            };
            out.append(piece);
            i += w;
        }
    }
    Some(out)
}

/// Decode a JSON string literal, whose raw span is `bytes[start..end]` with
/// the surrounding quotes, into a `String`.
///
/// Supports the standard JSON escapes and `\uXXXX` (including surrogate
/// pairs). Returns `None` if the span is not a well-formed string literal.
pub fn decode_string(bytes: &[u8], start: usize, end: usize) -> (r: Option<String>)
    ensures
        match r {
            Some(s) => spec_decode_string(bytes@, start as int, end as int) == Some(s@),
            None => spec_decode_string(bytes@, start as int, end as int) is None,
        },
{
    if end <= start || end - start < 2 || end > bytes.len() || bytes[start] != 0x22u8 || bytes[end
        - 1] != 0x22u8 {
        return None;
    }
    let inner: &[u8] = slice_subrange(bytes, start + 1, end - 1);
    let len: usize = inner.len();
    let mut out: String = String::new();
    let mut i: usize = 0;
    while i < len
        invariant
            len == inner@.len(),
            i <= len,
            spec_decode_from(inner@, 0, false, true) == prefixed(
                out@,
                spec_decode_from(inner@, i as int, false, true),
            ),
            spec_decode_string(bytes@, start as int, end as int) == spec_decode_from(
                inner@,
                0,
                true, true,
            ),
        decreases len - i,
    {
        let b: u8 = inner[i];
        if b != 0x5Cu8 {
            if b == 0x22u8 || b < 0x20u8 {
                proof {
                    law_utf8_decoding_passes_bytewise(inner@);
                }
                return None;
            }
            string_push(&mut out, b as char);
            i += 1;
        } else {
            match decode_escape(inner, i) {
                Some((c, n)) => {
                    proof {
                        lemma_escape_next(inner@, i as int);
                    }
                    string_push(&mut out, c);
                    i = n;
                },
                None => {
                    assert(spec_decode_from(inner@, i as int, false, true) is None);
                    proof {
                        law_utf8_decoding_passes_bytewise(inner@);
                    }
                    return None;
                },
            }
        }
    }
    assert(spec_decode_from(inner@, len as int, false, true) == Some(Seq::<char>::empty()));
    assert(spec_decode_from(inner@, 0, false, true) == Some(out@));
    // Bytes outside escapes were taken one by one above, which is right only
    // for ASCII; when a non-ASCII byte is present the body is decoded again
    // as UTF-8 so that multibyte characters come out whole.
    let mut k: usize = 0;
    while k < len
        invariant
            len == inner@.len(),
            k <= len,
            forall|t: int| 0 <= t < k ==> #[trigger] inner@[t] < 0x80u8,
            spec_decode_from(inner@, 0, false, true) == Some(out@),
            spec_decode_string(bytes@, start as int, end as int) == spec_decode_from(
                inner@,
                0,
                true, true,
            ),
        decreases len - k,
    {
        if inner[k] >= 0x80u8 {
            proof {
                law_checked_body_decodes_alike_in_both_utf8_modes(inner@);
            }
            return decode_string_utf8(inner);
        }
        k += 1;
    }
    proof {
        assert forall|t: int| 0 <= t < inner@.len() implies !(inner@[t] >= 0x80u8) by {
            assert(inner@[t] < 0x80u8);
        }
        law_passes_agree_on_ascii(inner@);
    }
    Some(out)
}

} // verus!
