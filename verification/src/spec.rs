//! The mathematical model of the scanner: what each scan returns and what a
//! string literal decodes to, as functions of the input bytes.
use vstd::prelude::*;
use vstd::utf8::*;

verus! {

/// The byte `"`.
pub open spec fn quote() -> u8 {
    0x22u8
}

/// The byte `\`.
pub open spec fn backslash() -> u8 {
    0x5Cu8
}

/// JSON insignificant whitespace: space, tab, carriage return, line feed.
pub open spec fn is_ws(b: u8) -> bool {
    b == 0x20u8 || b == 0x09u8 || b == 0x0Du8 || b == 0x0Au8
}

/// A measure that shrinks as a scan position `j` moves towards the end of `s`.
pub open spec fn remaining(s: Seq<u8>, j: int) -> int {
    if j < s.len() {
        s.len() - j
    } else {
        0
    }
}

/// The first index at or after `i` that does not hold whitespace (or `i`
/// itself once `i` is past the end).
pub open spec fn spec_skip_ws(s: Seq<u8>, i: int) -> int
    decreases remaining(s, i),
{
    if 0 <= i < s.len() && is_ws(s[i]) {
        spec_skip_ws(s, i + 1)
    } else {
        i
    }
}

/// Scanning the body of a string literal from index `j` (just past the
/// opening quote, or just past an escape): the index just past the closing
/// quote, or `None` when the input ends first. A backslash hides the byte that
/// follows it; `\u` hides the four bytes after the `u` as well.
pub open spec fn spec_string_end(s: Seq<u8>, j: int) -> Option<int>
    decreases remaining(s, j),
{
    if j < 0 || j >= s.len() {
        None
    } else if s[j] == backslash() {
        if j + 1 < s.len() && s[j + 1] == 0x75u8 {
            spec_string_end(s, j + 6)
        } else {
            spec_string_end(s, j + 2)
        }
    } else if s[j] == quote() {
        Some(j + 1)
    } else {
        spec_string_end(s, j + 1)
    }
}

/// The end of a string literal lies past its start and just after a quote.
pub proof fn lemma_string_end_bounds(s: Seq<u8>, j: int)
    ensures
        spec_string_end(s, j) matches Some(e) ==> 0 <= j < e <= s.len() && s[e - 1] == quote(),
    decreases remaining(s, j),
{
    if 0 <= j < s.len() {
        if s[j] == backslash() {
            if j + 1 < s.len() && s[j + 1] == 0x75u8 {
                lemma_string_end_bounds(s, j + 6);
            } else {
                lemma_string_end_bounds(s, j + 2);
            }
        } else if s[j] != quote() {
            lemma_string_end_bounds(s, j + 1);
        }
    }
}

/// Scanning a container (object or array) from index `j` with `depth` of its
/// own bracket kind open: the index just past the bracket that closes the
/// outermost one. String literals are skipped whole; the other bracket kind
/// is not counted.
pub open spec fn spec_container_end(s: Seq<u8>, j: int, depth: int, open: u8, close: u8) -> Option<
    int,
>
    decreases remaining(s, j),
{
    if j < 0 || j >= s.len() {
        None
    } else if s[j] == quote() {
        match spec_string_end(s, j + 1) {
            None => None,
            Some(e) => {
                proof {
                    lemma_string_end_bounds(s, j + 1);
                }
                spec_container_end(s, e, depth, open, close)
            },
        }
    } else if s[j] == open {
        spec_container_end(s, j + 1, depth + 1, open, close)
    } else if s[j] == close {
        if depth - 1 == 0 {
            Some(j + 1)
        } else {
            spec_container_end(s, j + 1, depth - 1, open, close)
        }
    } else {
        spec_container_end(s, j + 1, depth, open, close)
    }
}

/// Whether a container scan from `j` with `depth` open would meet a closing
/// bracket while no bracket of its kind is open (the count would go below
/// zero) before it ends.
pub open spec fn spec_container_underflows(s: Seq<u8>, j: int, depth: int, open: u8, close: u8) -> bool
    decreases remaining(s, j),
{
    if j < 0 || j >= s.len() {
        false
    } else if s[j] == quote() {
        match spec_string_end(s, j + 1) {
            None => false,
            Some(e) => {
                proof {
                    lemma_string_end_bounds(s, j + 1);
                }
                spec_container_underflows(s, e, depth, open, close)
            },
        }
    } else if s[j] == open {
        spec_container_underflows(s, j + 1, depth + 1, open, close)
    } else if s[j] == close {
        if depth == 0 {
            true
        } else if depth - 1 == 0 {
            false
        } else {
            spec_container_underflows(s, j + 1, depth - 1, open, close)
        }
    } else {
        spec_container_underflows(s, j + 1, depth, open, close)
    }
}

/// Bytes that end a scalar (number, `true`, `false`, `null`) at its level.
pub open spec fn is_scalar_stop(b: u8) -> bool {
    b == 0x2Cu8 || b == 0x7Du8 || b == 0x5Du8 || is_ws(b)
}

/// The first index at or after `j` that holds a scalar stop byte, or the end.
pub open spec fn spec_scalar_end(s: Seq<u8>, j: int) -> int
    decreases remaining(s, j),
{
    if 0 <= j < s.len() && !is_scalar_stop(s[j]) {
        spec_scalar_end(s, j + 1)
    } else {
        j
    }
}

/// The index just past the JSON value whose first byte is the first
/// non-whitespace byte at or after `i`, or `None` when there is no such value.
pub open spec fn spec_value_end(s: Seq<u8>, i: int) -> Option<int> {
    let k: int = spec_skip_ws(s, i);
    if k < 0 || k >= s.len() {
        None
    } else if s[k] == quote() {
        spec_string_end(s, k + 1)
    } else if s[k] == 0x7Bu8 {
        spec_container_end(s, k, 0, 0x7Bu8, 0x7Du8)
    } else if s[k] == 0x5Bu8 {
        spec_container_end(s, k, 0, 0x5Bu8, 0x5Du8)
    } else {
        let j: int = spec_scalar_end(s, k);
        if j == k {
            None
        } else {
            Some(j)
        }
    }
}

/// The value of one hexadecimal digit, either case.
pub open spec fn spec_hex_digit(c: u8) -> Option<u32> {
    if 0x30u8 <= c <= 0x39u8 {
        Some((c - 0x30u8) as u32)
    } else if 0x61u8 <= c <= 0x66u8 {
        Some((c - 0x61u8 + 10) as u32)
    } else if 0x41u8 <= c <= 0x46u8 {
        Some((c - 0x41u8 + 10) as u32)
    } else {
        None
    }
}

/// The four hexadecimal digits at `i..i + 4`, read as a number.
pub open spec fn spec_read_hex4(s: Seq<u8>, i: int) -> Option<u32> {
    if 0 <= i && i + 4 <= s.len() {
        match (
            spec_hex_digit(s[i]),
            spec_hex_digit(s[i + 1]),
            spec_hex_digit(s[i + 2]),
            spec_hex_digit(s[i + 3]),
        ) {
            (Some(a), Some(b), Some(c), Some(d)) => Some(
                (a * 4096 + b * 256 + c * 16 + d) as u32,
            ),
            _ => None,
        }
    } else {
        None
    }
}

/// The character that a UTF-16 surrogate pair stands for.
pub open spec fn surrogate_pair(high: u32, low: u32) -> char {
    (0x10000 + (high - 0xD800) * 1024 + (low - 0xDC00)) as char
}

/// Decoding the escape whose backslash is at `i`: the character it stands for
/// and the index just past it, or `None` when it is not a valid escape. A
/// high surrogate `\uD8xx`..`\uDBxx` must be followed by a `\u` low surrogate;
/// a lone low surrogate is refused.
pub open spec fn spec_escape(s: Seq<u8>, i: int) -> Option<(char, int)> {
    let e: int = i + 1;
    if e < 0 || e >= s.len() {
        None
    } else {
        let c: u8 = s[e];
        if c == 0x22u8 {
            Some(('"', e + 1))
        } else if c == 0x5Cu8 {
            Some(('\\', e + 1))
        } else if c == 0x2Fu8 {
            Some(('/', e + 1))
        } else if c == 0x62u8 {
            Some(('\u{0008}', e + 1))
        } else if c == 0x66u8 {
            Some(('\u{000C}', e + 1))
        } else if c == 0x6Eu8 {
            Some(('\n', e + 1))
        } else if c == 0x72u8 {
            Some(('\r', e + 1))
        } else if c == 0x74u8 {
            Some(('\t', e + 1))
        } else if c == 0x75u8 {
            match spec_read_hex4(s, e + 1) {
                None => None,
                Some(cp) => {
                    if 0xD800 <= cp <= 0xDBFF {
                        if e + 6 < s.len() && s[e + 5] == backslash() && s[e + 6] == 0x75u8 {
                            match spec_read_hex4(s, e + 7) {
                                None => None,
                                Some(low) => {
                                    if 0xDC00 <= low <= 0xDFFF {
                                        Some((surrogate_pair(cp, low), e + 11))
                                    } else {
                                        None
                                    }
                                },
                            }
                        } else {
                            None
                        }
                    } else if is_scalar(cp) {
                        Some((cp as char, e + 5))
                    } else {
                        None
                    }
                },
            }
        } else {
            None
        }
    }
}

/// A valid escape ends past its backslash and within the input.
pub proof fn lemma_escape_next(s: Seq<u8>, i: int)
    ensures
        spec_escape(s, i) matches Some((c, n)) ==> i < n <= s.len(),
{
}

/// The length a UTF-8 leading byte announces, or 0 for a byte that cannot
/// lead a sequence.
pub open spec fn spec_utf8_len(b: u8) -> int {
    if b <= 0x7Fu8 {
        1
    } else if 0xC0u8 <= b <= 0xDFu8 {
        2
    } else if 0xE0u8 <= b <= 0xEFu8 {
        3
    } else if 0xF0u8 <= b <= 0xF7u8 {
        4
    } else {
        0
    }
}

/// `Some(prefix + rest)` when `rest` is present, else `None`.
pub open spec fn prefixed(prefix: Seq<char>, rest: Option<Seq<char>>) -> Option<Seq<char>> {
    match rest {
        Some(r) => Some(prefix + r),
        None => None,
    }
}

/// Bytes that a string literal's body may not hold unescaped: the quote and
/// the control bytes below 0x20.
pub open spec fn is_forbidden_raw(b: u8) -> bool {
    b == quote() || b < 0x20u8
}

/// Decoding the body of a string literal from index `i` to its end. Escapes
/// decode as `spec_escape` says. With `strict`, an unescaped quote or control
/// byte makes the body ill-formed; without it such a byte is taken like any
/// other. Other bytes decode one by one as the character with that code
/// (`utf8 == false`), or as UTF-8: each leading byte takes the sequence length
/// it announces, and that sequence must be valid UTF-8 (`utf8 == true`).
pub open spec fn spec_decode_from(s: Seq<u8>, i: int, utf8: bool, strict: bool) -> Option<
    Seq<char>,
>
    decreases remaining(s, i),
{
    if i < 0 || i >= s.len() {
        Some(seq![])
    } else if s[i] == backslash() {
        match spec_escape(s, i) {
            None => None,
            Some((c, n)) => {
                proof {
                    lemma_escape_next(s, i);
                }
                prefixed(seq![c], spec_decode_from(s, n, utf8, strict))
            },
        }
    } else if strict && is_forbidden_raw(s[i]) {
        None
    } else if !utf8 {
        prefixed(seq![s[i] as char], spec_decode_from(s, i + 1, utf8, strict))
    } else {
        let w: int = spec_utf8_len(s[i]);
        if w == 0 || i + w > s.len() {
            None
        } else if !valid_utf8(s.subrange(i, i + w)) {
            None
        } else {
            prefixed(decode_utf8(s.subrange(i, i + w)), spec_decode_from(s, i + w, utf8, strict))
        }
    }
}

/// Whether some byte of `s` lies outside ASCII.
pub open spec fn has_non_ascii(s: Seq<u8>) -> bool {
    exists|k: int| 0 <= k < s.len() && s[k] >= 0x80u8
}

/// The text of the string literal whose raw span is `s[start..end]`, quotes
/// included, or `None` when that span is not a well-formed literal: it must
/// hold two quotes around a body that splits into units, each a valid escape
/// (`\uXXXX` surrogates in pairs) or one UTF-8 encoded character that is
/// neither a quote, a backslash nor a control character. The text is the
/// units' characters in order.
pub open spec fn spec_decode_string(s: Seq<u8>, start: int, end: int) -> Option<Seq<char>> {
    if 0 <= start && start + 2 <= end && end <= s.len() && s[start] == quote() && s[end - 1]
        == quote() {
        spec_decode_from(s.subrange(start + 1, end - 1), 0, true, true)
    } else {
        None
    }
}

} // verus!
