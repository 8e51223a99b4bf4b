//! Properties of the scanner that hold across its functions and inputs.
use vstd::prelude::*;
use vstd::utf8::*;

use crate::spec::{
    backslash, has_non_ascii, is_scalar_stop, lemma_string_end_bounds, quote, remaining,
    spec_container_end, spec_decode_from, spec_decode_string, spec_scalar_end, spec_skip_ws,
    spec_string_end, spec_utf8_len, spec_value_end, is_ws, spec_escape, is_forbidden_raw,
    spec_container_underflows, lemma_escape_next,
};

verus! {

/// Skipping whitespace twice lands where skipping once does: the index it
/// returns never holds whitespace.
pub proof fn law_skip_ws_idempotent(s: Seq<u8>, i: int)
    requires
        0 <= i,
    ensures
        spec_skip_ws(s, spec_skip_ws(s, i)) == spec_skip_ws(s, i),
    decreases remaining(s, i),
{
    if 0 <= i < s.len() && is_ws(s[i]) {
        law_skip_ws_idempotent(s, i + 1);
    }
}

/// A scalar's end lies at or after its start and within the input.
proof fn lemma_scalar_end_bounds(s: Seq<u8>, j: int)
    requires
        0 <= j <= s.len(),
    ensures
        j <= spec_scalar_end(s, j) <= s.len(),
    decreases remaining(s, j),
{
    if 0 <= j < s.len() && !is_scalar_stop(s[j]) {
        lemma_scalar_end_bounds(s, j + 1);
    }
}

/// A container scan ends just past a closing bracket, after its start.
pub proof fn law_container_end_is_close(s: Seq<u8>, j: int, depth: int, open: u8, close: u8)
    ensures
        spec_container_end(s, j, depth, open, close) matches Some(e) ==> 0 <= j < e <= s.len()
            && s[e - 1] == close,
    decreases remaining(s, j),
{
    if 0 <= j < s.len() {
        if s[j] == quote() {
            lemma_string_end_bounds(s, j + 1);
            if let Some(e) = spec_string_end(s, j + 1) {
                law_container_end_is_close(s, e, depth, open, close);
            }
        } else if s[j] == open {
            law_container_end_is_close(s, j + 1, depth + 1, open, close);
        } else if s[j] == close {
            if depth - 1 != 0 {
                law_container_end_is_close(s, j + 1, depth - 1, open, close);
            }
        } else {
            law_container_end_is_close(s, j + 1, depth, open, close);
        }
    }
}

/// A located value is never empty: it ends past its first significant byte
/// and within the input.
pub proof fn law_value_end_bounds(s: Seq<u8>, i: int)
    requires
        0 <= i,
    ensures
        spec_value_end(s, i) matches Some(e) ==> spec_skip_ws(s, i) < e <= s.len(),
{
    let k: int = spec_skip_ws(s, i);
    lemma_skip_ws_from(s, i);
    if 0 <= k < s.len() {
        if s[k] == quote() {
            lemma_string_end_bounds(s, k + 1);
        } else if s[k] == 0x7Bu8 {
            law_container_end_is_close(s, k, 0, 0x7Bu8, 0x7Du8);
        } else if s[k] == 0x5Bu8 {
            law_container_end_is_close(s, k, 0, 0x5Bu8, 0x5Du8);
        } else {
            lemma_scalar_end_bounds(s, k);
        }
    }
}

proof fn lemma_skip_ws_from(s: Seq<u8>, i: int)
    requires
        0 <= i,
    ensures
        i <= spec_skip_ws(s, i),
    decreases remaining(s, i),
{
    if 0 <= i < s.len() && is_ws(s[i]) {
        lemma_skip_ws_from(s, i + 1);
    }
}

/// One ASCII byte is valid UTF-8 and decodes to the character with its code.
proof fn lemma_ascii_byte_utf8(b: u8)
    requires
        b < 0x80u8,
    ensures
        valid_utf8(seq![b]),
        decode_utf8(seq![b]) == seq![b as char],
{
    assert((b & 0x7Fu8) == b) by (bit_vector)
        requires
            b < 0x80u8,
    ;
    let s = seq![b];
    assert(pop_first_scalar(s) =~= Seq::<u8>::empty());
    assert(valid_utf8(Seq::<u8>::empty()));
    assert(valid_first_scalar(s));
    assert(valid_utf8(s));
    assert(decode_utf8(Seq::<u8>::empty()) == Seq::<char>::empty());
    assert(decode_first_scalar(s) == b as u32);
    assert(decode_utf8(s) =~= seq![b as char]);
}

proof fn lemma_passes_agree_on_ascii_from(s: Seq<u8>, i: int)
    requires
        0 <= i,
        !has_non_ascii(s),
    ensures
        spec_decode_from(s, i, true, true) == spec_decode_from(s, i, false, true),
    decreases remaining(s, i),
{
    if i < s.len() {
        if s[i] == backslash() {
            if let Some((c, n)) = spec_escape(s, i) {
                crate::spec::lemma_escape_next(s, i);
                lemma_passes_agree_on_ascii_from(s, n);
            }
        } else {
            assert(s[i] < 0x80u8);
            lemma_ascii_byte_utf8(s[i]);
            assert(s.subrange(i, i + 1) =~= seq![s[i]]);
            assert(spec_utf8_len(s[i]) == 1);
            lemma_passes_agree_on_ascii_from(s, i + 1);
        }
    }
}

/// Escapes, and bytes outside them, decode the same way in both decoding
/// passes whenever the body is ASCII: the strict UTF-8 decoding agrees with the
/// strict byte-by-byte decoding.
pub proof fn law_passes_agree_on_ascii(body: Seq<u8>)
    requires
        !has_non_ascii(body),
    ensures
        spec_decode_from(body, 0, true, true) == spec_decode_from(body, 0, false, true),
{
    lemma_passes_agree_on_ascii_from(body, 0);
}

proof fn lemma_plain_from(s: Seq<u8>, i: int)
    requires
        0 <= i <= s.len(),
        forall|k: int| 0 <= k < s.len() ==> s[k] != backslash() && !is_forbidden_raw(s[k]),
    ensures
        spec_decode_from(s, i, false, true) == Some(s.subrange(i, s.len() as int).map_values(|b: u8| b as char)),
    decreases s.len() - i,
{
    if i < s.len() {
        lemma_plain_from(s, i + 1);
        assert(s.subrange(i, s.len() as int).map_values(|b: u8| b as char) =~= seq![s[i] as char]
            + s.subrange(i + 1, s.len() as int).map_values(|b: u8| b as char));
    } else {
        assert(s.subrange(i, s.len() as int).map_values(|b: u8| b as char) =~= Seq::<char>::empty());
    }
}

/// A string literal whose body is printable ASCII other than quotes and
/// backslashes decodes to exactly the characters of its body.
pub proof fn law_plain_ascii_literal_decodes_to_itself(s: Seq<u8>, start: int, end: int)
    requires
        0 <= start,
        start + 2 <= end <= s.len(),
        s[start] == quote(),
        s[end - 1] == quote(),
        forall|k: int|
            start < k < end - 1 ==> s[k] != backslash() && s[k] != quote() && 0x20u8 <= s[k]
                < 0x80u8,
    ensures
        spec_decode_string(s, start, end) == Some(
            s.subrange(start + 1, end - 1).map_values(|b: u8| b as char),
        ),
{
    let body = s.subrange(start + 1, end - 1);
    assert forall|k: int| 0 <= k < body.len() implies body[k] != backslash() && !is_forbidden_raw(
        body[k],
    ) by {
        assert(body[k] == s[start + 1 + k]);
    }
    lemma_plain_from(body, 0);
    assert(body.subrange(0, body.len() as int) =~= body);
    assert(!has_non_ascii(body)) by {
        assert forall|k: int| 0 <= k < body.len() implies !(body[k] >= 0x80u8) by {
            assert(body[k] == s[start + 1 + k]);
        }
    }
    law_passes_agree_on_ascii(body);
}

/// Valid UTF-8 never decodes to more characters than it has bytes.
proof fn lemma_decode_utf8_len(b: Seq<u8>)
    requires
        valid_utf8(b),
    ensures
        decode_utf8(b).len() <= b.len(),
    decreases b.len(),
{
    if b.len() != 0 {
        let rest = pop_first_scalar(b);
        assert(1 <= length_of_first_scalar(b) <= b.len());
        lemma_decode_utf8_len(rest);
    }
}

proof fn lemma_decoded_len_from(s: Seq<u8>, i: int, utf8: bool, strict: bool)
    requires
        0 <= i <= s.len(),
    ensures
        spec_decode_from(s, i, utf8, strict) matches Some(t) ==> t.len() <= s.len() - i,
    decreases s.len() - i,
{
    if i < s.len() {
        if s[i] == backslash() {
            if let Some((c, n)) = spec_escape(s, i) {
                crate::spec::lemma_escape_next(s, i);
                lemma_decoded_len_from(s, n, utf8, strict);
            }
        } else if !utf8 {
            lemma_decoded_len_from(s, i + 1, utf8, strict);
        } else {
            let w: int = spec_utf8_len(s[i]);
            if w != 0 && i + w <= s.len() && valid_utf8(s.subrange(i, i + w)) {
                lemma_decode_utf8_len(s.subrange(i, i + w));
                lemma_decoded_len_from(s, i + w, utf8, strict);
            }
        }
    }
}

/// Decoding a string literal never yields more characters than the literal's
/// body has bytes.
pub proof fn law_decoded_len_at_most_body(s: Seq<u8>, start: int, end: int)
    ensures
        spec_decode_string(s, start, end) matches Some(t) ==> t.len() <= end - start - 2,
{
    if 0 <= start && start + 2 <= end && end <= s.len() {
        let body = s.subrange(start + 1, end - 1);
        lemma_decoded_len_from(body, 0, true, true);
    }
}

/// An escaped quote does not end a string literal: scanning from a backslash
/// that hides a quote goes on just past that quote, and any end it finds lies
/// beyond it.
pub proof fn law_escaped_quote_does_not_end_string(s: Seq<u8>, j: int)
    requires
        0 <= j,
        j + 1 < s.len(),
        s[j] == backslash(),
        s[j + 1] == quote(),
    ensures
        spec_string_end(s, j) == spec_string_end(s, j + 2),
        spec_string_end(s, j) matches Some(e) ==> j + 2 < e,
{
    lemma_string_end_bounds(s, j + 2);
}

/// Where a string literal ends depends only on the bytes from where its scan
/// starts.
proof fn lemma_string_end_suffix(s: Seq<u8>, t: Seq<u8>, j: int)
    requires
        0 <= j,
        s.len() == t.len(),
        forall|k: int| j <= k < s.len() ==> s[k] == t[k],
    ensures
        spec_string_end(s, j) == spec_string_end(t, j),
    decreases remaining(s, j),
{
    if j < s.len() {
        if s[j] == backslash() {
            if j + 1 < s.len() && s[j + 1] == 0x75u8 {
                lemma_string_end_suffix(s, t, j + 6);
            } else {
                lemma_string_end_suffix(s, t, j + 2);
            }
        } else if s[j] != quote() {
            lemma_string_end_suffix(s, t, j + 1);
        }
    }
}

/// Where a container ends depends only on the bytes from where its scan
/// starts.
proof fn lemma_container_end_suffix(
    s: Seq<u8>,
    t: Seq<u8>,
    j: int,
    depth: int,
    open: u8,
    close: u8,
)
    requires
        0 <= j,
        s.len() == t.len(),
        forall|k: int| j <= k < s.len() ==> s[k] == t[k],
    ensures
        spec_container_end(s, j, depth, open, close) == spec_container_end(t, j, depth, open, close),
    decreases remaining(s, j),
{
    if j < s.len() {
        if s[j] == quote() {
            lemma_string_end_suffix(s, t, j + 1);
            lemma_string_end_bounds(s, j + 1);
            if let Some(e) = spec_string_end(s, j + 1) {
                lemma_container_end_suffix(s, t, e, depth, open, close);
            }
        } else if s[j] == open {
            lemma_container_end_suffix(s, t, j + 1, depth + 1, open, close);
        } else if s[j] == close {
            if depth - 1 != 0 {
                lemma_container_end_suffix(s, t, j + 1, depth - 1, open, close);
            }
        } else {
            lemma_container_end_suffix(s, t, j + 1, depth, open, close);
        }
    }
}

/// Brackets and other structural bytes inside a string literal are never
/// taken for structure: when a container scan meets a string literal, what
/// the literal's body holds makes no difference. Two inputs that agree
/// everywhere but inside the body of a literal opening at `j`, and in which
/// that literal closes at the same index, end the container at the same place.
pub proof fn law_string_bodies_are_not_structure(
    s: Seq<u8>,
    t: Seq<u8>,
    j: int,
    depth: int,
    open: u8,
    close: u8,
)
    requires
        0 <= j < s.len(),
        s.len() == t.len(),
        s[j] == quote(),
        t[j] == quote(),
        spec_string_end(s, j + 1) is Some,
        spec_string_end(s, j + 1) == spec_string_end(t, j + 1),
        forall|k: int|
            0 <= k < s.len() && !(j < k < spec_string_end(s, j + 1)->0 - 1) ==> s[k] == t[k],
    ensures
        spec_container_end(s, j, depth, open, close) == spec_container_end(t, j, depth, open, close),
{
    let e: int = spec_string_end(s, j + 1)->0;
    lemma_string_end_bounds(s, j + 1);
    lemma_container_end_suffix(s, t, e, depth, open, close);
}

/// A scan of a container that has a bracket of its kind open never meets a
/// closing bracket with none open.
proof fn lemma_open_container_never_underflows(
    s: Seq<u8>,
    j: int,
    depth: int,
    open: u8,
    close: u8,
)
    requires
        depth >= 1,
    ensures
        !spec_container_underflows(s, j, depth, open, close),
    decreases remaining(s, j),
{
    if 0 <= j < s.len() {
        if s[j] == quote() {
            lemma_string_end_bounds(s, j + 1);
            if let Some(e) = spec_string_end(s, j + 1) {
                lemma_open_container_never_underflows(s, e, depth, open, close);
            }
        } else if s[j] == open {
            lemma_open_container_never_underflows(s, j + 1, depth + 1, open, close);
        } else if s[j] == close {
            if depth - 1 != 0 {
                lemma_open_container_never_underflows(s, j + 1, depth - 1, open, close);
            }
        } else {
            lemma_open_container_never_underflows(s, j + 1, depth, open, close);
        }
    }
}

/// A container scan that starts on its own opening bracket (other than a
/// quote) never meets a closing bracket with none open.
pub proof fn law_container_from_open_never_underflows(s: Seq<u8>, j: int, open: u8, close: u8)
    requires
        0 <= j < s.len(),
        s[j] == open,
        open != quote(),
    ensures
        !spec_container_underflows(s, j, 0, open, close),
{
    lemma_open_container_never_underflows(s, j + 1, 1, open, close);
}

/// Bytes at or above 0x80 pass the byte-by-byte decoding one at a time.
proof fn lemma_bytewise_over_high_bytes(s: Seq<u8>, j: int, m: int)
    requires
        0 <= j <= m <= s.len(),
        forall|k: int| j <= k < m ==> s[k] >= 0x80u8,
    ensures
        spec_decode_from(s, m, false, true) is Some ==> spec_decode_from(s, j, false, true) is Some,
    decreases m - j,
{
    if j < m {
        lemma_bytewise_over_high_bytes(s, j + 1, m);
    }
}

/// A valid UTF-8 sequence of the length its leading byte announces holds
/// only continuation bytes after that leading byte.
proof fn lemma_chunk_continuations(s: Seq<u8>, i: int, w: int)
    requires
        0 <= i,
        i + w <= s.len(),
        w == spec_utf8_len(s[i]),
        w >= 1,
        valid_utf8(s.subrange(i, i + w)),
    ensures
        forall|k: int| i < k < i + w ==> 0x80u8 <= #[trigger] s[k] <= 0xBFu8,
{
    let c = s.subrange(i, i + w);
    assert(valid_first_scalar(c));
    assert(c[0] == s[i]);
    assert forall|k: int| i < k < i + w implies 0x80u8 <= #[trigger] s[k] <= 0xBFu8 by {
        assert(c[k - i] == s[k]);
    }
}

proof fn lemma_utf8_passes_bytewise_from(s: Seq<u8>, i: int)
    requires
        0 <= i,
    ensures
        spec_decode_from(s, i, true, true) is Some ==> spec_decode_from(s, i, false, true) is Some,
    decreases remaining(s, i),
{
    if i < s.len() {
        if s[i] == backslash() {
            if let Some((c, n)) = spec_escape(s, i) {
                lemma_escape_next(s, i);
                lemma_utf8_passes_bytewise_from(s, n);
            }
        } else if !is_forbidden_raw(s[i]) {
            let w: int = spec_utf8_len(s[i]);
            if w != 0 && i + w <= s.len() && valid_utf8(s.subrange(i, i + w)) {
                lemma_chunk_continuations(s, i, w);
                lemma_utf8_passes_bytewise_from(s, i + w);
                lemma_bytewise_over_high_bytes(s, i + 1, i + w);
            }
        }
    }
}

/// Whatever the strict UTF-8 decoding (the meaning of a well-formed body)
/// accepts, the strict byte-by-byte decoding accepts too: it never refuses a
/// well-formed body.
pub proof fn law_utf8_decoding_passes_bytewise(body: Seq<u8>)
    ensures
        spec_decode_from(body, 0, true, true) is Some ==> spec_decode_from(body, 0, false, true) is Some,
{
    lemma_utf8_passes_bytewise_from(body, 0);
}

/// Over bytes that are neither backslashes nor quotes, a string scan moves
/// one byte at a time.
proof fn lemma_string_end_over_plain(s: Seq<u8>, j: int, m: int)
    requires
        0 <= j <= m < s.len(),
        forall|k: int| j <= k < m ==> #[trigger] s[k] != backslash() && s[k] != quote(),
    ensures
        spec_string_end(s, j) == spec_string_end(s, m),
    decreases m - j,
{
    if j < m {
        lemma_string_end_over_plain(s, j + 1, m);
    }
}

proof fn lemma_decoded_body_scans_to_close(s: Seq<u8>, a: int, b: int, p: int)
    requires
        0 <= a <= b < s.len(),
        s[b] == quote(),
        0 <= p <= b - a,
        spec_decode_from(s.subrange(a, b), p, true, true) is Some,
    ensures
        spec_string_end(s, a + p) == Some(b + 1),
    decreases b - a - p,
{
    let body = s.subrange(a, b);
    if p < b - a {
        assert(body[p] == s[a + p]);
        if body[p] == backslash() {
            let (c, n) = spec_escape(body, p)->0;
            lemma_escape_next(body, p);
            lemma_decoded_body_scans_to_close(s, a, b, n);
            assert(body[p + 1] == s[a + p + 1]);
            if body[p + 1] == 0x75u8 {
                if n == p + 12 {
                    assert(body[p + 6] == s[a + p + 6]);
                    assert(body[p + 7] == s[a + p + 7]);
                    assert(spec_string_end(s, a + p + 6) == spec_string_end(s, a + p + 12));
                }
            }
        } else {
            let w: int = spec_utf8_len(body[p]);
            lemma_chunk_continuations(body, p, w);
            lemma_decoded_body_scans_to_close(s, a, b, p + w);
            assert forall|k: int| a + p <= k < a + p + w implies #[trigger] s[k] != backslash()
                && s[k] != quote() by {
                assert(body[k - a] == s[k]);
            }
            lemma_string_end_over_plain(s, a + p, a + p + w);
        }
    }
}

/// A span that decodes is exactly one string literal: scanning the string
/// that opens at its first byte ends just at its last byte.
pub proof fn law_decoded_span_is_one_literal(s: Seq<u8>, start: int, end: int)
    ensures
        spec_decode_string(s, start, end) is Some ==> spec_string_end(s, start + 1) == Some(end),
{
    if spec_decode_string(s, start, end) is Some {
        lemma_decoded_body_scans_to_close(s, start + 1, end - 1, 0);
    }
}

/// Decoding reads only the span's own bytes: any input that holds the same
/// bytes there gives the same result, and so does the span taken alone.
pub proof fn law_decode_reads_only_its_span(s: Seq<u8>, t: Seq<u8>, start: int, end: int)
    requires
        0 <= start <= end <= s.len(),
        end <= t.len(),
        forall|k: int| start <= k < end ==> s[k] == t[k],
    ensures
        spec_decode_string(t, start, end) == spec_decode_string(s, start, end),
        spec_decode_string(s.subrange(start, end), 0, end - start) == spec_decode_string(
            s,
            start,
            end,
        ),
{
    if start + 2 <= end {
        assert(s.subrange(start + 1, end - 1) =~= t.subrange(start + 1, end - 1));
        let u = s.subrange(start, end);
        assert(u.subrange(1, end - start - 1) =~= s.subrange(start + 1, end - 1));
        assert(u[0] == s[start]);
        assert(u[end - start - 1] == s[end - 1]);
    }
}

/// Bytes after a string literal's closing quote are never read: appending
/// bytes keeps the end that was found.
pub proof fn law_string_end_ignores_what_follows(s: Seq<u8>, t: Seq<u8>, j: int)
    requires
        0 <= j,
        spec_string_end(s, j) is Some,
    ensures
        spec_string_end(s + t, j) == spec_string_end(s, j),
    decreases remaining(s, j),
{
    let u = s + t;
    assert(u[j] == s[j]);
    if s[j] == backslash() {
        if j + 1 < s.len() {
            assert(u[j + 1] == s[j + 1]);
        }
        if j + 1 < s.len() && s[j + 1] == 0x75u8 {
            law_string_end_ignores_what_follows(s, t, j + 6);
        } else {
            law_string_end_ignores_what_follows(s, t, j + 2);
        }
    } else if s[j] != quote() {
        law_string_end_ignores_what_follows(s, t, j + 1);
    }
}

/// Bytes before a string literal are never read: prepending bytes moves the
/// end that is found by just as many bytes.
pub proof fn law_string_end_ignores_what_precedes(p: Seq<u8>, s: Seq<u8>, j: int)
    requires
        0 <= j,
    ensures
        spec_string_end(p + s, p.len() + j) == match spec_string_end(s, j) {
            Some(e) => Some(p.len() + e),
            None => None,
        },
    decreases remaining(s, j),
{
    let u = p + s;
    if j < s.len() {
        assert(u[p.len() + j] == s[j]);
        if j + 1 < s.len() {
            assert(u[p.len() + j + 1] == s[j + 1]);
        }
        if s[j] == backslash() {
            if j + 1 < s.len() && s[j + 1] == 0x75u8 {
                law_string_end_ignores_what_precedes(p, s, j + 6);
            } else {
                law_string_end_ignores_what_precedes(p, s, j + 2);
            }
        } else if s[j] != quote() {
            law_string_end_ignores_what_precedes(p, s, j + 1);
        }
    }
}

/// Bytes after a container's closing bracket are never read.
proof fn lemma_container_end_append(
    s: Seq<u8>,
    t: Seq<u8>,
    j: int,
    depth: int,
    open: u8,
    close: u8,
)
    requires
        0 <= j,
        spec_container_end(s, j, depth, open, close) is Some,
    ensures
        spec_container_end(s + t, j, depth, open, close) == spec_container_end(
            s,
            j,
            depth,
            open,
            close,
        ),
    decreases remaining(s, j),
{
    let u = s + t;
    assert(u[j] == s[j]);
    if s[j] == quote() {
        lemma_string_end_bounds(s, j + 1);
        law_string_end_ignores_what_follows(s, t, j + 1);
        let e: int = spec_string_end(s, j + 1)->0;
        lemma_container_end_append(s, t, e, depth, open, close);
    } else if s[j] == open {
        lemma_container_end_append(s, t, j + 1, depth + 1, open, close);
    } else if s[j] == close {
        if depth - 1 != 0 {
            lemma_container_end_append(s, t, j + 1, depth - 1, open, close);
        }
    } else {
        lemma_container_end_append(s, t, j + 1, depth, open, close);
    }
}

proof fn lemma_scalar_end_append(s: Seq<u8>, t: Seq<u8>, j: int)
    requires
        0 <= j,
        spec_scalar_end(s, j) < s.len(),
    ensures
        spec_scalar_end(s + t, j) == spec_scalar_end(s, j),
    decreases remaining(s, j),
{
    let u = s + t;
    if j < s.len() {
        assert(u[j] == s[j]);
        if !is_scalar_stop(s[j]) {
            lemma_scalar_end_append(s, t, j + 1);
        }
    }
}

proof fn lemma_skip_ws_append(s: Seq<u8>, t: Seq<u8>, i: int)
    requires
        0 <= i,
        spec_skip_ws(s, i) < s.len(),
    ensures
        spec_skip_ws(s + t, i) == spec_skip_ws(s, i),
    decreases remaining(s, i),
{
    let u = s + t;
    if i < s.len() {
        assert(u[i] == s[i]);
        if is_ws(s[i]) {
            lemma_skip_ws_append(s, t, i + 1);
        }
    }
}

/// Bytes after a located value are never read: appending bytes keeps the end
/// that was found, unless a scalar ran up to the end of the input (where more
/// bytes would extend it).
pub proof fn law_value_end_ignores_what_follows(s: Seq<u8>, t: Seq<u8>, i: int)
    requires
        0 <= i,
        spec_value_end(s, i) is Some,
        spec_value_end(s, i)->0 < s.len() || s[spec_skip_ws(s, i)] == quote() || s[spec_skip_ws(
            s,
            i,
        )] == 0x7Bu8 || s[spec_skip_ws(s, i)] == 0x5Bu8,
    ensures
        spec_value_end(s + t, i) == spec_value_end(s, i),
{
    let k: int = spec_skip_ws(s, i);
    lemma_skip_ws_from(s, i);
    lemma_skip_ws_append(s, t, i);
    let u = s + t;
    assert(u[k] == s[k]);
    if s[k] == quote() {
        law_string_end_ignores_what_follows(s, t, k + 1);
    } else if s[k] == 0x7Bu8 {
        lemma_container_end_append(s, t, k, 0, 0x7Bu8, 0x7Du8);
    } else if s[k] == 0x5Bu8 {
        lemma_container_end_append(s, t, k, 0, 0x5Bu8, 0x5Du8);
    } else {
        lemma_scalar_end_append(s, t, k);
    }
}

/// The length that a character's leading UTF-8 byte announces is the length
/// of that character's UTF-8 encoding.
pub proof fn law_utf8_len_is_encoded_length(c: char)
    ensures
        spec_utf8_len(encode_scalar(c as u32)[0]) == encode_scalar(c as u32).len(),
{
    let v: u32 = c as u32;
    char_is_scalar(c);
    if has_width_1_encoding(v) {
        assert((v & 0x7F) as u8 <= 0x7Fu8) by (bit_vector);
    } else if has_width_2_encoding(v) {
        assert(0xC0u8 <= (0xC0u8 | ((v >> 6) & 0x1F) as u8) <= 0xDFu8) by (bit_vector);
    } else if has_width_3_encoding(v) {
        assert(0xE0u8 <= (0xE0u8 | ((v >> 12) & 0x0F) as u8) <= 0xEFu8) by (bit_vector);
    } else {
        assert(0xF0u8 <= (0xF0u8 | ((v >> 18) & 0x7) as u8) <= 0xF7u8) by (bit_vector);
    }
}

/// Over bytes that are neither backslashes nor barred raw bytes, the strict
/// byte-by-byte decoding moves one byte at a time.
proof fn lemma_bytewise_over_plain(s: Seq<u8>, j: int, m: int)
    requires
        0 <= j <= m <= s.len(),
        forall|k: int| j <= k < m ==> #[trigger] s[k] != backslash() && !is_forbidden_raw(s[k]),
    ensures
        spec_decode_from(s, j, false, true) is Some <==> spec_decode_from(s, m, false, true) is Some,
    decreases m - j,
{
    if j < m {
        lemma_bytewise_over_plain(s, j + 1, m);
    }
}

proof fn lemma_checked_body_alike_from(s: Seq<u8>, i: int)
    requires
        0 <= i,
        spec_decode_from(s, i, false, true) is Some,
    ensures
        spec_decode_from(s, i, true, true) == spec_decode_from(s, i, true, false),
    decreases remaining(s, i),
{
    if i < s.len() {
        if s[i] == backslash() {
            if let Some((c, n)) = spec_escape(s, i) {
                lemma_escape_next(s, i);
                lemma_checked_body_alike_from(s, n);
            }
        } else {
            let w: int = spec_utf8_len(s[i]);
            if w != 0 && i + w <= s.len() && valid_utf8(s.subrange(i, i + w)) {
                lemma_chunk_continuations(s, i, w);
                assert forall|k: int| i <= k < i + w implies #[trigger] s[k] != backslash()
                    && !is_forbidden_raw(s[k]) by {
                    if k > i {
                        assert(0x80u8 <= s[k]);
                    }
                }
                lemma_bytewise_over_plain(s, i, i + w);
                lemma_checked_body_alike_from(s, i + w);
            }
        }
    }
}

/// Once the byte-by-byte decoding has accepted a body, so that it holds no
/// unescaped quote or control byte, decoding it as UTF-8 gives the same
/// result whether or not such bytes are barred.
pub proof fn law_checked_body_decodes_alike_in_both_utf8_modes(body: Seq<u8>)
    ensures
        spec_decode_from(body, 0, false, true) is Some ==> spec_decode_from(body, 0, true, true)
            == spec_decode_from(body, 0, true, false),
{
    if spec_decode_from(body, 0, false, true) is Some {
        lemma_checked_body_alike_from(body, 0);
    }
}

} // verus!
