use mcp_bastion::json_scan::{
    decode_string, decode_string_utf8, read_hex4, scan_container, scan_string, scan_value_end,
    skip_ws, utf8_len, StructureReport, ValueKind, ValueSpan,
};

fn decode_all(s: &[u8]) -> Option<String> {
    decode_string(s, 0, s.len())
}

#[test]
fn skip_ws_stops_at_first_significant_byte() {
    let b: &[u8] = b" \t\r\nx ";
    assert_eq!(skip_ws(b, 0), 4);
    assert_eq!(skip_ws(b, 4), 4);
    assert_eq!(skip_ws(b, 5), 6);
}

#[test]
fn skip_ws_past_the_end_returns_the_index() {
    let b: &[u8] = b"ab";
    assert_eq!(skip_ws(b, 2), 2);
    assert_eq!(skip_ws(b, 7), 7);
    assert_eq!(skip_ws(b"", 0), 0);
}

#[test]
fn skip_ws_is_idempotent_on_example() {
    let b: &[u8] = b"  \n {\"a\":1}";
    let once: usize = skip_ws(b, 0);
    assert_eq!(skip_ws(b, once), once);
    assert_eq!(once, 4);
}

#[test]
fn scan_string_plain() {
    let b: &[u8] = b"\"abc\",";
    assert_eq!(scan_string(b, 0), Some(5));
}

#[test]
fn scan_string_escaped_quote_does_not_end_it() {
    let b: &[u8] = b"\"a\\\"b\" rest";
    assert_eq!(scan_string(b, 0), Some(6));
}

#[test]
fn scan_string_escaped_backslash_then_quote_ends_it() {
    let b: &[u8] = b"\"a\\\\\"x";
    assert_eq!(scan_string(b, 0), Some(5));
}

#[test]
fn scan_string_skips_unicode_escape_units() {
    // \u0022 is skipped whole, so the quote hidden in its digits region is not an end.
    let b: &[u8] = b"\"\\u0022x\"";
    assert_eq!(scan_string(b, 0), Some(9));
    let c: &[u8] = b"\"\\u\"abc\"";
    assert_eq!(scan_string(c, 0), Some(8));
}

#[test]
fn scan_string_unterminated() {
    assert_eq!(scan_string(b"\"abc", 0), None);
    assert_eq!(scan_string(b"\"ab\\", 0), None);
    assert_eq!(scan_string(b"\"ab\\\"", 0), None);
    assert_eq!(scan_string(b"\"\\u12\"", 0), None);
    assert_eq!(scan_string(b"\"", 0), None);
}

#[test]
fn scan_string_from_inner_offset() {
    let b: &[u8] = b"{\"k\":\"v\"}";
    assert_eq!(scan_string(b, 1), Some(4));
    assert_eq!(scan_string(b, 5), Some(8));
}

#[test]
fn scan_container_braces_inside_strings_are_not_structure() {
    let b: &[u8] = b"{\"a\":\"}\"} tail";
    assert_eq!(scan_container(b, 0, b'{', b'}'), Some(9));
    let c: &[u8] = b"{\"a\":\"{{\",\"b\":\"\\\"}\"}";
    assert_eq!(scan_container(c, 0, b'{', b'}'), Some(c.len()));
}

#[test]
fn scan_container_nested() {
    let b: &[u8] = b"{\"a\":[1,{\"b\":2}],\"c\":{}},";
    assert_eq!(scan_container(b, 0, b'{', b'}'), Some(b.len() - 1));
    let a: &[u8] = b"[1,[2,[3]],4]]";
    assert_eq!(scan_container(a, 0, b'[', b']'), Some(13));
    assert_eq!(scan_container(a, 3, b'[', b']'), Some(10));
}

#[test]
fn scan_container_counts_only_its_own_bracket_kind() {
    let b: &[u8] = b"{]}";
    assert_eq!(scan_container(b, 0, b'{', b'}'), Some(3));
    let a: &[u8] = b"[}]";
    assert_eq!(scan_container(a, 0, b'[', b']'), Some(3));
}

#[test]
fn scan_container_unterminated() {
    assert_eq!(scan_container(b"{\"a\":1", 0, b'{', b'}'), None);
    assert_eq!(scan_container(b"{\"a\":\"}", 0, b'{', b'}'), None);
    assert_eq!(scan_container(b"[[1]", 0, b'[', b']'), None);
}

#[test]
fn scan_value_end_scalars() {
    assert_eq!(scan_value_end(b"  123, 4", 0), Some(5));
    assert_eq!(scan_value_end(b"true}", 0), Some(4));
    assert_eq!(scan_value_end(b"null", 0), Some(4));
    assert_eq!(scan_value_end(b"-1.5e3]", 0), Some(6));
    assert_eq!(scan_value_end(b"x\ty", 0), Some(1));
}

#[test]
fn scan_value_end_empty_scalar_is_none() {
    assert_eq!(scan_value_end(b",", 0), None);
    assert_eq!(scan_value_end(b"  }", 0), None);
    assert_eq!(scan_value_end(b"]", 0), None);
    assert_eq!(scan_value_end(b"   ", 0), None);
    assert_eq!(scan_value_end(b"", 0), None);
    assert_eq!(scan_value_end(b"1", 5), None);
}

#[test]
fn scan_value_end_strings_objects_arrays() {
    let b: &[u8] = b"{\"id\": \"a,b\", \"p\": {\"x\":[1,2]}, \"q\": [\"]\"]}";
    assert_eq!(scan_value_end(b, 6), Some(12));
    assert_eq!(scan_value_end(b, 18), Some(30));
    assert_eq!(scan_value_end(b, 36), Some(b.len() - 1));
    assert_eq!(scan_value_end(b, 0), Some(b.len()));
}

#[test]
fn scan_value_end_truncated() {
    assert_eq!(scan_value_end(b" \"abc", 0), None);
    assert_eq!(scan_value_end(b"{\"a\":[1,2", 0), None);
    // Only braces are counted inside an object, so a missing `]` goes unnoticed.
    assert_eq!(scan_value_end(b"{\"a\":[1,2}", 0), Some(10));
    assert_eq!(scan_value_end(b"[1,2", 0), None);
}

#[test]
fn scan_value_end_never_empty_and_within_input() {
    let samples: [&[u8]; 6] = [b" 1", b"\"\"", b"{}", b"[]", b" \"x\" ", b"\t{\"a\":\"]\"}"];
    for s in samples.iter() {
        let start: usize = skip_ws(s, 0);
        let end: usize = scan_value_end(s, 0).unwrap();
        assert!(start < end && end <= s.len());
    }
}

#[test]
fn read_hex4_values() {
    assert_eq!(read_hex4(b"00e9", 0), Some(0xe9));
    assert_eq!(read_hex4(b"ABCD", 0), Some(0xABCD));
    assert_eq!(read_hex4(b"xxfFfF", 2), Some(0xFFFF));
    assert_eq!(read_hex4(b"0123", 0), Some(0x0123));
}

#[test]
fn read_hex4_rejects() {
    assert_eq!(read_hex4(b"12g4", 0), None);
    assert_eq!(read_hex4(b"123", 0), None);
    assert_eq!(read_hex4(b"1234", 1), None);
    assert_eq!(read_hex4(b"1234", 9), None);
    assert_eq!(read_hex4(b"-123", 0), None);
}

#[test]
fn utf8_len_by_leading_byte() {
    assert_eq!(utf8_len(0x41), 1);
    assert_eq!(utf8_len(0x00), 1);
    assert_eq!(utf8_len(0x7F), 1);
    assert_eq!(utf8_len(0x80), 0);
    assert_eq!(utf8_len(0xBF), 0);
    assert_eq!(utf8_len(0xC0), 2);
    assert_eq!(utf8_len(0xC3), 2);
    assert_eq!(utf8_len(0xE2), 3);
    assert_eq!(utf8_len(0xF0), 4);
    assert_eq!(utf8_len(0xF7), 4);
    assert_eq!(utf8_len(0xF8), 0);
    assert_eq!(utf8_len(0xFF), 0);
}

#[test]
fn decode_plain_string() {
    assert_eq!(decode_all(b"\"hello\""), Some("hello".to_string()));
    assert_eq!(decode_all(b"\"\""), Some(String::new()));
    assert_eq!(decode_all(b"\"tools/call\""), Some("tools/call".to_string()));
}

#[test]
fn decode_inside_larger_message() {
    let b: &[u8] = b"{\"method\":\"tools/call\"}";
    assert_eq!(decode_string(b, 10, 22), Some("tools/call".to_string()));
    assert_eq!(decode_string(b, 1, 9), Some("method".to_string()));
}

#[test]
fn decode_standard_escapes() {
    assert_eq!(
        decode_all(b"\"a\\\"b\\\\c\\/d\\be\\ff\\ng\\rh\\ti\""),
        Some("a\"b\\c/d\u{0008}e\u{000C}f\ng\rh\ti".to_string())
    );
}

#[test]
fn decode_unicode_escape() {
    assert_eq!(decode_all(b"\"caf\\u00e9\""), Some("caf\u{e9}".to_string()));
    assert_eq!(decode_all(b"\"\\u0041\\u00C9\""), Some("A\u{c9}".to_string()));
    assert_eq!(decode_all(b"\"\\u20AC\""), Some("\u{20ac}".to_string()));
    assert_eq!(decode_all(b"\"\\u0000\""), Some("\u{0}".to_string()));
}

#[test]
fn decode_surrogate_pair() {
    assert_eq!(decode_all(b"\"\\uD83D\\uDE00\""), Some("\u{1F600}".to_string()));
    assert_eq!(decode_all(b"\"x\\ud834\\udd1ey\""), Some("x\u{1D11E}y".to_string()));
    assert_eq!(decode_all(b"\"\\uDBFF\\uDFFF\""), Some("\u{10FFFF}".to_string()));
}

#[test]
fn decode_rejects_bad_surrogates() {
    // lone high surrogate
    assert_eq!(decode_all(b"\"\\uD83D\""), None);
    assert_eq!(decode_all(b"\"\\uD83Dabcdef\""), None);
    // high surrogate followed by a non-low one
    assert_eq!(decode_all(b"\"\\uD83D\\u0041\""), None);
    // lone low surrogate
    assert_eq!(decode_all(b"\"\\uDE00\""), None);
    // truncated second unit
    assert_eq!(decode_all(b"\"\\uD83D\\uDE0\""), None);
}

#[test]
fn decode_rejects_bad_escapes() {
    assert_eq!(decode_all(b"\"\\x\""), None);
    assert_eq!(decode_all(b"\"\\u12\""), None);
    assert_eq!(decode_all(b"\"\\u12G4\""), None);
    assert_eq!(decode_all(b"\"abc\\\""), None);
}

#[test]
fn decode_rejects_bad_spans() {
    let b: &[u8] = b"\"abc\"";
    assert_eq!(decode_string(b, 2, 2), None);
    assert_eq!(decode_string(b, 3, 1), None);
    assert_eq!(decode_string(b, 0, 6), None);
    assert_eq!(decode_string(b, 1, 5), None);
    assert_eq!(decode_string(b, 0, 4), None);
    assert_eq!(decode_string(b, 7, 9), None);
    assert_eq!(decode_string(b"abc", 0, 3), None);
}

#[test]
fn decode_raw_utf8() {
    let s: &str = "\"caf\u{e9} \u{20ac} \u{1F600}\"";
    assert_eq!(decode_all(s.as_bytes()), Some("caf\u{e9} \u{20ac} \u{1F600}".to_string()));
}

#[test]
fn decode_raw_utf8_with_escapes() {
    let s: &str = "\"\u{e9}\\n\\u00e9\\uD83D\\uDE00\u{4e2d}\"";
    assert_eq!(decode_all(s.as_bytes()), Some("\u{e9}\n\u{e9}\u{1F600}\u{4e2d}".to_string()));
}

#[test]
fn decode_rejects_invalid_utf8() {
    // continuation byte without a leader
    assert_eq!(decode_all(b"\"a\x80b\""), None);
    // invalid leading bytes
    assert_eq!(decode_all(b"\"\xFF\""), None);
    assert_eq!(decode_all(b"\"\xF8\x80\x80\x80\""), None);
    // overlong encodings
    assert_eq!(decode_all(b"\"\xC0\xAF\""), None);
    assert_eq!(decode_all(b"\"\xE0\x80\xAF\""), None);
    // encoded surrogate
    assert_eq!(decode_all(b"\"\xED\xA0\x80\""), None);
    // beyond U+10FFFF
    assert_eq!(decode_all(b"\"\xF4\x90\x80\x80\""), None);
    assert_eq!(decode_all(b"\"\xF5\x80\x80\x80\""), None);
    // truncated sequence
    assert_eq!(decode_all(b"\"\xE2\x82\""), None);
    // leader followed by ASCII
    assert_eq!(decode_all(b"\"\xC3A\""), None);
}

#[test]
fn decode_non_ascii_with_invalid_escape_is_none() {
    let s: &str = "\"\u{e9}\\q\"";
    assert_eq!(decode_all(s.as_bytes()), None);
}

#[test]
fn decode_utf8_pass_directly() {
    assert_eq!(decode_string_utf8(b"a\\tb"), Some("a\tb".to_string()));
    assert_eq!(decode_string_utf8("\u{e9}x".as_bytes()), Some("\u{e9}x".to_string()));
    assert_eq!(decode_string_utf8(b""), Some(String::new()));
    assert_eq!(decode_string_utf8(b"\xC3"), None);
    assert_eq!(decode_string_utf8(b"\\"), None);
    assert_eq!(decode_string_utf8(b"\\uDE00"), None);
}

#[test]
fn utf8_pass_agrees_with_decode_on_ascii() {
    let bodies: [&[u8]; 4] = [b"abc", b"a\\nb", b"\\u0041\\uD83D\\uDE00", b"\\x"];
    for body in bodies.iter() {
        let mut lit: Vec<u8> = vec![b'"'];
        lit.extend_from_slice(body);
        lit.push(b'"');
        assert_eq!(decode_string_utf8(body), decode_string(&lit, 0, lit.len()));
    }
}

#[test]
fn plain_ascii_literal_decodes_to_itself() {
    let b: &[u8] = b"\"{name: [x], y/z}\"";
    assert_eq!(decode_all(b), Some("{name: [x], y/z}".to_string()));
}

#[test]
fn decoded_text_is_no_longer_than_body() {
    let samples: [&[u8]; 4] = [b"\"\\uD83D\\uDE00\"", b"\"abc\"", b"\"\\n\"", "\"\u{1F600}\"".as_bytes()];
    for s in samples.iter() {
        let t: String = decode_all(s).unwrap();
        assert!(t.chars().count() <= s.len() - 2);
    }
}

#[test]
fn scanned_string_span_decodes() {
    let b: &[u8] = b"{\"name\": \"read_\\u0066ile\"}";
    let start: usize = skip_ws(b, 8);
    let end: usize = scan_value_end(b, 8).unwrap();
    assert_eq!(scan_string(b, start), Some(end));
    assert_eq!(decode_string(b, start, end), Some("read_file".to_string()));
}

#[test]
fn value_types_compare_by_fields() {
    let a: ValueSpan = ValueSpan { kind: ValueKind::String, start: 3, end: 9 };
    let b: ValueSpan = a;
    assert_eq!(a, b);
    assert_ne!(a, ValueSpan { kind: ValueKind::Object, start: 3, end: 9 });
    let r: StructureReport = StructureReport { balanced: true, max_depth: 2 };
    assert_eq!(r, StructureReport { balanced: true, max_depth: 2 });
    assert_ne!(ValueKind::Array, ValueKind::Scalar);
}

#[test]
fn string_bodies_do_not_change_container_end() {
    let a: &[u8] = b"{\"k\":\"}]{[\",\"z\":1} x";
    let b: &[u8] = b"{\"k\":\"abcd\",\"z\":1} x";
    assert_eq!(scan_container(a, 0, b'{', b'}'), Some(18));
    assert_eq!(scan_container(b, 0, b'{', b'}'), Some(18));
    assert_eq!(scan_value_end(a, 0), scan_value_end(b, 0));
}

#[test]
fn escaped_quote_in_container_is_not_structure() {
    let a: &[u8] = b"[\"a\\\"]\",2]";
    assert_eq!(scan_container(a, 0, b'[', b']'), Some(a.len()));
}

#[test]
fn decode_rejects_raw_quote_in_body() {
    assert_eq!(decode_all(b"\"a\"b\""), None);
    assert_eq!(decode_string(b"\"a\"b\"", 0, 3), Some("a".to_string()));
    let s: &str = "\"\u{e9}\"x\"";
    assert_eq!(decode_all(s.as_bytes()), None);
}

#[test]
fn decode_rejects_raw_control_bytes() {
    assert_eq!(decode_all(b"\"a\nb\""), None);
    assert_eq!(decode_all(b"\"tab\there\""), None);
    assert_eq!(decode_all(b"\"\x00\""), None);
    assert_eq!(decode_all(b"\"\x1f\""), None);
    let s: &str = "\"\u{e9}\u{1}\"";
    assert_eq!(decode_all(s.as_bytes()), None);
    // escaped forms of the same characters are fine
    assert_eq!(decode_all(b"\"a\\nb\\u001f\""), Some("a\nb\u{1f}".to_string()));
    assert_eq!(decode_all(b"\"\x7f\""), Some("\u{7f}".to_string()));
}

#[test]
fn decode_lone_quote_span_is_none() {
    assert_eq!(decode_string(b"\"", 0, 1), None);
    assert_eq!(decode_string(b"x\"y", 1, 2), None);
}

#[test]
fn decoded_span_is_one_scanned_literal() {
    let b: &[u8] = b"[\"a\\\"b\\u00e9\", \"c\"]";
    let end: usize = scan_string(b, 1).unwrap();
    assert_eq!(end, 13);
    assert!(decode_string(b, 1, end).is_some());
    assert_eq!(decode_string(b, 1, 18), None);
}

#[test]
fn decode_reads_only_its_span() {
    let a: &[u8] = b"xx\"hi\\u0041\"yy";
    let b: &[u8] = b"{[\"hi\\u0041\"";
    assert_eq!(decode_string(a, 2, 12), Some("hiA".to_string()));
    assert_eq!(decode_string(b, 2, 12), decode_string(a, 2, 12));
    assert_eq!(decode_string(&a[2..12], 0, 10), decode_string(a, 2, 12));
}

#[test]
fn scan_string_ignores_bytes_around_the_literal() {
    let lit: &[u8] = b"\"a\\\"b\"";
    let mut longer: Vec<u8> = b"{{{".to_vec();
    longer.extend_from_slice(lit);
    longer.extend_from_slice(b"\"\"tail");
    assert_eq!(scan_string(lit, 0), Some(6));
    assert_eq!(scan_string(&longer, 3), Some(9));
}

#[test]
fn scan_value_end_ignores_bytes_after_the_value() {
    let v: &[u8] = b" {\"a\":[1,\"]\"]}";
    let mut longer: Vec<u8> = v.to_vec();
    longer.extend_from_slice(b"}]\"");
    assert_eq!(scan_value_end(v, 0), Some(v.len()));
    assert_eq!(scan_value_end(&longer, 0), Some(v.len()));
    // a scalar that runs to the end of the input grows with what follows
    assert_eq!(scan_value_end(b"12", 0), Some(2));
    assert_eq!(scan_value_end(b"123,", 0), Some(3));
}

#[test]
fn utf8_len_matches_encoded_length() {
    let chars: [char; 8] = ['a', '\u{0}', '\u{7f}', '\u{80}', '\u{7ff}', '\u{800}', '\u{ffff}', '\u{10ffff}'];
    for c in chars.iter() {
        let mut buf: [u8; 4] = [0u8; 4];
        let enc: &str = c.encode_utf8(&mut buf);
        assert_eq!(utf8_len(enc.as_bytes()[0]), c.len_utf8());
    }
}

#[test]
fn scan_container_from_other_starts() {
    assert_eq!(scan_container(b"x{}", 0, b'{', b'}'), Some(3));
    assert_eq!(scan_container(b"{}", 5, b'{', b'}'), None);
    assert_eq!(scan_container(b"\"}\"{}", 0, b'{', b'}'), Some(5));
}

fn minimal_literal(s: &str) -> Vec<u8> {
    let mut out: String = String::from("\"");
    for ch in s.chars() {
        match ch {
            '"' => out.push_str("\\\""),
            '\\' => out.push_str("\\\\"),
            '\n' => out.push_str("\\n"),
            '\r' => out.push_str("\\r"),
            '\t' => out.push_str("\\t"),
            '\u{0008}' => out.push_str("\\b"),
            '\u{000C}' => out.push_str("\\f"),
            c if (c as u32) < 0x20 => out.push_str(&format!("\\u{:04x}", c as u32)),
            c => out.push(c),
        }
    }
    out.push('"');
    out.into_bytes()
}

#[test]
fn decode_of_minimal_literal_round_trips() {
    let texts: [&str; 7] = [
        "",
        "plain",
        "quote \" and backslash \\",
        "ctl \u{0}\u{1}\u{1f}\n\r\t\u{8}\u{c}",
        "caf\u{e9} \u{20ac} \u{1F600}",
        "{\"nested\": [1, 2]}",
        "\u{7f}\u{80}\u{10ffff}",
    ];
    for t in texts.iter() {
        let lit: Vec<u8> = minimal_literal(t);
        assert_eq!(decode_string(&lit, 0, lit.len()), Some(t.to_string()));
    }
}

#[test]
fn decode_string_utf8_copies_raw_bytes_through() {
    assert_eq!(decode_string_utf8(b"\""), Some("\"".to_string()));
    assert_eq!(decode_string_utf8(b"\n"), Some("\n".to_string()));
    assert_eq!(decode_string_utf8(b"a\"b\x01"), Some("a\"b\u{1}".to_string()));
    let bodies: [&[u8]; 5] = [b"plain", b"q\"\t\x00", "\u{e9}\"\u{1F600}".as_bytes(), b"\xC3", b"\xE2\x82"];
    for body in bodies.iter() {
        assert_eq!(decode_string_utf8(body), String::from_utf8(body.to_vec()).ok());
    }
}

#[test]
fn decode_string_still_refuses_what_utf8_pass_copies() {
    let s: &str = "\"\u{e9}\"\"";
    assert_eq!(decode_all(s.as_bytes()), None);
    assert_eq!(decode_string_utf8("\u{e9}\"".as_bytes()), Some("\u{e9}\"".to_string()));
}
