use crowbook_intl::{escape_string, find_string, unescape_quoted_string, ErrorType};

#[test]
fn find_string_1() {
    let s = r#"
"Test"
"#;
    let expected = "Test";
    assert_eq!(&find_string(s.as_bytes()).unwrap(), expected);
}

#[test]
fn find_string_2() {
    let s = r#"
"A \"test\"..."
"#;
    let expected = r#"A \"test\"..."#;
    assert_eq!(&find_string(s.as_bytes()).unwrap(), expected);
}

#[test]
fn escape_string_1() {
    let s = r#"foo
bar"#;
    let expected = "foo\\nbar";
    assert_eq!(&escape_string(s), expected);
}

#[test]
fn escape_string_2() {
    let s = "foo\
             bar";
    let expected = "foobar";
    assert_eq!(&escape_string(s), expected);
}

#[test]
fn escape_string_3() {
    let s = r#"foo\
             bar"#;
    let expected = "foobar";
    assert_eq!(&escape_string(s), expected);
}

#[test]
fn escape_string_4() {
    let s = r#"foo\
             bar
baz"#;
    let expected = "foobar\\nbaz";
    assert_eq!(&escape_string(s), expected);
}

#[test]
fn scanner_keeps_escaped_quotes() {
    let s = "call(\"A \\\"quoted\\\" thing\", 3)";
    assert_eq!(&find_string(s.as_bytes()).unwrap(), "A \\\"quoted\\\" thing");
}

#[test]
fn scanner_without_quote_fails() {
    let e = find_string(b"no literal here").unwrap_err();
    assert_eq!(e.variant, ErrorType::UnterminatedOrMissing);
}

#[test]
fn scanner_quote_as_last_byte_fails() {
    let e = find_string(b"abc\"").unwrap_err();
    assert_eq!(e.variant, ErrorType::UnterminatedOrMissing);
}

#[test]
fn scanner_unterminated_returns_rest() {
    assert_eq!(&find_string(b"x \"abc").unwrap(), "abc");
}

#[test]
fn scanner_invalid_utf8_fails() {
    let e = find_string(b"\"a\xff\"").unwrap_err();
    assert_eq!(e.variant, ErrorType::InvalidUtf8);
}

#[test]
fn scanner_escaped_first_quote_does_not_open() {
    assert_eq!(&find_string(b"\\\"x\" \"y\"").unwrap(), " ");
}

#[test]
fn unescape_processes_sequences() {
    let s = b"  \"a\\nb\\tc\\rd\\\"e\\\\f\" rest";
    assert_eq!(&unescape_quoted_string(s).unwrap(), "a\nb\tc\rd\"e\\f");
}

#[test]
fn unescape_trailing_backslash_fails() {
    let e = unescape_quoted_string(b"\"abc\\").unwrap_err();
    assert_eq!(e.variant, ErrorType::TrailingBackslash);
}

#[test]
fn unescape_missing_literal_fails() {
    let e = unescape_quoted_string(b"nothing").unwrap_err();
    assert_eq!(e.variant, ErrorType::UnterminatedOrMissing);
}

#[test]
fn escape_string_unchanged_without_newline() {
    assert_eq!(&escape_string("plain \\ text {}"), "plain \\ text {}");
}

#[test]
fn escape_string_continuation_skips_unicode_space() {
    assert_eq!(&escape_string("a\\\n\u{3000}\t b"), "ab");
}

#[test]
fn escape_string_is_idempotent_on_examples() {
    for s in ["foo\nbar", "foo\\\n   bar", "a\\\\\nb", "x\n\ny\\\n", ""] {
        let once = escape_string(s);
        assert_eq!(escape_string(&once), once);
    }
}
