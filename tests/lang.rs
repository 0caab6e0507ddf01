use crowbook_intl::{ErrorType, Lang};

#[test]
fn lang_new_valid_1() {
    let s = r#"
# Some comment
msgid "Some string"
msgstr "Une chaîne"

# Other comment
msgid "Other string"
msgstr "Autre chaîne"
"#;
    Lang::new_from_str("fr", s).unwrap();
}

#[test]
fn lang_new_invalid_1() {
    let s = r#"
msgstr "Msgstr first"
msgid "Some string"
msgstr "Une chaîne"

# Other comment
msgid "Other string"
msgstr "Autre chaîne"
"#;
    let lang = Lang::new_from_str("fr", s);
    assert!(lang.is_err());
}

#[test]
fn lang_new_invalid_2() {
    let s = r#"
msgid "Some string"
msgid "Two consecutive msgid without msgstr"

# Other comment
msgid "Other string"
msgstr "Autre chaîne"
"#;
    let lang = Lang::new_from_str("fr", s);
    assert!(lang.is_err());
}

#[test]
fn lang_multiline_1() {
    let s = r#"
msgid "foo"
msgstr ""
"foo"
"bar"
"#;
    let lang = Lang::new_from_str("fr", s).unwrap();
    assert_eq!(lang.content.get("foo").unwrap(), "foobar");
}

#[test]
fn lang_multiline_2() {
    let s = r#"
msgid "foo"
"bar"
msgstr ""
"foo"
"bar"
"#;
    let lang = Lang::new_from_str("fr", s).unwrap();
    assert_eq!(lang.content.get("foobar").unwrap(), "foobar");
}

#[test]
fn lang_empty() {
    let s = r#"
msgid "foo"
msgstr ""

msgid ""
msgstr "bar"
"#;
    let lang = Lang::new_from_str("fr", s).unwrap();
    assert_eq!(lang.content.len(), 0);
}

#[test]
fn lang_valid_entries() {
    let s = "# c\nmsgid \"Some string\"\nmsgstr \"Une chaîne\"\n\nmsgid \"Other\"\nmsgstr \"Autre\"\n";
    let lang = Lang::new_from_str("fr", s).unwrap();
    assert_eq!(lang.lang, "fr");
    assert_eq!(lang.content.len(), 2);
    assert_eq!(lang.content.get("Some string").unwrap(), "Une chaîne");
    assert_eq!(lang.content.get("Other").unwrap(), "Autre");
    assert!(lang.content.get("Missing").is_none());
}

#[test]
fn lang_multiline_key_and_value() {
    let s = "msgid \"foo\"\n\"bar\"\nmsgstr \"baz\"\n\"qux\"";
    let lang = Lang::new_from_str("fr", s).unwrap();
    assert_eq!(lang.content.len(), 1);
    assert_eq!(lang.content.get("foobar").unwrap(), "bazqux");
}

#[test]
fn lang_msgstr_first_fails_at_its_line() {
    let e = Lang::new_from_str("fr", "msgstr \"x\"\nmsgid \"a\"\nmsgstr \"b\"\n").err().unwrap();
    assert_eq!(e.variant, ErrorType::Parse);
    assert_eq!(e.line, Some(1));
}

#[test]
fn lang_msgid_without_msgstr_fails() {
    let e = Lang::new_from_str("fr", "\nmsgid \"a\"\nmsgid \"b\"\n").err().unwrap();
    assert_eq!(e.variant, ErrorType::Parse);
    assert_eq!(e.line, Some(2));
}

#[test]
fn lang_msgid_on_last_line_fails() {
    let e = Lang::new_from_str("fr", "msgid \"a\"").err().unwrap();
    assert_eq!(e.variant, ErrorType::Parse);
    assert_eq!(e.line, Some(1));
}

#[test]
fn lang_bad_literal_fails() {
    let e = Lang::new_from_str("fr", "msgid \"a\"\nmsgstr oops\n").err().unwrap();
    assert_eq!(e.variant, ErrorType::Parse);
    assert_eq!(e.line, Some(2));
    assert!(e.description().starts_with("Error parsing localization file: "));
}

#[test]
fn lang_empty_text() {
    let lang = Lang::new_from_str("fr", "").unwrap();
    assert!(lang.content.is_empty());
}

#[test]
fn lang_repeated_key_last_wins() {
    let s = "msgid \"a\"\nmsgstr \"1\"\n\nmsgid \"a\"\nmsgstr \"2\"\n";
    let lang = Lang::new_from_str("fr", s).unwrap();
    assert_eq!(lang.content.len(), 1);
    assert_eq!(lang.content.get("a").unwrap(), "2");
}

#[test]
fn lang_crlf_lines() {
    let s = "msgid \"a\"\r\nmsgstr \"b\"\r\n";
    let lang = Lang::new_from_str("fr", s).unwrap();
    assert_eq!(lang.content.get("a").unwrap(), "b");
}

#[test]
fn lang_error_names_language_and_line() {
    let e = Lang::new_from_str("fr", "msgid \"a\"\nmsgstr \"b\"\n\nbogus line\n").err().unwrap();
    assert_eq!(e.variant, ErrorType::Parse);
    assert_eq!(e.line, Some(4));
    assert_eq!(e.msg, "initializing lang 'fr' at line 4, unexpected input");
}
