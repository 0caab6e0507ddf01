use crowbook_intl::{
    build_table, generate_lformat, has_arguments, set_lang, CurrentLang, Extractor, Lang, Localizer,
    RUNTIME_PRELUDE,
};

#[test]
fn test_arguments() {
    assert_eq!(has_arguments("foo bar"), false);
    assert_eq!(has_arguments("foo {}"), true);
    assert_eq!(has_arguments("foo {{bar}}"), false);
}

#[test]
fn arguments_brace_last() {
    assert_eq!(has_arguments("foo {"), true);
    assert_eq!(has_arguments("}} {}"), true);
    assert_eq!(has_arguments("{{x}} {}"), true);
    assert_eq!(has_arguments("{{}}}}"), false);
    assert_eq!(has_arguments(""), false);
}

#[test]
fn same_tag_twice_first_wins() {
    let ex = Extractor::new();
    let mut loc = Localizer::new(&ex);
    loc.add_lang("fr", "msgid \"hi\"\nmsgstr \"salut\"\n").unwrap();
    loc.add_lang("fr", "msgid \"hi\"\nmsgstr \"bonjour\"\n").unwrap();
    let t = loc.dispatch_table();
    assert_eq!(t.rows.len(), 1);
    assert_eq!(t.rows[0].msg, "hi");
    assert_eq!(t.rows[0].translations, vec![("fr".to_string(), "salut".to_string())]);
}

#[test]
fn table_merges_languages_in_order() {
    let mut ex = Extractor::new();
    ex.add_messages_from_str("m.rs", "lformat!(\"kwak!\");\nlformat!(\"untranslated\");\n").unwrap();
    let fr = Lang::new_from_str("fr", "msgid \"hello, {}\"\nmsgstr \"bonjour, {}\"\n\nmsgid \"kwak!\"\nmsgstr \"coin !\"\n").unwrap();
    let es = Lang::new_from_str("es", "msgid \"hello, {}\"\nmsgstr \"hola, {}\"\n\nmsgid \"Oi!\"\nmsgstr \"Oi!!\"\n").unwrap();
    let t = build_table(&[fr, es], &ex);
    let msgs: Vec<&str> = t.rows.iter().map(|r| r.msg.as_str()).collect();
    assert_eq!(msgs, vec!["kwak!", "untranslated", "hello, {}", "Oi!"]);
    assert!(t.rows[1].translations.is_empty());
    assert_eq!(
        t.rows[2].translations,
        vec![("fr".to_string(), "bonjour, {}".to_string()), ("es".to_string(), "hola, {}".to_string())]
    );
    assert!(t.rows[2].has_args);
    assert!(!t.rows[0].has_args);
}

#[test]
fn localize_with_fallback_and_alias() {
    let mut ex = Extractor::new();
    ex.add_messages_from_str("m.rs", "lformat!(\"a\\\n   b\");\n").unwrap();
    let fr = Lang::new_from_str("fr", "msgid \"ab\"\nmsgstr \"AB-fr\"\n").unwrap();
    let t = build_table(&[fr], &ex);
    let mut cur = CurrentLang::new();
    assert_eq!(cur.get(), "en");
    assert_eq!(t.localize(&cur, "ab"), "ab");
    set_lang(&mut cur, "fr");
    assert_eq!(cur.get(), "fr");
    assert_eq!(t.localize(&cur, "ab"), "AB-fr");
    assert_eq!(t.localize(&cur, "a\\\n   b"), "AB-fr");
    assert_eq!(t.localize(&cur, "other"), "other");
}

#[test]
fn lformat_text_for_one_message() {
    let ex = Extractor::new();
    let fr = Lang::new_from_str("fr", "msgid \"kwak!\"\nmsgstr \"coin !\"\n").unwrap();
    let text = generate_lformat(&[fr], &ex);
    let expected = "/// Localized format macro (or `lformat!` in short)\n///\n/// Should be similar to `format!`, except strings are localized.\n/// Generated automatically, you should not edit it.\n#[macro_export] macro_rules! lformat {\n    (\"kwak!\") => ({\n        let __guard = $crate::__get_lang();\n        match __guard.as_str() {\n            \"fr\" => format!(\"coin !\"),\n            _ => format!(\"kwak!\"),\n        }\n    });\n    ($($arg:tt)*) => (format!($($arg)*));\n}";
    assert_eq!(text, expected);
}

#[test]
fn macro_file_starts_with_runtime() {
    let ex = Extractor::new();
    let mut loc = Localizer::new(&ex);
    loc.add_lang("es", "msgid \"hello, {}\"\nmsgstr \"hola, {}\"\n").unwrap();
    let text = loc.generate_macro_file();
    assert!(text.starts_with(RUNTIME_PRELUDE));
    assert!(RUNTIME_PRELUDE.starts_with("//! This file was generated automatically by crowbook-localize.\n"));
    assert!(RUNTIME_PRELUDE.ends_with("        localize!(__lang, $msg, $($arg)*)\n    });\n}\n"));
    assert!(text.contains("    (\"hello, {}\", $($arg:tt)*) => ({\n"));
    assert!(text.contains("            \"es\" => format!(\"hola, {}\", $($arg)*),\n"));
}

#[test]
fn add_lang_error_keeps_catalogs() {
    let ex = Extractor::new();
    let mut loc = Localizer::new(&ex);
    let e = loc.add_lang("fr", "msgstr \"x\"\n").unwrap_err();
    assert_eq!(e.msg, "initializing lang 'fr' at line 1, unexpected input");
    assert_eq!(loc.dispatch_table().rows.len(), 0);
}

#[test]
fn lformat_text_empty() {
    let ex = Extractor::new();
    let text = generate_lformat(&[], &ex);
    assert_eq!(text, "/// Localized format macro (or `lformat!` in short)\n///\n/// Should be similar to `format!`, except strings are localized.\n/// Generated automatically, you should not edit it.\n#[macro_export] macro_rules! lformat {\n    ($($arg:tt)*) => (format!($($arg)*));\n}");
}

#[test]
fn message_with_escaped_then_real_placeholder_takes_arguments() {
    let ex = Extractor::new();
    let fr = Lang::new_from_str("fr", "msgid \"{{x}} {}\"\nmsgstr \"{{y}} {}\"\n").unwrap();
    let t = build_table(&[fr], &ex);
    assert!(t.rows[0].has_args);
}
