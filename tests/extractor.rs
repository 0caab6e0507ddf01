use crowbook_intl::{Comment, ErrorType, Extractor, Lang, POT_HEADER};

#[test]
fn extract_same_message_twice() {
    let mut ex = Extractor::new();
    let src = "fn f() {\n    lformat!(\"Hello\");\n    let x = 1;\n    lformat!(\"Hello\");\n}\n";
    ex.add_messages_from_str("src/a.rs", src).unwrap();
    let ms = ex.messages();
    assert_eq!(ms.len(), 1);
    assert_eq!(ms[0].msg, "Hello");
    assert_eq!(
        ms[0].comments,
        vec![Comment::Source("src/a.rs".to_string(), 2), Comment::Source("src/a.rs".to_string(), 4)]
    );
}

#[test]
fn extract_skips_comments() {
    let mut ex = Extractor::new();
    let src = "// lformat!(\"hidden\")\nlformat!(\"shown\"); // lformat!(\"also hidden\")\n";
    ex.add_messages_from_str("f.rs", src).unwrap();
    let ms = ex.messages();
    assert_eq!(ms.len(), 1);
    assert_eq!(ms[0].msg, "shown");
    assert_eq!(ms[0].comments, vec![Comment::Source("f.rs".to_string(), 2)]);
}

#[test]
fn extract_records_original_strings() {
    let mut ex = Extractor::new();
    let src = "lformat!(\"foo\\\n     bar\");\nlformat!(\"plain\");\n";
    ex.add_messages_from_str("f.rs", src).unwrap();
    let ms = ex.messages();
    assert_eq!(ms.len(), 2);
    assert_eq!(ms[0].msg, "foobar");
    let orig = ex.original_strings();
    assert_eq!(orig.len(), 1);
    assert_eq!(orig.get("foo\\\n     bar").unwrap(), "foobar");
}

#[test]
fn extract_bad_literal_fails_and_adds_nothing() {
    let mut ex = Extractor::new();
    ex.add_messages_from_str("f.rs", "lformat!(\"ok\");\n").unwrap();
    let e = ex.add_messages_from_str("g.rs", "lformat!(\"x\");\nlformat!(x)").unwrap_err();
    assert_eq!(e.variant, ErrorType::Parse);
    assert_eq!(e.line, Some(2));
    assert_eq!(e.msg, "g.rs:2: could not parse as string");
    assert_eq!(ex.messages().len(), 1);
}

#[test]
fn pot_file_sorted_by_sources() {
    let mut ex = Extractor::new();
    ex.add_messages_from_str("b.rs", "lformat!(\"second\");\n").unwrap();
    ex.add_messages_from_str("a.rs", "\n\nlformat!(\"first {}\", x);\n").unwrap();
    let pot = ex.generate_pot_file();
    let expected = format!(
        "{}#: a.rs:3\nmsgid \"first {{}}\"\nmsgstr \"\"\n\n#: b.rs:1\nmsgid \"second\"\nmsgstr \"\"\n\n",
        POT_HEADER
    );
    assert_eq!(pot, expected);
}

#[test]
fn pot_file_empty() {
    let ex = Extractor::new();
    assert_eq!(ex.generate_pot_file(), POT_HEADER);
}

#[test]
fn pot_header_declares_utf8() {
    assert!(POT_HEADER.contains("Content-Type: text/plain; charset=UTF-8"));
}

#[test]
fn template_round_trip() {
    let mut ex = Extractor::new();
    let src = "lformat!(\"one\");\nlformat!(\"two {}\", 2);\nlformat!(\"A \\\"q\\\"\");\nlformat!(\"one\");\n";
    ex.add_messages_from_str("x.rs", src).unwrap();
    let pot = ex.generate_pot_file();
    let filled = pot.replace("msgstr \"\"\n", "msgstr \"T\"\n");
    assert!(!filled.contains("msgstr \"\""));
    let lang = Lang::new_from_str("xx", &filled).unwrap();
    assert_eq!(lang.content.len(), ex.messages().len());
    for m in ex.messages() {
        assert_eq!(lang.content.get(&m.msg).unwrap(), "T");
    }
}

#[test]
fn message_sources_chain_and_entry() {
    let mut m = crowbook_intl::Message::new("a\nb");
    m.add_source("x.rs", 12).add_source("y.rs", 3);
    assert_eq!(m.comments.len(), 2);
    assert_eq!(m.to_entry_string(), "#: x.rs:12 y.rs:3\nmsgid \"a\\nb\"\nmsgstr \"\"\n\n");
}

#[test]
fn error_constructors() {
    let e = crowbook_intl::Error::new("disk".to_string());
    assert_eq!(e.variant, ErrorType::Default);
    assert_eq!(e.description(), "disk");
    let p = crowbook_intl::Error::parse("bad".to_string());
    assert_eq!(p.variant, ErrorType::Parse);
    assert_eq!(p.description(), "Error parsing localization file: bad");
}

#[test]
fn extract_two_call_sites_lines_one_and_three() {
    let mut ex = Extractor::new();
    ex.add_messages_from_str("a.rs", "lformat!(\"hi\");\nlet x = 1;\nlformat!(\"hi\", y);\n").unwrap();
    let ms = ex.messages();
    assert_eq!(ms.len(), 1);
    assert_eq!(ms[0].msg, "hi");
    assert_eq!(
        ms[0].comments,
        vec![Comment::Source("a.rs".into(), 1), Comment::Source("a.rs".into(), 3)]
    );
}
