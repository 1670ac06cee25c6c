use import_attribute::imports::{ImportDirective, ImportList, ParseError};
use import_attribute::label::LabelError;

fn directive(source: &str, binding: &str, visible: bool) -> ImportDirective {
    ImportDirective {
        source: source.to_string(),
        binding: binding.to_string(),
        visible_to_reexport: visible,
    }
}

fn emitted(text: &str) -> Vec<ImportDirective> {
    ImportList::parse(text).expect("list should parse").emit()
}

fn failed(text: &str) -> ParseError {
    match ImportList::parse(text) {
        Ok(list) => panic!("{} parsed to {:?}", text, list),
        Err(e) => e,
    }
}

#[test]
fn public_and_aliased_declarations() {
    assert_eq!(
        emitted("pub \"//a/b\"; \"//a/b\" as c;"),
        vec![directive("a_b", "b", true), directive("a_b", "c", false)]
    );
}

#[test]
fn empty_input_gives_no_directives() {
    let list = ImportList::parse("").expect("empty list");
    assert!(list.imports.is_empty());
    assert!(list.emit().is_empty());
    assert!(emitted("  \n\t ").is_empty());
}

#[test]
fn reexported_renamed_dependency() {
    assert_eq!(
        emitted("\n    pub \"//build/rust/tests/test_aliased_deps:other_name\";\n"),
        vec![directive("build_rust_tests_test_aliased_deps_other_name", "other_name", true)]
    );
}

#[test]
fn parsed_import_fields() {
    let list = ImportList::parse("\"//x/y:z\" as w;").expect("list should parse");
    assert_eq!(list.imports.len(), 1);
    let imp = &list.imports[0];
    assert_eq!(imp.target.mangled_name, "x_y_z");
    assert_eq!(imp.target.local_name, "z");
    assert_eq!(imp.alias, Some("w".to_string()));
    assert!(!imp.reexport);
}

#[test]
fn order_of_declarations_is_kept() {
    assert_eq!(
        emitted("\"//c\";\"//a\";pub\"//b\" as _x1;"),
        vec![directive("c", "c", false), directive("a", "a", false), directive("b", "_x1", true)]
    );
}

fn expected(at: usize, found: &str) -> ParseError {
    ParseError::ExpectedStringLiteral { at, found: found.to_string() }
}

fn invalid(at: usize, label: &str, reason: LabelError) -> ParseError {
    ParseError::InvalidLabel { at, label: label.to_string(), reason }
}

#[test]
fn missing_literal_is_reported() {
    assert_eq!(failed("pub;"), expected(3, ";"));
    assert_eq!(failed("foo;"), expected(0, "foo"));
    assert_eq!(failed("pub"), expected(3, ""));
    assert_eq!(failed("\"//a/b\"; x"), expected(9, "x"));
    assert_eq!(failed("\"//a/b"), expected(0, "\"//a/b"));
    assert_eq!(failed("pubx \"//a\";"), expected(0, "pubx"));
    assert_eq!(failed("'a';"), expected(0, "'a'"));
}

#[test]
fn other_literal_kinds_are_not_labels() {
    assert_eq!(failed(r#"b"//a/b";"#), expected(0, r#"b"//a/b""#));
    assert_eq!(failed(r#"pub br"//a";"#), expected(4, r#"br"//a""#));
    assert_eq!(failed("7;"), expected(0, "7"));
}

#[test]
fn invalid_label_is_reported() {
    assert_eq!(failed("\"a/b\";"), invalid(0, "a/b", LabelError::NotAbsolute));
    assert_eq!(
        failed("pub \"//third_party/rust/x\";"),
        invalid(4, "//third_party/rust/x", LabelError::ThirdPartyForbidden)
    );
    assert_eq!(failed(r#"r"a/b";"#), invalid(0, "a/b", LabelError::NotAbsolute));
}

#[test]
fn raw_string_labels() {
    assert_eq!(emitted(r#"r"//a";"#), vec![directive("a", "a", false)]);
    assert_eq!(
        emitted(r###"pub r#"//a/b:c"# as d; r##"//e"##;"###),
        vec![directive("a_b_c", "d", true), directive("e", "e", false)]
    );
    assert_eq!(
        failed(r###"r#"//x"y"#;"###),
        invalid(0, r#"//x"y"#, LabelError::InvalidCharacter)
    );
    assert_eq!(failed(r###"r#"//a";"###), expected(0, r###"r#"//a""###));
}

#[test]
fn escaped_labels_are_decoded() {
    assert_eq!(emitted(r#""//a\x2Fb";"#), vec![directive("a_b", "b", false)]);
    assert_eq!(emitted(r#""\x2f\x2fa";"#), vec![directive("a", "a", false)]);
    assert_eq!(emitted(r#""//a\u{2F}b\u{3a}c";"#), vec![directive("a_b_c", "c", false)]);
    assert_eq!(emitted("\"//a\\\n    /b\";"), vec![directive("a_b", "b", false)]);
    assert_eq!(
        failed(r#""//a\\b";"#),
        invalid(0, "//a\\b", LabelError::InvalidCharacter)
    );
    assert_eq!(failed(r#""//a\"";"#), invalid(0, "//a\"", LabelError::InvalidCharacter));
    assert_eq!(failed(r#""//a\tb";"#), invalid(0, "//a\tb", LabelError::InvalidCharacter));
}

#[test]
fn unicode_escapes_with_underscores() {
    assert_eq!(emitted(r#""//a\u{2_F}b";"#), vec![directive("a_b", "b", false)]);
    assert_eq!(emitted(r#""/\u{0_0_0_0_2_F__}a";"#), vec![directive("a", "a", false)]);
    assert_eq!(failed(r#""//a\u{_2F}b";"#), expected(0, r#""//a\u{_2F}b""#));
    assert_eq!(failed(r#""//a\u{0000002F}b";"#), expected(0, r#""//a\u{0000002F}b""#));
}

#[test]
fn suffixed_literals_keep_their_value() {
    assert_eq!(emitted(r#""//a/b"x;"#), vec![directive("a_b", "b", false)]);
    assert_eq!(emitted(r##"pub r#"//a"#_s2 as c;"##), vec![directive("a", "c", true)]);
    assert_eq!(failed(r#""a"x;"#), invalid(0, "a", LabelError::NotAbsolute));
    assert_eq!(failed(r#""//a"as c;"#), ParseError::MalformedStatement { at: 8 });
}

#[test]
fn bad_escapes_are_no_literal() {
    assert_eq!(failed(r#""\q";"#), expected(0, r#""\q""#));
    assert_eq!(failed(r#""\u{D800}";"#), expected(0, r#""\u{D800}""#));
    assert_eq!(failed(r#""\x80";"#), expected(0, r#""\x80""#));
    assert_eq!(failed(r#""\u{}";"#), expected(0, r#""\u{}""#));
}

#[test]
fn malformed_statements_are_reported() {
    assert_eq!(failed("\"//a/b\" as;"), ParseError::MalformedStatement { at: 10 });
    assert_eq!(failed("\"//a/b\""), ParseError::MalformedStatement { at: 7 });
    assert_eq!(failed("\"//a/b\" as c"), ParseError::MalformedStatement { at: 12 });
    assert_eq!(failed("\"//a/b\" ac c;"), ParseError::MalformedStatement { at: 8 });
    assert_eq!(failed("\"//a/b\" as 1;"), ParseError::MalformedStatement { at: 11 });
}

#[test]
fn raw_statement_before_faulty_one() {
    assert_eq!(failed(r#"r"//a"; "x";"#), invalid(8, "x", LabelError::NotAbsolute));
}

#[test]
fn first_faulty_declaration_fails_the_list() {
    assert_eq!(
        failed("\"//a/b\"; \"x\"; \"//c\" as;"),
        invalid(9, "x", LabelError::NotAbsolute)
    );
}
