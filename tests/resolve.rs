use import_attribute::label::{GnTarget, LabelError};

fn resolved(label: &str) -> (String, String) {
    let t = GnTarget::parse(label).expect("label should resolve");
    (t.mangled_name, t.local_name)
}

fn rejected(label: &str) -> LabelError {
    match GnTarget::parse(label) {
        Ok(t) => panic!("label {} resolved to {:?}", label, t),
        Err(e) => e,
    }
}

#[test]
fn aliased_dependency_label() {
    assert_eq!(
        resolved("//build/rust/tests/test_aliased_deps:other_name"),
        ("build_rust_tests_test_aliased_deps_other_name".to_string(), "other_name".to_string())
    );
}

#[test]
fn label_without_colon_joins_segments() {
    assert_eq!(resolved("//a/b"), ("a_b".to_string(), "b".to_string()));
    assert_eq!(resolved("//foo/bar/baz"), ("foo_bar_baz".to_string(), "baz".to_string()));
}

#[test]
fn single_segment_label() {
    assert_eq!(resolved("//a"), ("a".to_string(), "a".to_string()));
}

#[test]
fn label_with_colon_appends_name() {
    assert_eq!(resolved("//a/b:c"), ("a_b_c".to_string(), "c".to_string()));
    assert_eq!(resolved("//x:y"), ("x_y".to_string(), "y".to_string()));
}

#[test]
fn numeric_segments_are_accepted() {
    assert_eq!(resolved("//1/2"), ("1_2".to_string(), "2".to_string()));
}

#[test]
fn third_party_labels_are_rejected() {
    assert_eq!(rejected("//third_party/rust/foo/v1:lib"), LabelError::ThirdPartyForbidden);
    assert_eq!(rejected("//third_party/rust"), LabelError::ThirdPartyForbidden);
    assert_eq!(rejected("//third_party/rust/a-b"), LabelError::ThirdPartyForbidden);
}

#[test]
fn third_party_check_is_on_whole_segments() {
    assert_eq!(
        resolved("//third_party/rust:x"),
        ("third_party_rust_x".to_string(), "x".to_string())
    );
    assert_eq!(
        resolved("//third_party/rusty/a"),
        ("third_party_rusty_a".to_string(), "a".to_string())
    );
}

#[test]
fn relative_labels_are_rejected() {
    assert_eq!(rejected("a/b"), LabelError::NotAbsolute);
    assert_eq!(rejected("/a/b"), LabelError::NotAbsolute);
    assert_eq!(rejected(""), LabelError::NotAbsolute);
    assert_eq!(rejected(":a"), LabelError::NotAbsolute);
}

#[test]
fn resolving_twice_gives_the_same_target() {
    let a = GnTarget::parse("//base/util:strings");
    let b = GnTarget::parse("//base/util:strings");
    assert_eq!(a, b);
    assert_eq!(GnTarget::parse("//a-b"), GnTarget::parse("//a-b"));
}

#[test]
fn invalid_characters_are_rejected_anywhere() {
    assert_eq!(rejected("//a-b/c"), LabelError::InvalidCharacter);
    assert_eq!(rejected("//a/c.d"), LabelError::InvalidCharacter);
    assert_eq!(rejected("//a/b:c-d"), LabelError::InvalidCharacter);
    assert_eq!(rejected("//a/b c"), LabelError::InvalidCharacter);
}

#[test]
fn misplaced_colons_are_rejected() {
    assert_eq!(rejected("//a:b/c"), LabelError::UnexpectedColon);
    assert_eq!(rejected("//a/b:c:d"), LabelError::UnexpectedColon);
}

#[test]
fn empty_segments_are_rejected() {
    assert_eq!(rejected("//"), LabelError::EmptySegment);
    assert_eq!(rejected("//a//b"), LabelError::EmptySegment);
    assert_eq!(rejected("//a/"), LabelError::EmptySegment);
    assert_eq!(rejected("//a/b:"), LabelError::EmptySegment);
    assert_eq!(rejected("//a/:b"), LabelError::EmptySegment);
}

#[test]
fn first_faulty_segment_decides() {
    assert_eq!(rejected("//a-b//c"), LabelError::InvalidCharacter);
    assert_eq!(rejected("///a-b"), LabelError::EmptySegment);
}
