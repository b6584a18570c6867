use gitinspector_core::filtering::{Filter, FilterType};

#[test]
fn test_typed_filter() {
    let filter = Filter::new(&[
        "author:John".to_string(),
        "email:gmail\\.com$".to_string(),
        "message:BUGFIX".to_string(),
        "file:tests/".to_string(),
    ])
    .unwrap();

    assert!(filter.is_excluded("John Doe", FilterType::Author));
    assert!(filter.is_excluded("user@gmail.com", FilterType::Email));
    assert!(filter.is_excluded("Fixed a BUGFIX in core", FilterType::Message));
    assert!(filter.is_excluded("tests/main.rs", FilterType::File));

    assert!(!filter.is_excluded("Jane Doe", FilterType::Author));
    assert!(!filter.is_excluded("src/main.rs", FilterType::File));
}

#[test]
fn empty_filter_excludes_nothing() {
    let filter = Filter::new(&[]).unwrap();
    assert!(!filter.is_excluded("anything", FilterType::Author));
    assert!(!filter.should_exclude("src/main.rs"));
    let d = Filter::default();
    assert!(!d.is_excluded("x", FilterType::General));
}

#[test]
fn general_rules_apply_to_every_type() {
    let filter = Filter::new(&["secret".to_string()]).unwrap();
    assert!(filter.is_excluded("top secret", FilterType::Message));
    assert!(filter.is_excluded("secret.rs", FilterType::File));
    assert!(filter.should_exclude("docs/secret/a.md"));
    assert!(!filter.is_excluded("public", FilterType::Author));
}

#[test]
fn typed_rules_apply_to_their_type_only() {
    let filter = Filter::new(&["author:John".to_string()]).unwrap();
    assert!(!filter.is_excluded("John", FilterType::Email));
    assert!(!filter.should_exclude("John.rs"));
}

#[test]
fn invalid_pattern_is_refused() {
    let err = Filter::new(&["author:ok".to_string(), "file:(unclosed".to_string()]).unwrap_err();
    assert_eq!(err.pattern, "file:(unclosed");
    assert!(!err.message.is_empty());
}
