use subspacer::names::is_valid_label;
use subspacer::names::parse_name;
use subspacer::names::verify_name;
use subspacer::names::NameError;

#[test]
fn parse_splits_at_single_separator() {
    let (label, space) = parse_name("foo@bar").unwrap();
    assert_eq!(label, "foo");
    assert_eq!(space, "bar");
}

#[test]
fn parse_rejects_missing_or_repeated_separator() {
    assert!(parse_name("foobar").is_none());
    assert!(parse_name("a@b@c").is_none());
}

#[test]
fn parse_allows_empty_parts() {
    let (label, space) = parse_name("@").unwrap();
    assert_eq!(label, "");
    assert_eq!(space, "");
}

#[test]
fn label_must_be_lowercase_ascii() {
    assert!(is_valid_label("abc"));
    assert!(is_valid_label(""));
    assert!(!is_valid_label("aBc"));
    assert!(!is_valid_label("ab1"));
    assert!(!is_valid_label("ab-c"));
    assert!(!is_valid_label("caf\u{e9}"));
}

#[test]
fn verify_name_accepts_valid_pairs() {
    let (label, space) = verify_name("foo@bar").unwrap();
    assert_eq!(label, "foo");
    assert_eq!(space, "bar");
}

#[test]
fn verify_name_reports_each_failure() {
    assert_eq!(verify_name("foobar").unwrap_err(), NameError::InvalidName);
    assert_eq!(verify_name("foo@BAR").unwrap_err(), NameError::InvalidSpaceLabel);
    assert_eq!(verify_name("F00@bar").unwrap_err(), NameError::InvalidSubspaceLabel);
}
