use binda::domain::{DomainName, DomainNameError};
use std::collections::HashSet;

#[test]
fn accepts_plain_ascii() {
    assert!(DomainName::new("example.binda").is_ok());
}

#[test]
fn accepts_emoji_and_mixed_scripts() {
    assert!(DomainName::new("🔥.example").is_ok());
    assert!(DomainName::new("مرحبا.hello").is_ok());
    assert!(DomainName::new("e\u{0301}\u{0301}\u{0301}xample").is_ok());
}

#[test]
fn accepts_heavy_zalgo_stacking_with_no_length_cap() {
    let combining_marks = ['\u{0301}', '\u{0316}', '\u{0327}', '\u{0353}'];
    let mut label = String::from("e");
    for i in 0..5_000 {
        label.push(combining_marks[i % combining_marks.len()]);
    }
    let domain = DomainName::new(&label).expect("heavy zalgo label should be valid");
    assert_eq!(domain.as_str(), label.as_str());
}

#[test]
fn accepts_arbitrarily_long_names() {
    let long_name = "a".repeat(100_000);
    assert!(DomainName::new(&long_name).is_ok());
}

#[test]
fn accepts_rtl_and_ltr_intermixed_within_one_label() {
    let domain =
        DomainName::new("helloمرحبا🔥world").expect("intermixed bidi label should be valid");
    assert_eq!(domain.labels().len(), 1);
    assert_eq!(domain.as_str(), "helloمرحبا🔥world");
}

#[test]
fn rejects_empty() {
    assert_eq!(DomainName::new(""), Err(DomainNameError::Empty));
}

#[test]
fn rejects_control_chars() {
    assert!(matches!(
        DomainName::new("exa\u{0007}mple"),
        Err(DomainNameError::NonPrintableChar { .. })
    ));
}

#[test]
fn rejects_empty_labels() {
    assert_eq!(DomainName::new("a..b"), Err(DomainNameError::EmptyLabel));
    assert_eq!(DomainName::new(".a"), Err(DomainNameError::EmptyLabel));
}

#[test]
fn rejects_trailing_empty_label() {
    assert_eq!(DomainName::new("a."), Err(DomainNameError::EmptyLabel));
}

#[test]
fn labels_splits_on_dot_in_order() {
    let domain = DomainName::new("a.b.c").unwrap();
    let labels: Vec<String> = domain.labels();
    assert_eq!(labels, vec!["a", "b", "c"]);
}

#[test]
fn display_matches_as_str() {
    let domain = DomainName::new("example.binda").unwrap();
    assert_eq!(domain.to_string(), domain.as_str());
}

#[test]
fn try_from_str_matches_new() {
    let domain: DomainName = "example.binda".try_into().unwrap();
    assert_eq!(domain.as_str(), "example.binda");

    let err: Result<DomainName, _> = "".try_into();
    assert_eq!(err, Err(DomainNameError::Empty));
}

#[test]
fn equal_domains_hash_and_order_consistently() {
    let a = DomainName::new("example.binda").unwrap();
    let b = DomainName::new("example.binda").unwrap();
    let c = DomainName::new("other.binda").unwrap();
    assert_eq!(a, b);
    assert!(a < c || c < a);

    let mut set = HashSet::new();
    set.insert(a.clone());
    assert!(set.contains(&b));
    assert!(!set.contains(&c));
}

#[test]
fn domain_error_messages_are_human_readable() {
    assert_eq!(
        DomainNameError::Empty.to_string(),
        "domain name must not be empty"
    );
    assert_eq!(
        DomainNameError::EmptyLabel.to_string(),
        "domain label must not be empty (found consecutive or leading/trailing '.')"
    );
    assert_eq!(
        DomainNameError::NonPrintableChar { offset: 3 }.to_string(),
        "domain name contains a non-printable character at byte offset 3"
    );
}

#[test]
fn offset_of_the_first_unprintable_character_counts_bytes() {
    assert_eq!(
        DomainName::new("🔥é b\u{7}"),
        Err(DomainNameError::NonPrintableChar { offset: 6 })
    );
    assert_eq!(
        DomainName::new("a\u{9f}b"),
        Err(DomainNameError::NonPrintableChar { offset: 1 })
    );
    assert_eq!(
        DomainName::new("中\u{7f}"),
        Err(DomainNameError::NonPrintableChar { offset: 3 })
    );
}

#[test]
fn unprintable_character_counts_before_an_empty_label() {
    assert_eq!(
        DomainName::new("a.. b"),
        Err(DomainNameError::NonPrintableChar { offset: 3 })
    );
}

#[test]
fn no_break_space_is_printable() {
    assert!(DomainName::new("a\u{a0}b").is_ok());
}

#[test]
fn labels_joined_by_dots_are_the_name() {
    let name = "🔥.مرحبا.binda";
    let domain = DomainName::new(name).unwrap();
    assert_eq!(domain.labels().join("."), name);
}
