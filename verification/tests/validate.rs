use shellman::validate::{is_valid_domain, parse_id, parse_user};

#[test]
fn parse_user_accepts_non_empty_names() {
    assert_eq!(parse_user("alice").unwrap(), "alice");
    assert_eq!(parse_user(" ").unwrap(), " ");
}

#[test]
fn parse_user_rejects_empty_names() {
    assert!(parse_user("").is_err());
}

#[test]
fn parse_id_accepts_positive_decimals() {
    assert_eq!(parse_id("1").unwrap(), 1);
    assert_eq!(parse_id("42").unwrap(), 42);
    assert_eq!(parse_id("007").unwrap(), 7);
    assert_eq!(parse_id("+9").unwrap(), 9);
    assert_eq!(parse_id("4294967295").unwrap(), 4294967295);
}

#[test]
fn parse_id_rejects_zero_and_malformed_input() {
    assert!(parse_id("0").is_err());
    assert!(parse_id("").is_err());
    assert!(parse_id("+").is_err());
    assert!(parse_id("-1").is_err());
    assert!(parse_id("12x").is_err());
    assert!(parse_id("4294967296").is_err());
}

#[test]
fn valid_domains_are_accepted() {
    assert!(is_valid_domain("example.com"));
    assert!(is_valid_domain("a.io"));
    assert!(is_valid_domain("sub-domain.deep.example.org"));
    assert!(is_valid_domain("9front.example"));
}

#[test]
fn invalid_domains_are_rejected() {
    assert!(!is_valid_domain(""));
    assert!(!is_valid_domain("example"));
    assert!(!is_valid_domain("example."));
    assert!(!is_valid_domain(".com"));
    assert!(!is_valid_domain("a..com"));
    assert!(!is_valid_domain("-bad.com"));
    assert!(!is_valid_domain("bad-.com"));
    assert!(!is_valid_domain("example.c"));
    assert!(!is_valid_domain("example.c0m"));
    assert!(!is_valid_domain("10.0.0.5"));
    assert!(!is_valid_domain("exa mple.com"));
}

#[test]
fn long_labels_are_bounded_at_sixty_three() {
    let label_63: String = "a".repeat(63);
    let label_64: String = "a".repeat(64);
    assert!(is_valid_domain(&format!("{}.com", label_63)));
    assert!(!is_valid_domain(&format!("{}.com", label_64)));
}
