//! Normalizing addresses and domains.
use mailgraph::normalize::{normalize_domain, normalize_email};

#[test]
fn normalizes_email_and_domain() {
    let normalized = normalize_email(" <Alice.Example@Example.COM> ").unwrap();

    assert_eq!(normalized.address, "alice.example@example.com");
    assert_eq!(normalized.domain, "example.com");
}

#[test]
fn rejects_invalid_email() {
    assert!(normalize_email("not-an-email").is_none());
    assert!(normalize_email("bad local@example.com").is_none());
}

#[test]
fn normalizes_domains() {
    assert_eq!(normalize_domain(" Example.COM. ").as_deref(), Some("example.com"));
    assert_eq!(normalize_domain("sub.example.org").as_deref(), Some("sub.example.org"));
    assert_eq!(normalize_domain("localhost"), None);
    assert_eq!(normalize_domain(".example.com"), None);
    assert_eq!(normalize_domain("exa mple.com"), None);
    assert_eq!(normalize_domain(""), None);
}

#[test]
fn takes_the_last_at_sign() {
    let normalized = normalize_email("a@b@example.com").unwrap();
    assert_eq!(normalized.address, "a@b@example.com");
    assert_eq!(normalized.domain, "example.com");
}

#[test]
fn normalizing_twice_changes_nothing() {
    for input in ["<Bob@Example.org>", "'carol@example.net'", "\"Dave@EXAMPLE.dev\""] {
        let once = normalize_email(input).unwrap();
        let twice = normalize_email(&once.address).unwrap();
        assert_eq!(once, twice);
    }
}

#[test]
fn an_address_in_a_bracket_is_not_stable() {
    let once = normalize_email("< '@b.c").unwrap();
    assert_eq!(once.address, "'@b.c");
    assert!(normalize_email(&once.address).is_none());
}

#[test]
fn other_scripts_keep_their_letters() {
    let normalized = normalize_email("ÄÖ@Bücher.example").unwrap();
    assert_eq!(normalized.address, "ÄÖ@bücher.example");
}
