//! Telling people from everything else that sends mail.
use mailgraph::classify::{classify_sender, is_filtered_sender_kind, SenderKind};
use mailgraph::db::sender_kind_is_filtered;

#[test]
fn detects_common_machine_senders() {
    assert_eq!(
        classify_sender("noreply@example.com", None),
        SenderKind::NoReply
    );
    assert_eq!(
        classify_sender("project@noreply.github.com", None),
        SenderKind::NoReply
    );
    assert_eq!(
        classify_sender("digest-noreply@quora.com", None),
        SenderKind::NoReply
    );
    assert_eq!(
        classify_sender("do_not_reply@example.com", None),
        SenderKind::NoReply
    );
    assert_eq!(
        classify_sender("noreply=example.com@mail.example.com", None),
        SenderKind::NoReply
    );
    assert_eq!(
        classify_sender("newsletter@example.com", None),
        SenderKind::Newsletter
    );
    assert_eq!(
        classify_sender("alice@example.com", Some("List-Unsubscribe: <mailto:x>")),
        SenderKind::Bulk
    );
}

#[test]
fn tells_every_kind() {
    assert_eq!(classify_sender("alice@example.com", None), SenderKind::Person);
    assert_eq!(classify_sender("nobody", None), SenderKind::Invalid);
    assert_eq!(classify_sender("alerts@example.com", None), SenderKind::Automated);
    assert_eq!(classify_sender("offers@example.com", None), SenderKind::Promotional);
    assert_eq!(
        classify_sender("alice@example.com", Some("Subject: hello")),
        SenderKind::Person
    );
}

#[test]
fn kind_does_not_depend_on_case() {
    assert_eq!(
        classify_sender(" <NoReply@Example.COM> ", None),
        SenderKind::NoReply
    );
    assert_eq!(
        classify_sender("ALICE@EXAMPLE.COM", Some("LIST-UNSUBSCRIBE: <MAILTO:X>")),
        SenderKind::Bulk
    );
}

#[test]
fn kind_names_are_stored() {
    assert_eq!(SenderKind::Person.as_str(), "person");
    assert_eq!(SenderKind::NoReply.as_str(), "no_reply");
    assert_eq!(SenderKind::Bulk.as_str(), "bulk");
    assert_eq!(SenderKind::Newsletter.as_str(), "newsletter");
    assert_eq!(SenderKind::Promotional.as_str(), "promotional");
    assert_eq!(SenderKind::Automated.as_str(), "automated");
    assert_eq!(SenderKind::Invalid.as_str(), "invalid");
}

#[test]
fn everything_but_people_is_filtered() {
    let kinds = [
        SenderKind::NoReply,
        SenderKind::Bulk,
        SenderKind::Newsletter,
        SenderKind::Promotional,
        SenderKind::Automated,
        SenderKind::Invalid,
    ];
    for kind in kinds {
        assert!(is_filtered_sender_kind(kind.as_str()));
        assert!(sender_kind_is_filtered(kind.as_str()));
    }
    assert!(!is_filtered_sender_kind("person"));
    assert!(!sender_kind_is_filtered("person"));
    assert!(!sender_kind_is_filtered("unknown"));
}
