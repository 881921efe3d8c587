//! Reading messages out of archives.
use mailgraph::archive::{
    looks_like_message_file, parse_address, parse_addresses, parse_pff_message_dir,
    parse_pff_recipients, parse_rfc822_file, parse_rfc822_text, PffMessageFiles, RawAddress,
    RawMessage,
};
use mailgraph::headers::{parse_headers, parse_pff_key_values};

#[test]
fn parses_rfc822_metadata() {
    let message = parse_rfc822_file(
        "sample.eml",
        None,
        b"From: Alice <alice@example.com>\nTo: Bob <bob@example.org>\nCc: newsletter@example.net\nSubject: Hello\nMessage-ID: <1@example.com>\nDate: Tue, 30 Jun 2026 10:00:00 +0000\nList-Unsubscribe: <mailto:leave@example.net>\n\nBody ignored",
    );

    assert_eq!(
        message.internet_message_id.as_deref(),
        Some("<1@example.com>")
    );
    assert_eq!(message.sender.unwrap().email, "alice@example.com");
    assert_eq!(message.to[0].email, "bob@example.org");
    assert_eq!(message.cc[0].email, "newsletter@example.net");
    assert!(message.headers.unwrap().contains("list-unsubscribe"));
}

#[test]
fn keeps_the_other_fields_of_a_mail_file() {
    let bytes = b"Sender: Bot <bot@example.com>\r\nFrom: \"Alice A\" <alice@example.com>\r\nIn-Reply-To: <0@x>\r\nReferences: <0@x>\r\n <1@x>\r\nThread-Index: T\r\nDate: today\r\nReceived: now\r\n\r\nContent-Disposition: Attachment\r\n";
    let message = parse_rfc822_file("a/b.eml", Some("inbox".to_string()), bytes);
    assert_eq!(message.source_id.as_deref(), Some("a/b.eml"));
    assert_eq!(message.folder_path.as_deref(), Some("inbox"));
    assert_eq!(message.sender, Some(RawAddress { name: Some("Bot".to_string()), email: "bot@example.com".to_string() }));
    assert_eq!(message.from, Some(RawAddress { name: Some("Alice A".to_string()), email: "alice@example.com".to_string() }));
    assert_eq!(message.in_reply_to.as_deref(), Some("<0@x>"));
    assert_eq!(message.references.as_deref(), Some("<0@x> <1@x>"));
    assert_eq!(message.conversation_id.as_deref(), Some("T"));
    assert_eq!(message.sent_at.as_deref(), Some("today"));
    assert_eq!(message.received_at.as_deref(), Some("now"));
    assert_eq!(message.size_bytes, Some(bytes.len() as i64));
    assert!(message.has_attachments);
    assert_eq!(message.internet_message_id, None);
    assert!(message.to.is_empty());
}

#[test]
fn bytes_that_are_no_text_are_replaced() {
    let message = parse_rfc822_file("x", Some(String::new()), b"Subject: a\xffb\n\n");
    assert_eq!(message.subject.as_deref(), Some("a\u{fffd}b"));
    assert_eq!(message.folder_path, None);
    assert_eq!(message.size_bytes, Some(14));
}

#[test]
fn the_body_is_not_kept() {
    let head = "Subject: s\nFrom: a@b.c\n\n";
    let bare = parse_rfc822_text("x", None, head, 9);
    let full = parse_rfc822_text("x", None, &format!("{head}To: not@a.header\n\nmore\n"), 9);
    assert_eq!(bare, full);
    assert!(full.to.is_empty());
}

#[test]
fn headers_fold_and_repeat() {
    let headers = parse_headers("A: 1\n\tfolded \nB : 2\nno colon\na: 3\n\nC: 4\n");
    assert_eq!(headers.get("a").map(String::as_str), Some("1 folded\n3"));
    assert_eq!(headers.get("b").map(String::as_str), Some("2"));
    assert_eq!(headers.get("c"), None);
    assert_eq!(headers.fields.len(), 2);
}

#[test]
fn addresses_come_with_and_without_names() {
    assert_eq!(
        parse_address("\"Bob B\" <bob@example.org>"),
        Some(RawAddress { name: Some("Bob B".to_string()), email: "bob@example.org".to_string() })
    );
    assert_eq!(parse_address("bob@example.org"), Some(RawAddress::new("bob@example.org")));
    assert_eq!(parse_address("<bob@example.org>"), Some(RawAddress::new("bob@example.org")));
    assert_eq!(parse_address("Bob"), None);
    assert_eq!(parse_address(""), None);
    let list = parse_addresses("a@b.c, , nobody, \"D\" <d@e.f>");
    assert_eq!(list.len(), 2);
    assert_eq!(list[0], RawAddress::new("a@b.c"));
    assert_eq!(list[1].name.as_deref(), Some("D"));
}

#[test]
fn recipients_of_exported_messages() {
    let recipients = parse_pff_recipients(
        "Display name: Ann\nEmail address: ann@x.y\nRecipient type: To\n\nEmail address: cid@x.y\nRecipient type: cc\n\nDisplay name: Nobody\n\nEmail address: bea@x.y\nRecipient type: BCC",
    );
    assert_eq!(recipients.to.len(), 1);
    assert_eq!(recipients.to[0].name.as_deref(), Some("Ann"));
    assert_eq!(recipients.cc, vec![RawAddress::new("cid@x.y")]);
    assert_eq!(recipients.bcc, vec![RawAddress::new("bea@x.y")]);
}

#[test]
fn key_values_drop_what_is_empty() {
    let values = parse_pff_key_values("Subject:\t  Hello \nEmpty:  \nno colon\nSize: 12\nsubject: Again\n");
    assert_eq!(values.get("subject").map(String::as_str), Some("Again"));
    assert_eq!(values.get("size").map(String::as_str), Some("12"));
    assert_eq!(values.get("empty"), None);
}

fn exported(internet: &str, outlook: &str, recipients: &str) -> RawMessage {
    parse_pff_message_dir(PffMessageFiles {
        source: "export/Message00001".to_string(),
        folder: Some("Inbox".to_string()),
        internet_headers: internet.to_string(),
        outlook_headers: outlook.to_string(),
        recipients: recipients.to_string(),
        has_attachments: true,
    })
}

#[test]
fn exported_messages_fall_back_on_outlook() {
    let message = exported(
        "",
        "Subject: S\nSender name: Ann\nSender email address: ann@x.y\nConversation topic: T\nClient submit time: C\nDelivery time: D\nSize: 77\n",
        "Email address: bob@x.y\n",
    );
    assert_eq!(message.subject.as_deref(), Some("S"));
    let ann = RawAddress { name: Some("Ann".to_string()), email: "ann@x.y".to_string() };
    assert_eq!(message.sender, Some(ann.clone()));
    assert_eq!(message.from, Some(ann));
    assert_eq!(message.conversation_id.as_deref(), Some("T"));
    assert_eq!(message.sent_at.as_deref(), Some("C"));
    assert_eq!(message.received_at.as_deref(), Some("D"));
    assert_eq!(message.size_bytes, Some(77));
    assert_eq!(message.to, vec![RawAddress::new("bob@x.y")]);
    assert_eq!(message.headers, None);
    assert!(message.has_attachments);
    assert_eq!(message.source_id.as_deref(), Some("export/Message00001"));
    assert_eq!(message.folder_path.as_deref(), Some("Inbox"));
}

#[test]
fn exported_messages_prefer_internet_headers() {
    let message = exported(
        "From: Bob <bob@x.y>\nTo: c@x.y\nSubject: I\nDate: then\n",
        "Subject: S\nSize: many\n",
        "Email address: other@x.y\n",
    );
    assert_eq!(message.subject.as_deref(), Some("I"));
    assert_eq!(message.sent_at.as_deref(), Some("then"));
    assert_eq!(message.sender.unwrap().email, "bob@x.y");
    assert_eq!(message.to, vec![RawAddress::new("c@x.y")]);
    assert_eq!(message.size_bytes, None);
    assert!(message.headers.unwrap().starts_with("From: Bob"));
}

#[test]
fn message_files_are_told_by_extension() {
    for extension in ["eml", "EML", "txt", "message", "Email"] {
        assert!(looks_like_message_file(Some(extension)));
    }
    assert!(!looks_like_message_file(Some("pdf")));
    assert!(!looks_like_message_file(Some("")));
    assert!(looks_like_message_file(None));
}

#[test]
fn messages_are_copied_whole() {
    let message = exported("From: Bob <bob@x.y>\nTo: c@x.y\nCc: d@x.y\nBcc: e@x.y\n", "", "");
    assert_eq!(message.clone(), message);
    assert_eq!(RawMessage::default().clone(), RawMessage::default());
}
