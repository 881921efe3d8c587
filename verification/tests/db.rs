//! The index: indexing messages, asking for contacts and numbers, and what a store needs.
use mailgraph::archive::{RawAddress, RawMessage};
use mailgraph::db::{
    ContactQuery, ContactSummary, Database, DbError, RowRef, Rows, Stats, SCHEMA_VERSION,
};
use mailgraph::tables::{
    AddressRow, ContactRow, DomainRow, LastIds, MessageRow, RecipientRow, ScanRow,
};

#[test]
fn migrates_and_reports_empty_stats() {
    let db = Database::open_memory().unwrap();

    assert_eq!(
        db.stats().unwrap(),
        Stats {
            scans: 0,
            messages: 0,
            contacts: 0,
            valid_contacts: 0,
            filtered_contacts: 0,
            domains: 0,
            attachments_flagged: 0,
            sender_contacts: 0,
            recipient_contacts: 0,
            to_contacts: 0,
            cc_contacts: 0,
            bcc_contacts: 0,
            kind_counts: Vec::new(),
        }
    );
}

#[test]
fn inserts_message_contacts_and_recipients() {
    let mut db = Database::open_memory().unwrap();
    let scan_id = db.begin_scan("sample.pst").unwrap();

    let message = RawMessage {
        internet_message_id: Some("<1@example.com>".to_string()),
        subject: Some("Hello".to_string()),
        sender: Some(RawAddress {
            name: Some("Alice".to_string()),
            email: "Alice@Example.com".to_string(),
        }),
        to: vec![RawAddress::new("bob@example.org")],
        has_attachments: true,
        ..RawMessage::default()
    };

    assert!(db.insert_message(scan_id, &message).unwrap());
    assert!(!db.insert_message(scan_id, &message).unwrap());

    let stats = db.stats().unwrap();
    assert_eq!(stats.messages, 1);
    assert_eq!(stats.contacts, 2);
    assert_eq!(stats.valid_contacts, 2);
    assert_eq!(stats.filtered_contacts, 0);
    assert_eq!(stats.domains, 2);
    assert_eq!(stats.attachments_flagged, 1);
    assert_eq!(stats.sender_contacts, 1);
    assert_eq!(stats.recipient_contacts, 1);
    assert_eq!(stats.to_contacts, 1);
    assert_eq!(stats.cc_contacts, 0);
    assert_eq!(stats.bcc_contacts, 0);
}

#[test]
fn ranks_people_above_filtered_senders() {
    let mut db = Database::open_memory().unwrap();
    let scan_id = db.begin_scan("sample.pst").unwrap();

    let real = RawMessage {
        internet_message_id: Some("<real@example.com>".to_string()),
        sender: Some(RawAddress::new("alice@example.com")),
        to: vec![RawAddress::new("me@example.org")],
        conversation_id: Some("thread-1".to_string()),
        ..RawMessage::default()
    };
    let newsletter = RawMessage {
        internet_message_id: Some("<news@example.com>".to_string()),
        sender: Some(RawAddress::new("newsletter@example.net")),
        headers: Some("List-Unsubscribe: <mailto:x>".to_string()),
        ..RawMessage::default()
    };

    db.insert_message(scan_id, &newsletter).unwrap();
    db.insert_message(scan_id, &real).unwrap();

    let contacts = db.contacts(&ContactQuery::new(10)).unwrap();
    assert!(
        contacts
            .iter()
            .any(|contact| contact.email == "alice@example.com")
    );
    assert!(
        !contacts
            .iter()
            .any(|contact| contact.email == "newsletter@example.net")
    );

    let all_contacts = db
        .contacts(&ContactQuery {
            limit: 10,
            include_filtered: true,
            kind: None,
            domain: None,
            role: None,
            ..ContactQuery::new(10)
        })
        .unwrap();
    assert!(
        all_contacts
            .iter()
            .any(|contact| contact.email == "newsletter@example.net")
    );
}

#[test]
fn filters_contacts_by_kind_and_domain() {
    let mut db = Database::open_memory().unwrap();
    let scan_id = db.begin_scan("sample.pst").unwrap();

    let message = RawMessage {
        internet_message_id: Some("<filters@example.com>".to_string()),
        sender: Some(RawAddress::new("alerts@example.com")),
        to: vec![RawAddress::new("bob@example.org")],
        ..RawMessage::default()
    };

    db.insert_message(scan_id, &message).unwrap();

    let contacts = db
        .contacts(&ContactQuery {
            limit: 10,
            include_filtered: true,
            kind: Some("automated".to_string()),
            domain: Some("example.com".to_string()),
            role: None,
            ..ContactQuery::new(10)
        })
        .unwrap();

    assert_eq!(contacts.len(), 1);
    assert_eq!(contacts[0].email, "alerts@example.com");
}

#[test]
fn filters_contacts_by_recipient_role() {
    let mut db = Database::open_memory().unwrap();
    let scan_id = db.begin_scan("sample.pst").unwrap();

    let message = RawMessage {
        internet_message_id: Some("<recipients@example.com>".to_string()),
        subject: Some("Recipient test".to_string()),
        sender: Some(RawAddress::new("alice@example.com")),
        to: vec![RawAddress::new("bob@example.org")],
        cc: vec![RawAddress::new("carol@example.net")],
        bcc: vec![RawAddress::new("dave@example.dev")],
        ..RawMessage::default()
    };

    db.insert_message(scan_id, &message).unwrap();

    let contacts = db
        .contacts(&ContactQuery {
            limit: 10,
            include_filtered: true,
            kind: None,
            domain: None,
            role: Some("cc".to_string()),
            ..ContactQuery::new(10)
        })
        .unwrap();

    assert_eq!(contacts.len(), 1);
    assert_eq!(contacts[0].email, "carol@example.net");
    assert_eq!(contacts[0].cc_count, 1);

    let count = db
        .contact_count(&ContactQuery {
            limit: 1,
            include_filtered: true,
            kind: None,
            domain: None,
            role: Some("cc".to_string()),
            ..ContactQuery::new(1)
        })
        .unwrap();
    assert_eq!(count, 1);
}

fn mail(id: &str, from: &str, to: &[&str], thread: &str) -> RawMessage {
    RawMessage {
        internet_message_id: Some(id.to_string()),
        sender: Some(RawAddress::new(from)),
        to: to.iter().map(|a| RawAddress::new(a)).collect(),
        conversation_id: Some(thread.to_string()),
        ..RawMessage::default()
    }
}

fn sample() -> Database {
    let mut db = Database::open_memory().unwrap();
    let scan = db.begin_scan("sample.pst").unwrap();
    let messages = [
        mail("<1>", "ann@x.org", &["bob@y.org"], "t1"),
        mail("<2>", "bob@y.org", &["ann@x.org", "cid@z.org"], "t1"),
        mail("<3>", "ann@x.org", &["bob@y.org"], "t2"),
        mail("<4>", "noreply@shop.com", &["ann@x.org"], "t3"),
    ];
    for message in &messages {
        assert_eq!(db.insert_message(scan, message), Ok(true));
    }
    db
}

fn emails(contacts: &[ContactSummary]) -> Vec<&str> {
    contacts.iter().map(|c| c.email.as_str()).collect()
}

#[test]
fn scores_are_exact() {
    let db = sample();
    let contacts = db
        .contacts(&ContactQuery { include_filtered: true, ..ContactQuery::new(-1) })
        .unwrap();
    assert_eq!(
        emails(&contacts),
        ["ann@x.org", "bob@y.org", "cid@z.org", "noreply@shop.com"]
    );
    let ann = &contacts[0];
    assert_eq!(
        (ann.sent_count, ann.direct_count, ann.cc_count, ann.bcc_count, ann.conversation_count),
        (2, 2, 0, 0, 3)
    );
    assert_eq!(ann.message_count, 4);
    assert_eq!(ann.rank_score, 2 * 4 + 2 * 3 + 3 * 6 + 12);
    let bob = &contacts[1];
    assert_eq!(bob.rank_score, 4 + 2 * 3 + 2 * 6 + 12);
    let cid = &contacts[2];
    assert_eq!(cid.rank_score, 3 + 6);
    assert_eq!(contacts[3].rank_score, 4 + 6 - 1000);
    assert_eq!(contacts[3].sender_kind, "no_reply");
}

#[test]
fn limits_cut_the_ranking() {
    let db = sample();
    let all = db.contacts(&ContactQuery::new(-1)).unwrap();
    assert_eq!(emails(&all), ["ann@x.org", "bob@y.org", "cid@z.org"]);
    for limit in 0..5 {
        let query = ContactQuery::new(limit);
        let some = db.contacts(&query).unwrap();
        assert_eq!(some.len(), 3.min(limit as usize));
        assert_eq!(&all[..some.len()], &some[..]);
        assert_eq!(db.contact_count(&query), Ok(3));
    }
}

#[test]
fn contacts_without_messages_come_last_and_ties_go_by_address() {
    let mut db = Database::open_memory().unwrap();
    let scan = db.begin_scan("sample.pst").unwrap();
    db.insert_message(scan, &mail("<1>", "b@x.org", &["d@x.org", "c@x.org"], "t")).unwrap();
    assert_eq!(db.insert_message(scan, &mail("<1>", "a@x.org", &[], "t")), Ok(false));
    let contacts = db.contacts(&ContactQuery::new(10)).unwrap();
    assert_eq!(emails(&contacts), ["b@x.org", "c@x.org", "d@x.org", "a@x.org"]);
    assert_eq!(contacts[3].rank_score, 0);
    assert_eq!(contacts[3].conversation_count, 0);
}

fn asked(db: &Database, query: ContactQuery) -> Vec<String> {
    let query = ContactQuery { include_filtered: true, ..query };
    let found = db.contacts(&query).unwrap();
    assert_eq!(db.contact_count(&query), Ok(found.len() as i64));
    found.into_iter().map(|c| c.email).collect()
}

#[test]
fn every_filter_of_a_query_counts() {
    let db = sample();
    let new = || ContactQuery::new(10);
    let text = |s: &str| Some(s.to_string());
    assert_eq!(asked(&db, ContactQuery { role: text("sender"), ..new() }).len(), 3);
    assert_eq!(
        asked(&db, ContactQuery { role: text("recipient"), ..new() }),
        ["ann@x.org", "bob@y.org", "cid@z.org"]
    );
    assert_eq!(asked(&db, ContactQuery { role: text("to"), ..new() }).len(), 3);
    assert!(asked(&db, ContactQuery { role: text("bcc"), ..new() }).is_empty());
    assert!(asked(&db, ContactQuery { role: text("other"), ..new() }).is_empty());
    assert_eq!(
        asked(&db, ContactQuery { exclude_kinds: text("no_reply,bulk"), ..new() }).len(),
        3
    );
    assert_eq!(
        asked(&db, ContactQuery { domain_contains: text("shop,z."), ..new() }),
        ["cid@z.org", "noreply@shop.com"]
    );
    assert_eq!(
        asked(&db, ContactQuery { exclude_emails: text("ann@x.org,bob@y.org"), ..new() }),
        ["cid@z.org", "noreply@shop.com"]
    );
    assert_eq!(
        asked(&db, ContactQuery { exclude_email_contains: text("reply"), ..new() }).len(),
        3
    );
    assert_eq!(
        asked(&db, ContactQuery { exclude_domains: text("x.org"), ..new() }),
        ["bob@y.org", "cid@z.org", "noreply@shop.com"]
    );
    assert_eq!(
        asked(&db, ContactQuery { exclude_domain_contains: text(".org"), ..new() }),
        ["noreply@shop.com"]
    );
    assert_eq!(asked(&db, ContactQuery { kind: text("person"), ..new() }).len(), 3);
    assert_eq!(asked(&db, ContactQuery { domain: text("y.org"), ..new() }), ["bob@y.org"]);
}

#[test]
fn conversations_fall_back_on_other_ids() {
    let mut db = Database::open_memory().unwrap();
    let scan = db.begin_scan("sample.pst").unwrap();
    for (id, subject) in [("<1>", Some("same")), ("<2>", Some("same")), ("<3>", None)] {
        let message = RawMessage {
            internet_message_id: Some(id.to_string()),
            subject: subject.map(str::to_string),
            sender: Some(RawAddress::new("ann@x.org")),
            ..RawMessage::default()
        };
        db.insert_message(scan, &message).unwrap();
    }
    let none = RawMessage {
        sender: Some(RawAddress::new("ann@x.org")),
        ..RawMessage::default()
    };
    assert_eq!(db.insert_message(scan, &none), Ok(true));
    assert_eq!(db.insert_message(scan, &none), Ok(true));
    let contacts = db.contacts(&ContactQuery::new(1)).unwrap();
    assert_eq!(contacts[0].sent_count, 5);
    assert_eq!(contacts[0].conversation_count, 2);
}

#[test]
fn numbers_add_up() {
    let db = sample();
    let stats = db.stats().unwrap();
    assert_eq!(stats.contacts, 4);
    assert_eq!(stats.valid_contacts + stats.filtered_contacts, stats.contacts);
    assert_eq!(stats.filtered_contacts, 1);
    assert_eq!(
        stats.kind_counts,
        vec![("person".to_string(), 3), ("no_reply".to_string(), 1)]
    );
    assert_eq!(stats.sender_contacts, 3);
    assert_eq!(stats.recipient_contacts, 3);
    assert_eq!(stats.to_contacts, 3);
    assert_eq!(stats.scans, 1);
    assert_eq!(stats.domains, 4);
    assert_eq!(stats.kind_counts.iter().map(|(_, n)| n).sum::<i64>(), stats.contacts);
    assert!(stats.to_contacts <= stats.recipient_contacts);
    assert!(stats.cc_contacts <= stats.recipient_contacts);
    assert!(stats.bcc_contacts <= stats.recipient_contacts);
}

#[test]
fn a_query_has_one_answer_with_falling_scores() {
    let db = sample();
    let query = ContactQuery { include_filtered: true, ..ContactQuery::new(10) };
    let contacts = db.contacts(&query).unwrap();
    assert_eq!(contacts, db.contacts(&query).unwrap());
    for pair in contacts.windows(2) {
        assert!(pair[0].rank_score >= pair[1].rank_score);
    }
}

#[test]
fn conversations_count_more_than_messages() {
    let mut db = Database::open_memory().unwrap();
    let scan = db.begin_scan("sample.pst").unwrap();
    for (n, (from, to, thread)) in [
        ("ann@x.org", "me@x.org", "a1"),
        ("me@x.org", "ann@x.org", "a1"),
        ("ann@x.org", "me@x.org", "a2"),
        ("bob@x.org", "me@x.org", "b1"),
        ("me@x.org", "bob@x.org", "b1"),
        ("bob@x.org", "me@x.org", "b1"),
    ]
    .iter()
    .enumerate()
    {
        db.insert_message(scan, &mail(&format!("<{n}>"), from, &[to], thread)).unwrap();
    }
    let contacts = db.contacts(&ContactQuery::new(10)).unwrap();
    assert_eq!(emails(&contacts), ["me@x.org", "ann@x.org", "bob@x.org"]);
    assert_eq!(contacts[1].rank_score, contacts[2].rank_score + 6);
}

#[test]
fn a_person_can_turn_out_to_be_something_else_but_not_back() {
    let mut rows = empty_rows();
    rows.domains.push(domain("x.org"));
    rows.contacts.push(contact(1, "person"));
    rows.contacts.push(contact(2, "bulk"));
    rows.addresses.push(address(1, 1, "alerts@x.org"));
    rows.addresses.push(address(2, 2, "ann@x.org"));
    rows.scans.push(scan(5));
    let mut db = Database::from_rows(rows).unwrap();
    db.insert_message(5, &mail("<1>", "alerts@x.org", &["ann@x.org"], "t")).unwrap();
    assert_eq!(db.rows().contacts[0].sender_kind, "automated");
    assert_eq!(db.rows().contacts[1].sender_kind, "bulk");
    assert_eq!(db.rows().contacts[0].message_count, 2);
    assert_eq!(db.rows().messages[0].id, 1);
    assert_eq!(db.rows().messages[0].scan_id, 5);
    assert_eq!(db.rows().messages[0].sender_kind, "automated");
    assert_eq!(db.rows().domains.len(), 1);
}

#[test]
fn recipients_are_listed_once_in_each_part() {
    let mut db = Database::open_memory().unwrap();
    let scan = db.begin_scan("sample.pst").unwrap();
    let message = RawMessage {
        source_id: Some("s".to_string()),
        from: Some(RawAddress::new("ann@x.org")),
        to: vec![RawAddress::new("Bob@y.org"), RawAddress::new("<bob@y.org>"), RawAddress::new("no")],
        cc: vec![RawAddress::new("bob@y.org")],
        ..RawMessage::default()
    };
    assert_eq!(db.insert_message(scan, &message), Ok(true));
    let rows = db.rows();
    assert_eq!(rows.recipients.len(), 2);
    assert_eq!((rows.recipients[0].kind.as_str(), rows.recipients[0].email.as_str()), ("to", "bob@y.org"));
    assert_eq!(rows.recipients[1].kind, "cc");
    assert_eq!(rows.recipients[0].contact_id, Some(2));
    assert_eq!(rows.contacts[1].message_count, 3);
    assert_eq!(rows.messages[0].sender_email.as_deref(), Some("ann@x.org"));
    assert_eq!(rows.messages[0].sender_contact_id, Some(1));
}

#[test]
fn messages_without_sender_are_unknown() {
    let mut db = Database::open_memory().unwrap();
    let scan = db.begin_scan("sample.pst").unwrap();
    assert_eq!(db.insert_message(scan, &RawMessage::default()), Ok(true));
    assert_eq!(db.rows().messages[0].sender_kind, "unknown");
    assert_eq!(db.rows().messages[0].sender_contact_id, None);
}

#[test]
fn a_message_needs_its_scan() {
    let mut db = Database::open_memory().unwrap();
    let message = mail("<1>", "ann@x.org", &[], "t");
    assert_eq!(db.insert_message(1, &message), Err(DbError::UnknownScan));
    assert!(db.rows().contacts.is_empty());
    assert!(db.take_changes().is_empty());
    assert_eq!(DbError::UnknownScan.message(), "FOREIGN KEY constraint failed");
}

#[test]
fn who_sends_bulk_mail_is_filtered() {
    let mut db = Database::open_memory().unwrap();
    let scan = db.begin_scan("sample.pst").unwrap();
    let message = RawMessage {
        internet_message_id: Some("<b@example.com>".to_string()),
        sender: Some(RawAddress::new("alice@example.com")),
        headers: Some("List-Unsubscribe: <mailto:x>".to_string()),
        ..RawMessage::default()
    };
    assert_eq!(db.insert_message(scan, &message), Ok(true));
    assert_eq!(db.contacts(&ContactQuery::new(10)), Ok(vec![]));
    assert_eq!(db.contact_count(&ContactQuery::new(10)), Ok(0));
    assert_eq!(db.rows().contacts[0].sender_kind, "bulk");
    assert_eq!(db.stats().unwrap().filtered_contacts, 1);
}

#[test]
fn who_turns_to_bulk_mail_is_filtered_from_then_on() {
    let mut db = Database::open_memory().unwrap();
    let scan = db.begin_scan("sample.pst").unwrap();
    db.insert_message(scan, &mail("<1>", "ann@x.org", &["bob@y.org"], "t")).unwrap();
    assert_eq!(db.rows().contacts[0].sender_kind, "person");
    let mut bulk = mail("<2>", "ann@x.org", &["bob@y.org"], "t");
    bulk.headers = Some("List-Unsubscribe: <mailto:x>".to_string());
    db.insert_message(scan, &bulk).unwrap();
    assert_eq!(db.rows().contacts[0].sender_kind, "bulk");
    assert_eq!(db.rows().contacts[1].sender_kind, "person");
    db.insert_message(scan, &mail("<3>", "ann@x.org", &["bob@y.org"], "t")).unwrap();
    assert_eq!(db.rows().contacts[0].sender_kind, "bulk");
    assert_eq!(emails(&db.contacts(&ContactQuery::new(10)).unwrap()), ["bob@y.org"]);
}

#[test]
fn no_id_is_given_out_twice() {
    let mut rows = empty_rows();
    rows.scans.push(scan(2));
    rows.ids = LastIds { scans: 9, contacts: 4, addresses: 0, messages: 7 };
    let mut db = Database::from_rows(rows).unwrap();
    assert_eq!(db.begin_scan("x"), Ok(10));
    let message = mail("<1>", "ann@x.org", &[], "t");
    assert_eq!(db.insert_message(10, &message), Ok(true));
    assert_eq!(db.rows().messages[0].id, 8);
    assert_eq!(db.rows().contacts[0].id, 5);
    assert_eq!(db.rows().addresses[0].id, 1);
    assert_eq!(db.insert_message(10, &message), Ok(false));
    assert_eq!(db.insert_message(10, &mail("<2>", "ann@x.org", &[], "t")), Ok(true));
    assert_eq!(db.rows().messages[1].id, 10);
}

#[test]
fn only_what_is_added_needs_room() {
    let mut rows = empty_rows();
    rows.domains.push(domain("x.org"));
    rows.contacts.push(contact(i64::MAX - 1, "person"));
    rows.addresses.push(address(1, i64::MAX - 1, "ann@x.org"));
    rows.scans.push(scan(1));
    let mut db = Database::from_rows(rows).unwrap();
    let known = mail("<1>", "ann@x.org", &["ann@x.org", "Ann@x.org"], "t");
    assert_eq!(db.insert_message(1, &known), Ok(true));
    assert_eq!(db.insert_message(1, &known), Ok(false));
    let two = mail("<2>", "ann@x.org", &["bob@x.org", "cid@x.org"], "t");
    assert_eq!(db.insert_message(1, &two), Err(DbError::Full));
    assert_eq!(db.rows().contacts.len(), 1);
    assert_eq!(db.rows().messages.len(), 1);
    let one = mail("<3>", "bob@x.org", &["bob@x.org", "ann@x.org"], "t");
    assert_eq!(db.insert_message(1, &one), Ok(true));
    assert_eq!(db.rows().contacts[1].id, i64::MAX);
    let unknown_scan = mail("<4>", "ann@x.org", &["bob@x.org"], "t");
    assert_eq!(db.insert_message(2, &unknown_scan), Err(DbError::UnknownScan));
    assert_eq!(db.insert_message(1, &mail("<5>", "dan@x.org", &[], "t")), Err(DbError::Full));
}

#[test]
fn ids_run_out() {
    let mut rows = empty_rows();
    rows.scans.push(scan(i64::MAX));
    rows.messages.push(message_row(i64::MAX, "old"));
    let mut db = Database::from_rows(rows).unwrap();
    assert_eq!(db.begin_scan("x"), Err(DbError::Full));
    assert_eq!(
        db.insert_message(i64::MAX, &mail("<1>", "ann@x.org", &[], "t")),
        Err(DbError::Full)
    );
    assert_eq!(DbError::Full.message(), "database or disk is full");
}

#[test]
fn scans_are_on_record() {
    let mut db = Database::open_memory().unwrap();
    assert_eq!(db.begin_scan("a.pst"), Ok(1));
    assert_eq!(db.begin_scan("b.pst"), Ok(2));
    db.update_scan_progress(1, 7, 5).unwrap();
    db.finish_scan(1, "failed", Some("why")).unwrap();
    db.finish_scan(9, "completed", None).unwrap();
    let scans = &db.rows().scans;
    assert_eq!(scans[0].archive_path, "a.pst");
    assert_eq!(scans[0].status, "failed");
    assert_eq!(scans[0].error.as_deref(), Some("why"));
    assert_eq!((scans[0].messages_seen, scans[0].messages_indexed), (7, 5));
    assert_eq!(scans[1].status, "running");
    assert_eq!(scans[1].finished_at, None);
    for time in [&scans[0].started_at, scans[0].finished_at.as_ref().unwrap(), &scans[1].started_at] {
        assert!(time.len() >= 25 && time.ends_with("+00:00"), "{time}");
        assert!(time.as_str() > "2020");
    }
    assert_eq!(SCHEMA_VERSION, 1);
}

#[test]
fn given_times_are_written() {
    let mut db = Database::open_memory().unwrap();
    let scan = db.begin_scan_at("a.pst", "T0").unwrap();
    db.insert_message_at(scan, &mail("<1>", "ann@x.org", &["bob@y.org"], "t"), "T1").unwrap();
    db.insert_message_at(scan, &mail("<2>", "ann@x.org", &[], "t"), "T2").unwrap();
    db.finish_scan_at(scan, "completed", None, "T3");
    let rows = db.rows();
    assert_eq!(rows.scans[0].started_at, "T0");
    assert_eq!(rows.scans[0].finished_at.as_deref(), Some("T3"));
    assert_eq!(rows.contacts[0].first_seen_at.as_deref(), Some("T1"));
    assert_eq!(rows.contacts[0].last_seen_at.as_deref(), Some("T2"));
    assert_eq!(rows.domains[0].last_seen_at.as_deref(), Some("T2"));
    assert_eq!(rows.domains[1].last_seen_at.as_deref(), Some("T1"));
    assert_eq!(rows.addresses[0].last_seen_at.as_deref(), Some("T1"));
}

#[test]
fn changes_are_listed_until_they_are_taken() {
    let mut db = Database::open_memory().unwrap();
    let scan = db.begin_scan("a.pst").unwrap();
    assert_eq!(db.take_changes(), vec![RowRef::Scan(0)]);
    assert!(db.take_changes().is_empty());
    db.insert_message(scan, &mail("<1>", "ann@x.org", &["bob@y.org"], "t")).unwrap();
    let changes = db.take_changes();
    for row in [
        RowRef::Domain(0),
        RowRef::Domain(1),
        RowRef::Contact(0),
        RowRef::Contact(1),
        RowRef::Address(0),
        RowRef::Address(1),
        RowRef::Message(0),
        RowRef::Recipient(0),
    ] {
        assert!(changes.contains(&row), "{row:?}");
    }
    db.insert_message(scan, &mail("<1>", "ann@x.org", &["bob@y.org"], "t")).unwrap();
    let changes = db.take_changes();
    assert!(changes.contains(&RowRef::Contact(0)));
    assert!(!changes.contains(&RowRef::Contact(1)));
}

#[test]
fn changes_name_rows_only() {
    let mut db = sample();
    let changes = db.take_changes();
    assert!(!changes.is_empty());
    let rows = db.rows();
    for change in changes {
        assert!(match change {
            RowRef::Scan(i) => i < rows.scans.len(),
            RowRef::Domain(i) => i < rows.domains.len(),
            RowRef::Contact(i) => i < rows.contacts.len(),
            RowRef::Address(i) => i < rows.addresses.len(),
            RowRef::Message(i) => i < rows.messages.len(),
            RowRef::Recipient(i) => i < rows.recipients.len(),
        });
    }
}

#[test]
fn an_address_has_one_contact_however_it_is_written() {
    let mut db = Database::open_memory().unwrap();
    let scan = db.begin_scan("sample.pst").unwrap();
    let named = |name: &str, email: &str| RawAddress {
        name: Some(name.to_string()),
        email: email.to_string(),
    };
    let message = RawMessage {
        source_id: Some("s".to_string()),
        from: Some(named("Ann", "ann@x.org")),
        to: vec![named("A.", " <ANN@x.org.> "), named("Bob", "bob@x.org"), named("None", "none")],
        ..RawMessage::default()
    };
    assert_eq!(db.insert_message(scan, &message), Ok(true));
    let contacts = &db.rows().contacts;
    assert_eq!(contacts.len(), 2);
    assert_eq!(contacts[0].display_name.as_deref(), Some("Ann"));
    assert_eq!((contacts[0].message_count, contacts[1].message_count), (2, 1));
    assert_eq!(db.rows().recipients[0].contact_id, Some(contacts[0].id));
    assert_eq!(db.rows().recipients[1].contact_id, Some(contacts[1].id));
}

#[test]
fn contacts_stay_the_same_over_time() {
    let mut db = Database::open_memory().unwrap();
    let scan = db.begin_scan("sample.pst").unwrap();
    let from = |id: &str, name: &str, email: &str| RawMessage {
        source_id: Some(id.to_string()),
        from: Some(RawAddress { name: Some(name.to_string()), email: email.to_string() }),
        ..RawMessage::default()
    };
    db.insert_message(scan, &from("1", "Ann", "ann@x.org")).unwrap();
    db.insert_message(scan, &from("2", "Bob", "bob@y.org")).unwrap();
    db.finish_scan(scan, "completed", None).unwrap();
    let later = db.begin_scan("other.pst").unwrap();
    db.insert_message(later, &from("3", "Cid", "cid@x.org")).unwrap();
    db.insert_message(later, &from("1", "Someone", "ANN@X.ORG")).unwrap();
    let rows = db.rows();
    assert_eq!(rows.contacts.len(), 3);
    let ids: Vec<i64> = rows.addresses.iter().map(|address| address.contact_id).collect();
    assert_eq!(ids, [1, 2, 3]);
    assert_eq!(rows.addresses[0].email, "ann@x.org");
    assert_eq!(rows.contacts[0].display_name.as_deref(), Some("Ann"));
    let counts: Vec<i64> = rows.contacts.iter().map(|contact| contact.message_count).collect();
    assert_eq!(counts, [2, 1, 1]);
}

#[test]
fn numbers_are_bounded() {
    let stats = sample().stats().unwrap();
    assert!(stats.sender_contacts <= stats.contacts);
    assert!(stats.recipient_contacts <= stats.contacts);
    for part in [stats.to_contacts, stats.cc_contacts, stats.bcc_contacts] {
        assert!(part <= stats.recipient_contacts);
    }
    assert!(
        stats.recipient_contacts <= stats.to_contacts + stats.cc_contacts + stats.bcc_contacts
    );
    assert!(stats.attachments_flagged <= stats.messages);
}

fn empty_rows() -> Rows {
    Rows {
        scans: Vec::new(),
        domains: Vec::new(),
        contacts: Vec::new(),
        addresses: Vec::new(),
        messages: Vec::new(),
        recipients: Vec::new(),
        ids: LastIds { scans: 0, contacts: 0, addresses: 0, messages: 0 },
    }
}

fn scan(id: i64) -> ScanRow {
    ScanRow {
        id,
        archive_path: "a".to_string(),
        status: "running".to_string(),
        started_at: "t".to_string(),
        finished_at: None,
        messages_seen: 0,
        messages_indexed: 0,
        malformed_messages: 0,
        error: None,
    }
}

fn domain(name: &str) -> DomainRow {
    DomainRow {
        domain: name.to_string(),
        message_count: 0,
        contact_count: 1,
        first_seen_at: None,
        last_seen_at: None,
    }
}

fn contact(id: i64, kind: &str) -> ContactRow {
    ContactRow {
        id,
        display_name: None,
        sender_kind: kind.to_string(),
        first_seen_at: None,
        last_seen_at: None,
        message_count: 1,
    }
}

fn address(id: i64, contact_id: i64, email: &str) -> AddressRow {
    AddressRow {
        id,
        contact_id,
        email: email.to_string(),
        domain: "x.org".to_string(),
        display_name: None,
        first_seen_at: None,
        last_seen_at: None,
    }
}

fn message_row(id: i64, source: &str) -> MessageRow {
    MessageRow {
        id,
        scan_id: 1,
        source_id: Some(source.to_string()),
        internet_message_id: None,
        conversation_id: None,
        in_reply_to: None,
        reference_ids: None,
        subject: None,
        sent_at: None,
        received_at: None,
        folder_path: None,
        sender_contact_id: None,
        sender_email: None,
        sender_domain: None,
        sender_kind: "unknown".to_string(),
        headers: None,
        size_bytes: None,
        has_attachments: false,
        malformed: 0,
    }
}

fn recipient(message_id: i64, email: &str) -> RecipientRow {
    RecipientRow {
        message_id,
        contact_id: None,
        kind: "to".to_string(),
        email: email.to_string(),
        display_name: None,
        domain: None,
    }
}

#[test]
fn sound_rows_are_taken_back() {
    let db = sample();
    let rows = Rows {
        scans: vec![scan(1)],
        messages: vec![message_row(3, "a"), message_row(7, "b")],
        recipients: vec![recipient(3, "x@y.z"), recipient(3, "w@y.z"), recipient(7, "x@y.z")],
        ..empty_rows()
    };
    let taken = Database::from_rows(rows).unwrap();
    assert_eq!(taken.rows().messages.len(), 2);
    assert_eq!(db.rows().messages.len(), 4);
}

#[test]
fn rows_that_contradict_each_other_are_refused() {
    let twice = |f: fn(&mut Rows)| {
        let mut rows = empty_rows();
        f(&mut rows);
        Database::from_rows(rows).err()
    };
    let bad = Some(DbError::Unsound);
    assert_eq!(twice(|_| ()), None);
    assert_eq!(twice(|r| r.scans = vec![scan(2), scan(2)]), bad);
    assert_eq!(twice(|r| r.scans = vec![scan(-3), scan(0)]), None);
    assert_eq!(twice(|r| r.domains = vec![domain("x"), domain("x")]), bad);
    assert_eq!(twice(|r| r.contacts = vec![contact(2, "p"), contact(1, "p")]), bad);
    assert_eq!(twice(|r| r.addresses = vec![address(1, 1, "a")]), bad);
    assert_eq!(
        twice(|r| {
            r.contacts = vec![contact(1, "p")];
            r.addresses = vec![address(1, 1, "a"), address(2, 1, "a")];
        }),
        bad
    );
    assert_eq!(twice(|r| r.messages = vec![message_row(1, "a"), message_row(2, "a")]), bad);
    assert_eq!(twice(|r| r.recipients = vec![recipient(1, "a")]), bad);
    assert_eq!(
        twice(|r| {
            r.messages = vec![message_row(1, "a"), message_row(3, "b")];
            r.recipients = vec![recipient(2, "a")];
        }),
        bad
    );
    assert_eq!(
        twice(|r| {
            r.messages = vec![message_row(1, "a")];
            r.recipients = vec![recipient(1, "a"), recipient(1, "a")];
        }),
        bad
    );
    assert_eq!(
        DbError::Unsound.message(),
        "the rows of the database contradict each other"
    );
}
