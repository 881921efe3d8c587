//! From the command line to what is told.
use mailgraph::archive::{RawAddress, RawMessage};
use mailgraph::cli::{
    build_contact_query, is_valid_contact_kind, normalize_filter_list, normalize_optional_filter,
    CliError, ContactsArgs,
};
use mailgraph::columns::{
    contacts_csv, full_contact_columns, parse_contact_column, parse_contact_columns,
    resolve_csv_columns, ContactColumn,
};
use mailgraph::csv::read_rows;
use mailgraph::db::{ContactQuery, ContactSummary, Database, Stats};
use mailgraph::places::{
    current_db_pointer_path, generated_db_path, note_of, read_current_db,
    resolve_existing_db_path, resolve_scan_db_path, PlaceError,
};
use mailgraph::reports::{
    contact_filter_labels, contacts_human, contacts_report, contacts_summary, format_duration,
    scan_report, stats_report,
};
use mailgraph::scanner::ScanSummary;

fn args() -> ContactsArgs {
    ContactsArgs {
        limit: 50,
        all: false,
        include_filtered: false,
        kind: None,
        exclude_kind: Vec::new(),
        domain: None,
        domain_contains: Vec::new(),
        exclude_email: Vec::new(),
        exclude_email_contains: Vec::new(),
        exclude_domain: Vec::new(),
        exclude_domain_contains: Vec::new(),
        role: None,
        csv: false,
        columns: None,
        preset: None,
    }
}

fn strings(parts: &[&str]) -> Vec<String> {
    parts.iter().map(|p| p.to_string()).collect()
}

fn text(s: &str) -> Option<String> {
    Some(s.to_string())
}

fn refused(args: ContactsArgs) -> String {
    build_contact_query(&args).unwrap_err().message()
}

#[test]
fn queries_are_built_from_arguments() {
    assert_eq!(build_contact_query(&args()), Ok(ContactQuery::new(50)));
    assert_eq!(
        build_contact_query(&ContactsArgs {
            kind: text(" Bulk "),
            exclude_kind: strings(&["person, invalid", "Bulk"]),
            domain: text(" Example.COM "),
            exclude_email: strings(&["A@b.c"]),
            exclude_email_contains: strings(&["noreply,no-reply", " x "]),
            exclude_domain: strings(&["github.com", "atlassian.net"]),
            exclude_domain_contains: strings(&[",", "shop"]),
            role: text("CC"),
            ..args()
        }),
        Ok(ContactQuery {
            limit: 50,
            include_filtered: true,
            kind: text("bulk"),
            exclude_kinds: text("person,invalid,bulk"),
            domain: text("example.com"),
            role: text("cc"),
            domain_contains: None,
            exclude_emails: text("a@b.c"),
            exclude_email_contains: text("noreply,no-reply,x"),
            exclude_domains: text("github.com,atlassian.net"),
            exclude_domain_contains: text("shop"),
        })
    );
    assert_eq!(
        build_contact_query(&ContactsArgs { all: true, limit: 0, ..args() }),
        Ok(ContactQuery { include_filtered: true, ..ContactQuery::new(100_000) })
    );
    assert_eq!(
        build_contact_query(&ContactsArgs { domain: text(" "), domain_contains: strings(&["X"]), ..args() }),
        Ok(ContactQuery { domain_contains: text("x"), ..ContactQuery::new(50) })
    );
}

#[test]
fn queries_that_make_no_sense_are_refused() {
    assert_eq!(refused(ContactsArgs { limit: 0, ..args() }), "--limit must be at least 1");
    assert_eq!(
        refused(ContactsArgs { kind: text("Robot"), ..args() }),
        "unknown contact kind 'robot'. Expected one of: person, no_reply, bulk, newsletter, promotional, automated, invalid"
    );
    assert_eq!(
        refused(ContactsArgs { exclude_kind: strings(&["bulk,Robot,other"]), ..args() }),
        "unknown excluded contact kind 'robot'. Expected one of: person, no_reply, bulk, newsletter, promotional, automated, invalid"
    );
    assert_eq!(
        refused(ContactsArgs { domain: text("a.b"), domain_contains: strings(&["c"]), ..args() }),
        "use either --domain or --domain-contains, not both"
    );
    assert_eq!(
        refused(ContactsArgs { role: text("boss"), ..args() }),
        "unknown contact role 'boss'. Expected one of: sender, recipient, to, cc, bcc"
    );
    assert_eq!(
        build_contact_query(&ContactsArgs { limit: -1, kind: text("robot"), ..args() }),
        Err(CliError::BadLimit)
    );
}

#[test]
fn words_and_lists_are_normalized() {
    assert_eq!(normalize_optional_filter(Some(" AbC ")), text("abc"));
    assert_eq!(normalize_optional_filter(Some("  ")), None);
    assert_eq!(normalize_optional_filter(None), None);
    assert_eq!(normalize_filter_list(&strings(&[" A ,,b", "C"])), text("a,b,c"));
    assert_eq!(normalize_filter_list(&strings(&["", " , "])), None);
    for kind in ["person", "no_reply", "bulk", "newsletter", "promotional", "automated", "invalid"] {
        assert!(is_valid_contact_kind(kind));
    }
    assert!(!is_valid_contact_kind("Person"));
    assert!(!is_valid_contact_kind(""));
}

#[test]
fn columns_have_names_and_aliases() {
    for column in full_contact_columns() {
        assert_eq!(parse_contact_column(column.canonical_name()), Ok(column));
    }
    for (alias, column) in [
        ("Name", ContactColumn::DisplayName),
        ("display-name", ContactColumn::DisplayName),
        ("sender_kind", ContactColumn::Kind),
        ("sender-kind", ContactColumn::Kind),
        ("message_count", ContactColumn::Messages),
        ("message-count", ContactColumn::Messages),
        ("sent_count", ContactColumn::Sent),
        ("sent-count", ContactColumn::Sent),
        ("direct", ContactColumn::To),
        ("direct_count", ContactColumn::To),
        ("direct-count", ContactColumn::To),
        ("cc_count", ContactColumn::Cc),
        ("cc-count", ContactColumn::Cc),
        ("bcc_count", ContactColumn::Bcc),
        ("bcc-count", ContactColumn::Bcc),
        ("conversation_count", ContactColumn::Conversations),
        ("conversation-count", ContactColumn::Conversations),
        ("rank-score", ContactColumn::RankScore),
        (" score ", ContactColumn::RankScore),
    ] {
        assert_eq!(parse_contact_column(alias), Ok(column));
    }
    assert_eq!(
        parse_contact_columns("email, name ,SCORE"),
        Ok(vec![ContactColumn::Email, ContactColumn::DisplayName, ContactColumn::RankScore])
    );
    let error = parse_contact_columns("email,,phone").unwrap_err();
    assert_eq!(error, CliError::EmptyColumn);
    assert_eq!(error.message(), "empty CSV column name");
    let error = parse_contact_columns("email,Phone").unwrap_err();
    assert_eq!(
        error.message(),
        "unknown CSV column 'phone'. Expected columns: email, display_name, domain, kind, messages, sent, to, cc, bcc, conversations, rank_score"
    );
}

#[test]
fn columns_come_from_presets() {
    assert_eq!(resolve_csv_columns(None, None), Ok(full_contact_columns()));
    assert_eq!(resolve_csv_columns(None, Some(" Full ")), Ok(full_contact_columns()));
    let book = vec![
        ContactColumn::Email,
        ContactColumn::DisplayName,
        ContactColumn::Domain,
        ContactColumn::Kind,
    ];
    assert_eq!(resolve_csv_columns(None, Some("address-book")), Ok(book.clone()));
    assert_eq!(resolve_csv_columns(None, Some("address_book")), Ok(book));
    assert_eq!(resolve_csv_columns(None, Some("ranked")).unwrap().len(), 7);
    assert_eq!(resolve_csv_columns(Some("to"), None), Ok(vec![ContactColumn::To]));
    let error = resolve_csv_columns(Some("to"), Some("full")).unwrap_err();
    assert_eq!(error.message(), "use either --columns or --preset, not both");
    let error = resolve_csv_columns(None, Some("Other")).unwrap_err();
    assert_eq!(
        error.message(),
        "unknown CSV preset 'other'. Expected one of: address-book, ranked, full"
    );
}

fn ann() -> ContactSummary {
    ContactSummary {
        display_name: text("Ann, \"A\""),
        email: "ann@x.org".to_string(),
        domain: "x.org".to_string(),
        sender_kind: "person".to_string(),
        message_count: 9,
        sent_count: 1,
        direct_count: 2,
        cc_count: 3,
        bcc_count: 4,
        conversation_count: 5,
        rank_score: -6,
    }
}

#[test]
fn contacts_are_written_as_csv() {
    let bob = ContactSummary { display_name: None, email: "bob@x.org".to_string(), ..ann() };
    assert_eq!(
        contacts_csv(&vec![ann(), bob], &full_contact_columns()),
        "email,display_name,domain,kind,messages,sent,to,cc,bcc,conversations,rank_score\nann@x.org,\"Ann, \"\"A\"\"\",x.org,person,9,1,2,3,4,5,-6\nbob@x.org,,x.org,person,9,1,2,3,4,5,-6\n"
    );
    assert_eq!(contacts_csv(&Vec::new(), &vec![ContactColumn::Email]), "email\n");
    assert_eq!(
        read_rows(&contacts_csv(&vec![ann()], &vec![ContactColumn::DisplayName, ContactColumn::To])),
        Ok(vec![strings(&["display_name", "to"]), strings(&["Ann, \"A\"", "2"])])
    );
}

#[test]
fn contacts_are_written_as_lines() {
    let bob = ContactSummary { display_name: None, email: "bob@x.org".to_string(), ..ann() };
    assert_eq!(
        contacts_human(&vec![ann(), bob]),
        "ann@x.org\tAnn, \"A\"\tx.org\tperson\tmessages=9\tsent=1\tto=2\tcc=3\tbcc=4\tconversations=5\tscore=-6\nbob@x.org\t-\tx.org\tperson\tmessages=9\tsent=1\tto=2\tcc=3\tbcc=4\tconversations=5\tscore=-6\n"
    );
}

#[test]
fn filters_are_labelled() {
    assert_eq!(contact_filter_labels(&ContactQuery::new(1)), ["valid_only=true"]);
    let query = ContactQuery {
        limit: 7,
        include_filtered: true,
        kind: text("a"),
        exclude_kinds: text("b"),
        domain: text("c"),
        role: text("d"),
        domain_contains: text("e"),
        exclude_emails: text("f"),
        exclude_email_contains: text("g"),
        exclude_domains: text("h"),
        exclude_domain_contains: text("i"),
    };
    assert_eq!(
        contacts_summary(&query, 3, 12),
        "Contacts matched: 12\nContacts listed: 3\nLimit: 7\nFilters: include_filtered=true, kind=a, exclude_kind=b, domain=c, domain_contains=e, role=d, exclude_email=f, exclude_email_contains=g, exclude_domain=h, exclude_domain_contains=i\n\n"
    );
    assert_eq!(query.clone(), query);
}

fn sample() -> Database {
    let mut db = Database::open_memory().unwrap();
    let scan = db.begin_scan("a.pst").unwrap();
    let message = RawMessage {
        source_id: text("1"),
        subject: text("s"),
        sender: Some(RawAddress { name: text("Ann"), email: "ann@x.org".to_string() }),
        to: vec![RawAddress::new("noreply@y.org")],
        ..RawMessage::default()
    };
    db.insert_message(scan, &message).unwrap();
    db
}

#[test]
fn contacts_are_told_as_asked_for() {
    let db = sample();
    assert_eq!(
        contacts_report(&db, &args()).unwrap(),
        "Contacts matched: 1\nContacts listed: 1\nLimit: 50\nFilters: valid_only=true\n\nann@x.org\tAnn\tx.org\tperson\tmessages=1\tsent=1\tto=0\tcc=0\tbcc=0\tconversations=1\tscore=10\n"
    );
    assert_eq!(
        contacts_report(&db, &ContactsArgs { role: text("cc"), ..args() }).unwrap(),
        "Contacts matched: 0\nContacts listed: 0\nLimit: 50\nFilters: valid_only=true, role=cc\n\nNo contacts matched.\n"
    );
    assert_eq!(
        contacts_report(
            &db,
            &ContactsArgs { all: true, csv: true, columns: text("email,score"), ..args() }
        )
        .unwrap(),
        "email,rank_score\nann@x.org,10\nnoreply@y.org,-991\n"
    );
    assert_eq!(
        contacts_report(&db, &ContactsArgs { csv: true, preset: text("x"), ..args() }),
        Err(CliError::UnknownPreset("x".to_string()))
    );
    assert_eq!(
        contacts_report(&db, &ContactsArgs { csv: true, preset: text("x"), limit: 0, ..args() }),
        Err(CliError::BadLimit)
    );
    assert!(contacts_report(&db, &ContactsArgs { preset: text("x"), ..args() }).is_ok());
}

#[test]
fn durations_are_told_in_words() {
    assert_eq!(format_duration(0, 0), "0ms");
    assert_eq!(format_duration(0, 999), "999ms");
    assert_eq!(format_duration(1, 5), "1.005s");
    assert_eq!(format_duration(59, 120), "59.120s");
    assert_eq!(format_duration(60, 1), "1m 0s");
    assert_eq!(format_duration(3599, 0), "59m 59s");
    assert_eq!(format_duration(3600, 0), "1h 0m 0s");
    assert_eq!(format_duration(90061, 0), "25h 1m 1s");
}

#[test]
fn scans_are_reported() {
    let summary = ScanSummary {
        scan_id: 4,
        messages_seen: 10,
        messages_indexed: 7,
        messages_already_indexed: 2,
        malformed_messages: 1,
    };
    assert_eq!(
        scan_report(&summary, "/tmp/a.sqlite", 61, 0),
        "Mailgraph scan complete\nDatabase: /tmp/a.sqlite\nElapsed: 1m 1s\nScan ID: 4\nMessages seen: 10\nMessages indexed: 7\nAlready indexed: 2\nMalformed messages: 1\n\nNext commands:\n1. cargo run -- stats\n2. cargo run -- contacts --all\n3. cargo run -- contacts --all --csv --preset address-book > all-contacts.csv\n"
    );
}

#[test]
fn statistics_are_reported() {
    let tail = "\nUseful exports:\n  cargo run -- contacts --csv --preset address-book > valid-contacts.csv\n  cargo run -- contacts --all --csv --preset address-book > all-contacts.csv\n  cargo run -- contacts --role cc --all --csv --preset address-book > cc-contacts.csv\n";
    assert_eq!(
        stats_report(&sample().stats().unwrap()),
        format!("scans: 1\nmessages: 1\ndomains: 2\nmessages_with_attachments: 0\n\ncontacts_total: 2\ncontacts_valid: 1\ncontacts_filtered: 1\ncontacts_as_senders: 1\ncontacts_as_recipients: 1\ncontacts_to: 1\ncontacts_cc: 0\ncontacts_bcc: 0\n\ncontacts_by_kind:\n  no_reply: 1\n  person: 1\n{tail}")
    );
    let empty: Stats = Database::open_memory().unwrap().stats().unwrap();
    assert!(stats_report(&empty).ends_with(&format!("contacts_bcc: 0\n{tail}")));
}

#[test]
fn indexes_are_found_again() {
    assert_eq!(generated_db_path(Some("sample")), "sample.mailgraph.sqlite");
    assert_eq!(generated_db_path(Some("")), "mailgraph.mailgraph.sqlite");
    assert_eq!(generated_db_path(None), "mailgraph.mailgraph.sqlite");
    assert_eq!(current_db_pointer_path(), ".mailgraph/current-db");
    assert_eq!(read_current_db("/a/b.sqlite\n"), text("/a/b.sqlite"));
    assert_eq!(read_current_db(" \n"), None);
    let bytes = |path: &str| Some(path.as_bytes().to_vec());
    let here = bytes("/home/ann");
    assert_eq!(
        resolve_scan_db_path(Some("a"), bytes("/x/y.sqlite"), None).ok(),
        bytes("/x/y.sqlite")
    );
    assert_eq!(
        resolve_scan_db_path(Some("a"), bytes("y.sqlite"), here.clone()).ok(),
        bytes("/home/ann/y.sqlite")
    );
    let scanned = resolve_scan_db_path(Some("a"), None, here.clone()).unwrap();
    assert_eq!(Some(scanned.clone()), bytes("/home/ann/a.mailgraph.sqlite"));
    assert_eq!(resolve_scan_db_path(Some("a"), None, bytes("/")).ok(), bytes("/a.mailgraph.sqlite"));
    let note = note_of(&scanned);
    assert_eq!(note, "/home/ann/a.mailgraph.sqlite");
    assert_eq!(resolve_existing_db_path(None, Some(&note), bytes("/tmp")), Ok(scanned.clone()));
    assert_eq!(resolve_existing_db_path(None, Some(&note), None), Ok(scanned));
    assert_eq!(
        resolve_existing_db_path(bytes("q"), Some(&note), here.clone()).ok(),
        bytes("/home/ann/q")
    );
    let fixed = bytes("/home/ann/mailgraph.sqlite");
    assert_eq!(resolve_existing_db_path(None, Some(""), here.clone()).ok(), fixed);
    assert_eq!(resolve_existing_db_path(None, None, here).ok(), fixed);
    let lost = resolve_existing_db_path(None, None, None).unwrap_err();
    assert_eq!(lost, PlaceError::NoCurrentDir);
    assert_eq!(lost.message(), "failed to determine current directory");
    assert_eq!(resolve_scan_db_path(None, None, None), Err(lost));
    assert_eq!(note_of(b"/a\xff"), "/a\u{fffd}");
}
