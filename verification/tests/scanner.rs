//! Scanning archives.
use mailgraph::archive::{ArchiveReader, RawAddress, RawMessage, VecArchiveReader};
use mailgraph::db::{Database, DbError};
use mailgraph::scanner::{accept_at, begin, conclude, scan_archive, ScanError, ScanSummary};

#[test]
fn scans_messages_through_reader_trait() {
    let mut db = Database::open_memory().unwrap();
    let mut reader = VecArchiveReader::new(vec![RawMessage {
        internet_message_id: Some("<scan-test@example.com>".to_string()),
        sender: Some(RawAddress::new("alice@example.com")),
        to: vec![RawAddress::new("bob@example.org")],
        ..RawMessage::default()
    }]);

    let summary = scan_archive(&mut db, &mut reader).unwrap();

    assert_eq!(summary.messages_seen, 1);
    assert_eq!(summary.messages_indexed, 1);
    assert_eq!(summary.messages_already_indexed, 0);
    assert_eq!(db.stats().unwrap().messages, 1);
}

fn message(n: usize) -> RawMessage {
    RawMessage {
        internet_message_id: Some(format!("<{n}>")),
        sender: Some(RawAddress::new("alice@example.com")),
        ..RawMessage::default()
    }
}

/// A reader of numbered messages, of which every third is malformed.
struct Numbered {
    count: usize,
    refused: bool,
}

impl ArchiveReader for Numbered {
    fn archive_path(&self) -> String {
        "numbered.pst".to_string()
    }

    fn messages(&mut self) -> Result<(), String> {
        if self.refused {
            Err("no such archive".to_string())
        } else {
            Ok(())
        }
    }

    fn message_count(&self) -> usize {
        self.count
    }

    fn message(&self, index: usize) -> Result<RawMessage, String> {
        if index % 3 == 2 {
            Err("malformed".to_string())
        } else {
            Ok(message(index))
        }
    }
}

#[test]
fn scanning_again_finds_everything_there() {
    let mut db = Database::open_memory().unwrap();
    let mut reader = Numbered { count: 10, refused: false };
    let first = scan_archive(&mut db, &mut reader).unwrap();
    assert_eq!(
        first,
        ScanSummary {
            scan_id: 1,
            messages_seen: 10,
            messages_indexed: 7,
            messages_already_indexed: 0,
            malformed_messages: 3,
        }
    );
    let again = scan_archive(&mut db, &mut reader).unwrap();
    assert_eq!(again.scan_id, 2);
    assert_eq!(again.messages_indexed, 0);
    assert_eq!(again.messages_already_indexed, 7);
    assert_eq!(again.malformed_messages, 3);
    assert_eq!(db.stats().unwrap().messages, 7);
    let scans = &db.rows().scans;
    assert_eq!(scans[0].archive_path, "numbered.pst");
    assert_eq!(scans[0].status, "completed");
    assert_eq!((scans[0].messages_seen, scans[0].messages_indexed), (10, 7));
    assert_eq!(scans[0].error, None);
    assert_eq!(scans[0].malformed_messages, 0);
    assert_eq!((scans[1].messages_seen, scans[1].messages_indexed), (10, 0));
}

#[test]
fn an_archive_that_cannot_be_read_fails_the_scan() {
    let mut db = Database::open_memory().unwrap();
    let mut reader = Numbered { count: 0, refused: true };
    let error = scan_archive(&mut db, &mut reader).unwrap_err();
    assert_eq!(error, ScanError::Reader("no such archive".to_string()));
    assert_eq!(error.message(), "no such archive");
    assert_eq!(db.rows().scans[0].status, "failed");
    assert_eq!(db.rows().scans[0].error.as_deref(), Some("no such archive"));
    assert!(db.rows().scans[0].finished_at.is_some());
}

#[test]
fn progress_is_noted_now_and_then() {
    let mut db = Database::open_memory().unwrap();
    let mut summary = begin(&mut db, "a.pst").unwrap();
    for n in 0..499 {
        accept_at(&mut db, &mut summary, &Ok(message(n)), "T").unwrap();
    }
    assert_eq!(db.rows().scans[0].messages_seen, 0);
    accept_at(&mut db, &mut summary, &Err("bad".to_string()), "T").unwrap();
    assert_eq!(db.rows().scans[0].messages_seen, 500);
    assert_eq!(db.rows().scans[0].messages_indexed, 499);
    accept_at(&mut db, &mut summary, &Ok(message(0)), "T").unwrap();
    assert_eq!(summary.messages_already_indexed, 1);
    assert_eq!(db.rows().scans[0].messages_seen, 500);
    let end = conclude(&mut db, summary, Ok(())).unwrap();
    assert_eq!(end, summary);
    assert_eq!(db.rows().scans[0].messages_seen, 501);
}

#[test]
fn a_failure_to_write_is_on_record() {
    let mut db = Database::open_memory().unwrap();
    let mut summary = begin(&mut db, "a.pst").unwrap();
    summary.scan_id = 99;
    let refused = accept_at(&mut db, &mut summary, &Ok(message(0)), "T");
    assert_eq!(refused, Err(DbError::UnknownScan));
    assert_eq!(summary.messages_seen, 0);
    summary.scan_id = 1;
    let end = conclude(&mut db, summary, Err(ScanError::Database(DbError::UnknownScan)));
    assert_eq!(end, Err(ScanError::Database(DbError::UnknownScan)));
    assert_eq!(db.rows().scans[0].error.as_deref(), Some("FOREIGN KEY constraint failed"));
    let full = ScanError::Store("disk full".to_string());
    assert_eq!(full.message(), "disk full");
    assert!(conclude(&mut db, summary, Err(full)).is_err());
    assert_eq!(db.rows().scans[0].error.as_deref(), Some("disk full"));
}

#[test]
fn messages_at_hand_are_read_in_turn() {
    let mut reader = VecArchiveReader::new(vec![message(0), message(1)]);
    assert_eq!(reader.archive_path(), "test.pst");
    assert_eq!(reader.messages(), Ok(()));
    assert_eq!(reader.message_count(), 2);
    assert_eq!(reader.message(1), Ok(message(1)));
    assert!(reader.message(2).is_err());
}
