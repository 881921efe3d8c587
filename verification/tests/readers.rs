//! Finding the messages of an archive.
use mailgraph::archive::{
    PffDirectoryArchiveReader, PffExportArchiveReader, RawAddress, Rfc822ArchiveReader,
};
use mailgraph::readers::{
    check_export, collect_message_files, collect_pff_message_dirs, ExportRun, FileSearch,
    FoundPath, Listed, PffContents, PffSearch, ReaderError,
};

fn path(name: &str) -> FoundPath {
    FoundPath { name: name.as_bytes().to_vec(), shown: name.to_string() }
}

fn shown(paths: &[FoundPath]) -> Vec<&str> {
    paths.iter().map(|p| p.shown.as_str()).collect()
}

fn entry(name: &str, is_dir: bool, extension: Option<&str>) -> Listed {
    Listed { path: path(name), is_dir, extension: extension.map(str::to_string) }
}

fn search() -> FileSearch {
    let mut search = FileSearch::start(path("mail"), false);
    assert_eq!(search.next(), Some(path("mail")));
    search.add(vec![
        entry("mail/b.eml", false, Some("eml")),
        entry("mail/sub", true, None),
        entry("mail/photo.jpg", false, Some("jpg")),
        entry("mail/sub.txt", false, Some("txt")),
        entry("mail/README", false, None),
    ]);
    assert_eq!(search.next(), Some(path("mail/sub")));
    search.add(vec![
        entry("mail/sub/z.Message", false, Some("Message")),
        entry("mail/sub/a.email", false, Some("email")),
    ]);
    assert_eq!(search.next(), None);
    search
}

#[test]
fn message_files_are_read_in_path_order() {
    let mut expected: Vec<std::path::PathBuf> = [
        "mail/b.eml",
        "mail/sub.txt",
        "mail/README",
        "mail/sub/z.Message",
        "mail/sub/a.email",
    ]
    .iter()
    .map(std::path::PathBuf::from)
    .collect();
    expected.sort();
    let files = collect_message_files(search());
    assert_eq!(
        shown(&files),
        expected.iter().map(|p| p.to_str().unwrap()).collect::<Vec<_>>()
    );
    assert_eq!(
        shown(&files),
        [
            "mail/README",
            "mail/b.eml",
            "mail/sub/a.email",
            "mail/sub/z.Message",
            "mail/sub.txt",
        ]
    );
}

#[test]
fn the_order_of_the_disk_does_not_matter() {
    let listed = |names: &[&str]| {
        let mut search = FileSearch::start(path("m"), false);
        search.next();
        search.add(names.iter().map(|name| entry(name, false, None)).collect());
        collect_message_files(search)
    };
    let one = listed(&["m/a", "m/a.b", "m/c", "m/a/b", "m/B"]);
    let other = listed(&["m/a/b", "m/c", "m/B", "m/a.b", "m/a"]);
    assert_eq!(one, other);
    assert_eq!(shown(&one), ["m/B", "m/a", "m/a/b", "m/a.b", "m/c"]);
}

#[test]
fn a_single_file_is_the_archive() {
    let search = FileSearch::start(path("one.pdf"), true);
    assert_eq!(shown(&collect_message_files(search)), ["one.pdf"]);
}

#[test]
fn mail_files_become_messages() {
    let reader = Rfc822ArchiveReader::open(path("mail"), Ok(search())).unwrap();
    assert_eq!(reader.archive_path().shown, "mail");
    assert_eq!(reader.messages(), 5);
    assert_eq!(reader.file(1).shown, "mail/b.eml");
    let message = reader
        .message(1, Some("in".to_string()), Some(b"From: a@b.c\n\n".to_vec()))
        .unwrap();
    assert_eq!(message.source_id.as_deref(), Some("mail/b.eml"));
    assert_eq!(message.folder_path.as_deref(), Some("in"));
    assert_eq!(message.from, Some(RawAddress::new("a@b.c")));
    assert_eq!(reader.message(1, None, None), Err("failed to parse mail/b.eml".to_string()));
}

#[test]
fn archives_that_cannot_be_opened() {
    let error = Rfc822ArchiveReader::open(path(""), Ok(search())).unwrap_err();
    assert_eq!(error, ReaderError::EmptyArchivePath);
    assert_eq!(error.message(), "archive path cannot be empty");
    let error = Rfc822ArchiveReader::open(path("x"), Err("failed to read x".to_string())).unwrap_err();
    assert_eq!(error, ReaderError::Unreadable("failed to read x".to_string()));
    assert_eq!(error.message(), "failed to read x");
    let error = PffDirectoryArchiveReader::open(path(""), Ok(pff_search())).unwrap_err();
    assert_eq!(error.message(), "export path cannot be empty");
    let error = PffDirectoryArchiveReader::open(path("e"), Ok(PffSearch::start(Vec::new()))).unwrap_err();
    assert_eq!(error.message(), "no exported pff message directories were found under e");
    let error = PffDirectoryArchiveReader::open(path("e"), Err("gone".to_string())).unwrap_err();
    assert_eq!(error.message(), "gone");
    let error = PffExportArchiveReader::open(path("")).unwrap_err();
    assert_eq!(error, ReaderError::EmptyArchivePath);
}

fn pff_search() -> PffSearch {
    let mut search = PffSearch::start(vec![path("e.orphans"), path("e.export")]);
    assert_eq!(search.next(), Some(path("e.export")));
    assert!(search.visit(path("e.export"), false, false));
    search.add(vec![
        entry("e.export/Message2", true, None),
        entry("e.export/notes.txt", false, Some("txt")),
        entry("e.export/Message1", true, None),
    ]);
    assert_eq!(search.next(), Some(path("e.export/Message1")));
    assert!(!search.visit(path("e.export/Message1"), true, false));
    assert_eq!(search.next(), Some(path("e.export/Message2")));
    assert!(!search.visit(path("e.export/Message2"), false, true));
    assert_eq!(search.next(), Some(path("e.orphans")));
    assert!(!search.visit(path("e.orphans"), true, true));
    assert_eq!(search.next(), None);
    search
}

#[test]
fn message_directories_are_found() {
    assert_eq!(
        shown(&collect_pff_message_dirs(pff_search())),
        ["e.export/Message1", "e.export/Message2", "e.orphans"]
    );
    let reader = PffDirectoryArchiveReader::open(path("e.export"), Ok(pff_search())).unwrap();
    assert_eq!(reader.archive_path().shown, "e.export");
    assert_eq!(reader.messages(), 3);
    assert_eq!(reader.dir(1).shown, "e.export/Message2");
    let message = reader.message(1, contents());
    assert_eq!(message.source_id.as_deref(), Some("e.export/Message2"));
    assert_eq!(message.subject.as_deref(), Some("S"));
    assert_eq!(message.folder_path, None);
    assert!(message.has_attachments);
}

fn contents() -> PffContents {
    PffContents {
        folder: None,
        internet_headers: None,
        outlook_headers: Some("Subject: S\n".to_string()),
        recipients: None,
        has_attachments: true,
    }
}

#[test]
fn an_archive_is_exported_once() {
    let mut reader = PffExportArchiveReader::open(path("a.pst")).unwrap();
    assert_eq!(reader.archive_path().shown, "a.pst");
    assert!(reader.needs_export());
    assert_eq!(reader.messages(), 0);
    let run = || ExportRun::Ended { success: true, status: "exit status: 0".to_string(), stderr: Vec::new() };
    let error = reader.ensure_exported(run(), "/tmp/t", Ok(PffSearch::start(Vec::new()))).unwrap_err();
    assert_eq!(
        error.message(),
        "pffexport completed, but no exported message directories were found under /tmp/t"
    );
    let error = reader.ensure_exported(run(), "/tmp/t", Err("failed to read".to_string())).unwrap_err();
    assert_eq!(error.message(), "failed to read");
    assert!(reader.needs_export());
    reader.ensure_exported(run(), "/tmp/t", Ok(pff_search())).unwrap();
    assert!(!reader.needs_export());
    assert_eq!(reader.messages(), 3);
    assert_eq!(reader.dir(2).shown, "e.orphans");
    assert_eq!(reader.message(0, contents()).subject.as_deref(), Some("S"));
    reader.ensure_exported(ExportRun::Missing, "/tmp/t", Ok(PffSearch::start(Vec::new()))).unwrap();
    assert_eq!(reader.messages(), 3);
}

#[test]
fn export_runs_that_fail() {
    assert_eq!(
        check_export(ExportRun::Missing).unwrap_err().message(),
        "pffexport is required for PST/OST scans. Install it with: sudo apt install pff-tools"
    );
    assert_eq!(
        check_export(ExportRun::NotStarted("denied".to_string())).unwrap_err().message(),
        "denied"
    );
    let failed = ExportRun::Ended {
        success: false,
        status: "exit status: 1".to_string(),
        stderr: b" bad \xff archive\n".to_vec(),
    };
    assert_eq!(
        check_export(failed).unwrap_err().message(),
        "pffexport failed with status exit status: 1: bad \u{fffd} archive"
    );
}
