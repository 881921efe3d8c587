//! Paths as the disk has them.
use std::path::Path;

use mailgraph::paths::{extension_of, folder_of, make_absolute, text_of};
use mailgraph::readers::{FoundPath, Listed};

fn path(name: &str) -> FoundPath {
    FoundPath { name: name.as_bytes().to_vec(), shown: name.to_string() }
}

#[test]
fn extensions_are_those_of_the_last_name() {
    for name in [
        "mail/a.eml",
        "mail/a.b.TXT",
        "mail.d/README",
        "mail/.profile",
        "mail/.profile.txt",
        "mail/a.",
        "a",
        "..",
        "...",
        ".a.b",
    ] {
        let expected = Path::new(name).extension().map(|e| e.to_str().unwrap().to_string());
        assert_eq!(extension_of(name.as_bytes()), expected, "{name}");
    }
    assert_eq!(extension_of(b"a.eml"), Some("eml".to_string()));
    assert_eq!(extension_of(b"a.\xff"), None);
    assert_eq!(extension_of("a.\u{e9}".as_bytes()), Some("\u{e9}".to_string()));
    let listed = Listed::new(path("m/a.email"), false);
    assert_eq!(listed.extension.as_deref(), Some("email"));
    assert_eq!(listed.path, path("m/a.email"));
}

#[test]
fn folders_are_told_from_the_root() {
    for (name, root) in [
        ("mail/a.eml", "mail"),
        ("mail/in/a.eml", "mail"),
        ("mail/in/old/a.eml", "mail"),
        ("mail/in/a.eml", "mail/"),
        ("./in/a.eml", "."),
        ("/in/a.eml", "/"),
        ("mail", "mail"),
        ("mailbox/a.eml", "mail"),
        ("other/a.eml", "mail"),
    ] {
        let expected = Path::new(name)
            .parent()
            .and_then(|parent| parent.strip_prefix(root).ok())
            .map(|folder| folder.display().to_string());
        assert_eq!(folder_of(&path(name), &path(root)), expected, "{name} {root}");
    }
    assert_eq!(folder_of(&path("mail/in/old/a"), &path("mail")), Some("in/old".to_string()));
    let odd = FoundPath { name: b"m/\xff/a".to_vec(), shown: String::new() };
    assert_eq!(folder_of(&odd, &path("m")), Some("\u{fffd}".to_string()));
}

#[test]
fn paths_are_made_absolute() {
    for (name, dir) in [("a/b", "/home"), ("a", "/"), ("/a", "/home"), ("", "/home"), ("a", "/home/")] {
        let expected = Path::new(dir).join(name).to_str().unwrap().as_bytes().to_vec();
        assert_eq!(
            make_absolute(name.as_bytes().to_vec(), Some(dir.as_bytes().to_vec())),
            Some(expected),
            "{name} {dir}"
        );
    }
    assert_eq!(make_absolute(b"a".to_vec(), None), None);
    assert_eq!(make_absolute(b"/a".to_vec(), None), Some(b"/a".to_vec()));
}

#[test]
fn text_is_told_from_other_bytes() {
    assert_eq!(text_of("gr\u{fc}n".as_bytes()), Some("gr\u{fc}n".to_string()));
    assert_eq!(text_of(b"a\xc3"), None);
    assert_eq!(text_of(b""), Some(String::new()));
}
