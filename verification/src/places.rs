//! Where the index is kept.
use vstd::prelude::*;
use vstd::utf8::{encode_utf8, valid_utf8};

use crate::archive::{decode_lossy, lossy_text};
use crate::paths::{
    absolute, bytes_of, is_absolute, law_absolute_is_absolute, make_absolute, opt_bytes,
};
use crate::text::{glue, opt_str, opt_text, trim, trimmed};

verus! {

/// The directory that the place of the last index is noted in.
pub const POINTER_DIR: &'static str = ".mailgraph";

/// The file that the place of the last index is noted in.
pub const POINTER_FILE: &'static str = "current-db";

/// The path of the file that the place of the last index is noted in.
pub open spec fn pointer_path() -> Seq<char> {
    POINTER_DIR@ + "/"@ + POINTER_FILE@
}

/// The path of the file that the place of the last index is noted in.
pub fn current_db_pointer_path() -> (r: String)
    ensures
        r@ == pointer_path(),
{
    let mut r = glue(POINTER_DIR, "/");
    r.append(POINTER_FILE);
    r
}

/// The name of the index for an archive: after the archive, if its name is text and not empty.
pub open spec fn generated_name(stem: Option<Seq<char>>) -> Seq<char> {
    (match stem {
        Some(s) if s.len() > 0 => s,
        _ => "mailgraph"@,
    }) + ".mailgraph.sqlite"@
}

/// The name of the index for an archive, given the name of the archive without its extension.
pub fn generated_db_path(stem: Option<&str>) -> (r: String)
    ensures
        r@ == generated_name(opt_str(stem)),
{
    match stem {
        Some(s) => if s.is_empty() {
            glue("mailgraph", ".mailgraph.sqlite")
        } else {
            glue(s, ".mailgraph.sqlite")
        },
        None => glue("mailgraph", ".mailgraph.sqlite"),
    }
}

/// The place that a note names, unless it is blank.
pub open spec fn noted_place(note: Seq<char>) -> Option<Seq<char>> {
    if trimmed(note).len() > 0 {
        Some(trimmed(note))
    } else {
        None
    }
}

/// The place that a note names, unless it is blank.
pub fn read_current_db(note: &str) -> (r: Option<String>)
    ensures
        opt_text(r) == noted_place(note@),
{
    let place = trim(note);
    if place.is_empty() {
        None
    } else {
        Some(place.to_owned())
    }
}

/// Why the place of an index cannot be told.
#[derive(Debug, Clone, Copy, PartialEq, Eq, Structural)]
pub enum PlaceError {
    /// There is no current directory.
    NoCurrentDir,
}

/// The error in words.
pub open spec fn place_error_text(e: PlaceError) -> Seq<char> {
    match e {
        PlaceError::NoCurrentDir => "failed to determine current directory"@,
    }
}

impl PlaceError {
    /// The error in words.
    pub fn message(self) -> (r: String)
        ensures
            r@ == place_error_text(self),
    {
        match self {
            PlaceError::NoCurrentDir => "failed to determine current directory".to_owned(),
        }
    }
}

/// The index to scan into: the one that was given, or else one named after the archive.
pub open spec fn scan_place(db: Option<Seq<u8>>, stem: Option<Seq<char>>) -> Seq<u8> {
    match db {
        Some(path) => path,
        None => encode_utf8(generated_name(stem)),
    }
}

/// The path of the index to scan into, given the name of the archive without its extension, the
/// path that was asked for, and the current directory.
pub fn resolve_scan_db_path(
    stem: Option<&str>,
    db: Option<Vec<u8>>,
    current_dir: Option<Vec<u8>>,
) -> (r: Result<Vec<u8>, PlaceError>)
    ensures
        match absolute(scan_place(opt_bytes(db), opt_str(stem)), opt_bytes(current_dir)) {
            Some(path) => r matches Ok(p) && p@ == path,
            None => r == Err::<Vec<u8>, PlaceError>(PlaceError::NoCurrentDir),
        },
{
    let path = match db {
        Some(path) => path,
        None => bytes_of(generated_db_path(stem).as_str()),
    };
    match make_absolute(path, current_dir) {
        Some(path) => Ok(path),
        None => Err(PlaceError::NoCurrentDir),
    }
}

/// The path of the index to ask if none was given: the noted one, or else one with a fixed
/// name.
pub open spec fn remembered_place(note: Option<Seq<char>>) -> Seq<char> {
    match note {
        Some(n) => match noted_place(n) {
            Some(p) => p,
            None => "mailgraph.sqlite"@,
        },
        None => "mailgraph.sqlite"@,
    }
}

/// The index to ask: the one that was given, or else the noted one, or else one with a fixed
/// name.
pub open spec fn existing_place(db: Option<Seq<u8>>, note: Option<Seq<char>>) -> Seq<u8> {
    match db {
        Some(path) => path,
        None => encode_utf8(remembered_place(note)),
    }
}

/// The path of the index to ask, given the path that was asked for, what is noted, and the
/// current directory.
pub fn resolve_existing_db_path(
    db: Option<Vec<u8>>,
    note: Option<&str>,
    current_dir: Option<Vec<u8>>,
) -> (r: Result<Vec<u8>, PlaceError>)
    ensures
        match absolute(existing_place(opt_bytes(db), opt_str(note)), opt_bytes(current_dir)) {
            Some(path) => r matches Ok(p) && p@ == path,
            None => r == Err::<Vec<u8>, PlaceError>(PlaceError::NoCurrentDir),
        },
{
    let path = match db {
        Some(path) => path,
        None => {
            let noted = match note {
                Some(n) => read_current_db(n),
                None => None,
            };
            match noted {
                Some(p) => bytes_of(p.as_str()),
                None => bytes_of("mailgraph.sqlite"),
            }
        },
    };
    match make_absolute(path, current_dir) {
        Some(path) => Ok(path),
        None => Err(PlaceError::NoCurrentDir),
    }
}

/// What to note of the place of an index: its path as it is shown.
pub fn note_of(path: &[u8]) -> (r: String)
    ensures
        r@ == lossy_text(path@),
        valid_utf8(path@) ==> encode_utf8(r@) == path@,
{
    decode_lossy(path)
}

// ---------------------------------------------------------------------------------------
// Laws
// ---------------------------------------------------------------------------------------

/// Later commands use the index of the last scan: its path, once noted, is found again from any
/// directory, as long as the note is text for it and has no white space at its ends.
pub proof fn law_noted_place_is_found(
    path: Seq<u8>,
    note: Seq<char>,
    current_dir: Option<Seq<u8>>,
)
    requires
        is_absolute(path),
        encode_utf8(note) == path,
        trimmed(note) == note,
    ensures
        noted_place(note) == Some(note),
        absolute(existing_place(None, Some(note)), current_dir) == Some(path),
{
    assert(note.len() > 0);
}

/// An index that is asked for is the one that is used, whatever is noted.
pub proof fn law_given_place_wins(
    path: Seq<u8>,
    note: Option<Seq<char>>,
    stem: Option<Seq<char>>,
)
    ensures
        existing_place(Some(path), note) == path,
        scan_place(Some(path), stem) == path,
{
}

/// Every place is a path from the root of the disk, as the current directory is.
pub proof fn law_places_are_absolute(
    db: Option<Seq<u8>>,
    stem: Option<Seq<char>>,
    note: Option<Seq<char>>,
    current_dir: Seq<u8>,
)
    requires
        is_absolute(current_dir),
    ensures
        absolute(scan_place(db, stem), Some(current_dir)) matches Some(p) && is_absolute(p),
        absolute(existing_place(db, note), Some(current_dir)) matches Some(p) && is_absolute(p),
{
    law_absolute_is_absolute(scan_place(db, stem), current_dir);
    law_absolute_is_absolute(existing_place(db, note), current_dir);
}

} // verus!
