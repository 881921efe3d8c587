//! Reading archives: which files hold messages, in which order they are read, and what can go
//! wrong on the way. Touching the disk is left to the caller, who hands over what is there.
use vstd::prelude::*;
use vstd::multiset::Multiset;
use vstd::utf8::{encode_utf8, valid_utf8};

use crate::archive::{
    decode_lossy, looks_like_message_file, lossy_text, message_extension, parse_pff_message_dir,
    parse_rfc822_file, pff_message, rfc822_message, MessageText, PffMessageFiles, PffTexts,
    RawMessage,
};
use crate::lists::{lemma_filter_step, lemma_map_multiset};
use crate::paths::{extension_bytes, extension_of, name_of};
use crate::sort::{sort, Ranked};
use crate::text::{glue, opt_text, trim, trimmed};

verus! {

// ---------------------------------------------------------------------------------------
// Paths
// ---------------------------------------------------------------------------------------

/// A path: its bytes, and the text that it is shown as.
#[derive(Debug, PartialEq, Eq)]
pub struct FoundPath {
    pub name: Vec<u8>,
    pub shown: String,
}

/// The bytes and the text of a path.
pub ghost struct PathText {
    pub name: Seq<u8>,
    pub shown: Seq<char>,
}

impl View for FoundPath {
    type V = PathText;

    open spec fn view(&self) -> PathText {
        PathText { name: self.name@, shown: self.shown@ }
    }
}

impl Clone for FoundPath {
    fn clone(&self) -> (r: FoundPath)
        ensures
            r@ == self@,
    {
        let r = FoundPath { name: self.name.clone(), shown: self.shown.clone() };
        assert(r.name@ =~= self.name@);
        r
    }
}

/// The texts of paths.
pub open spec fn paths(v: Seq<FoundPath>) -> Seq<PathText> {
    v.map_values(|p: FoundPath| p@)
}

/// The place of a byte in the order of paths: what ends a name comes before what goes on with
/// it.
pub open spec fn byte_place(b: u8) -> int {
    if b == 0x2f {
        -1
    } else {
        b as int
    }
}

/// The order of paths: name by name, and each name byte by byte.
pub open spec fn path_le(a: Seq<u8>, b: Seq<u8>) -> bool
    decreases a.len(),
{
    ||| a.len() == 0
    ||| b.len() > 0 && (byte_place(a[0]) < byte_place(b[0]) || a[0] == b[0] && path_le(
        a.drop_first(),
        b.drop_first(),
    ))
}

/// Whether paths stand in their order.
pub open spec fn paths_ordered(s: Seq<PathText>) -> bool {
    forall|i: int, j: int|
        0 <= i < j < s.len() ==> path_le((#[trigger] s[i]).name, (#[trigger] s[j]).name)
}

/// Whether a list holds the same paths as another, in their order.
pub open spec fn is_sorted(s: Seq<PathText>, of: Seq<PathText>) -> bool {
    s.to_multiset() == of.to_multiset() && paths_ordered(s) && s.len() == of.len()
}

proof fn lemma_path_total(a: Seq<u8>, b: Seq<u8>)
    ensures
        path_le(a, b) || path_le(b, a),
    decreases a.len(),
{
    if a.len() > 0 && b.len() > 0 {
        lemma_path_total(a.drop_first(), b.drop_first());
    }
}

proof fn lemma_path_transitive(a: Seq<u8>, b: Seq<u8>, c: Seq<u8>)
    requires
        path_le(a, b),
        path_le(b, c),
    ensures
        path_le(a, c),
    decreases a.len(),
{
    if a.len() > 0 && b.len() > 0 && c.len() > 0 && a[0] == b[0] && b[0] == c[0] {
        lemma_path_transitive(a.drop_first(), b.drop_first(), c.drop_first());
    }
}

proof fn lemma_path_le_at(a: Seq<u8>, b: Seq<u8>, i: int)
    requires
        0 <= i <= a.len(),
        i <= b.len(),
        forall|j: int| 0 <= j < i ==> #[trigger] a[j] == b[j],
    ensures
        path_le(a, b) == path_le(a.skip(i), b.skip(i)),
    decreases i,
{
    if i == 0 {
        assert(a.skip(0) == a);
        assert(b.skip(0) == b);
    } else {
        let x = a.drop_first();
        let y = b.drop_first();
        assert(a[0] == b[0]);
        assert forall|j: int| 0 <= j < i - 1 implies #[trigger] x[j] == y[j] by {
            assert(a[j + 1] == b[j + 1]);
        }
        lemma_path_le_at(x, y, i - 1);
        assert(x.skip(i - 1) == a.skip(i));
        assert(y.skip(i - 1) == b.skip(i));
    }
}

impl Ranked for FoundPath {
    open spec fn le(self, other: Self) -> bool {
        path_le(self@.name, other@.name)
    }

    proof fn total(a: Self, b: Self) {
        lemma_path_total(a@.name, b@.name);
    }

    proof fn transitive(a: Self, b: Self, c: Self) {
        lemma_path_transitive(a@.name, b@.name, c@.name);
    }

    fn is_le(&self, other: &Self) -> (r: bool) {
        let a = &self.name;
        let b = &other.name;
        let mut i: usize = 0;
        while i < a.len()
            invariant
                a@ == self@.name,
                b@ == other@.name,
                0 <= i <= a.len(),
                i <= b.len(),
                forall|j: int| 0 <= j < i ==> #[trigger] a@[j] == b@[j],
            decreases a.len() - i,
        {
            proof {
                lemma_path_le_at(a@, b@, i as int);
                assert(a@.skip(i as int)[0] == a@[i as int]);
            }
            if i >= b.len() {
                return false;
            }
            assert(b@.skip(i as int)[0] == b@[i as int]);
            let x = a[i];
            let y = b[i];
            if x != y {
                return x == 0x2f || y != 0x2f && x < y;
            }
            i = i + 1;
        }
        proof {
            lemma_path_le_at(a@, b@, i as int);
        }
        true
    }
}

fn sort_paths(v: Vec<FoundPath>) -> (r: Vec<FoundPath>)
    ensures
        is_sorted(paths(r@), paths(v@)),
{
    let ghost want = v@;
    let r = sort(v);
    proof {
        lemma_map_multiset(r@, want, |p: FoundPath| p@);
        assert forall|i: int, j: int| 0 <= i < j < paths(r@).len() implies path_le(
            (#[trigger] paths(r@)[i]).name,
            (#[trigger] paths(r@)[j]).name,
        ) by {
            assert(r@[i].le(r@[j]));
        }
    }
    r
}

// ---------------------------------------------------------------------------------------
// Searching
// ---------------------------------------------------------------------------------------

/// Something that a directory holds.
#[derive(Debug, PartialEq, Eq)]
pub struct Listed {
    pub path: FoundPath,
    pub is_dir: bool,
    /// The extension of the name, if it has one and it is text.
    pub extension: Option<String>,
}

impl Listed {
    /// Something that a directory holds, by its path.
    pub fn new(path: FoundPath, is_dir: bool) -> (r: Listed)
        ensures
            r.path == path,
            r.is_dir == is_dir,
            match extension_bytes(name_of(path.name@)) {
                Some(b) => match r.extension {
                    Some(s) => encode_utf8(s@) == b,
                    None => !valid_utf8(b),
                },
                None => r.extension is None,
            },
    {
        let extension = extension_of(path.name.as_slice());
        Listed { path, is_dir, extension }
    }
}

/// The directories in a listing.
pub open spec fn dirs_in(entries: Seq<Listed>) -> Seq<PathText> {
    entries.filter(|e: Listed| e.is_dir).map_values(|e: Listed| e.path@)
}

/// The files in a listing that can hold a message.
pub open spec fn files_in(entries: Seq<Listed>) -> Seq<PathText> {
    entries.filter(
        |e: Listed| !e.is_dir && message_extension(opt_text(e.extension)),
    ).map_values(|e: Listed| e.path@)
}

/// A search for message files.
#[derive(Debug, PartialEq, Eq)]
pub struct FileSearch {
    /// Directories to list.
    pub pending: Vec<FoundPath>,
    /// Files found.
    pub files: Vec<FoundPath>,
}

impl FileSearch {
    /// Starts at a path: a file is the one to find, anything else is to be listed.
    pub fn start(path: FoundPath, is_file: bool) -> (r: FileSearch)
        ensures
            paths(r.files@) == if is_file {
                seq![path@]
            } else {
                seq![]
            },
            paths(r.pending@) == if is_file {
                seq![]
            } else {
                seq![path@]
            },
    {
        let mut pending: Vec<FoundPath> = Vec::new();
        let mut files: Vec<FoundPath> = Vec::new();
        if is_file {
            files.push(path);
        } else {
            pending.push(path);
        }
        assert(paths(pending@) =~= if is_file {
            seq![]
        } else {
            seq![path@]
        });
        assert(paths(files@) =~= if is_file {
            seq![path@]
        } else {
            seq![]
        });
        FileSearch { pending, files }
    }

    /// The next directory to list, if there is one.
    pub fn next(&mut self) -> (r: Option<FoundPath>)
        ensures
            final(self).files == old(self).files,
            match r {
                Some(p) => paths(old(self).pending@) == paths(final(self).pending@).push(p@),
                None => old(self).pending@.len() == 0 && final(self).pending@.len() == 0,
            },
    {
        let ghost before = paths(self.pending@);
        let r = self.pending.pop();
        proof {
            if r is Some {
                assert(before =~= paths(self.pending@).push(r->0@));
            }
        }
        r
    }

    /// What a directory holds: its directories are to be listed, and its files are found if
    /// they can hold a message.
    pub fn add(&mut self, entries: Vec<Listed>)
        ensures
            paths(final(self).pending@) == paths(old(self).pending@) + dirs_in(entries@),
            paths(final(self).files@) == paths(old(self).files@) + files_in(entries@),
    {
        let ghost pending = paths(self.pending@);
        let ghost files = paths(self.files@);
        let ghost all = entries@;
        proof {
            lemma_none_listed(all);
            assert(pending + dirs_in(all.take(0)) =~= pending);
            assert(files + files_in(all.take(0)) =~= files);
        }
        for e in it: entries.into_iter()
            invariant
                it.seq() == all,
                paths(self.pending@) == pending + dirs_in(all.take(it.index() as int)),
                paths(self.files@) == files + files_in(all.take(it.index() as int)),
        {
            let ghost i = it.index() as int;
            let ghost before = paths(self.pending@);
            let ghost found = paths(self.files@);
            proof {
                lemma_listed_step(all, i);
            }
            if e.is_dir {
                self.pending.push(e.path);
                assert(paths(self.pending@) =~= before.push(all[i].path@));
            } else {
                let extension = match &e.extension {
                    Some(x) => Some(x.as_str()),
                    None => None,
                };
                if looks_like_message_file(extension) {
                    self.files.push(e.path);
                    assert(paths(self.files@) =~= found.push(all[i].path@));
                }
            }
            assert(paths(self.pending@) =~= pending + dirs_in(all.take(i + 1)));
            assert(paths(self.files@) =~= files + files_in(all.take(i + 1)));
        }
        assert(all.take(all.len() as int) =~= all);
    }
}

proof fn lemma_none_listed(all: Seq<Listed>)
    ensures
        dirs_in(all.take(0)) == Seq::<PathText>::empty(),
        files_in(all.take(0)) == Seq::<PathText>::empty(),
{
    reveal(Seq::filter);
    assert(dirs_in(all.take(0)) =~= Seq::<PathText>::empty());
    assert(files_in(all.take(0)) =~= Seq::<PathText>::empty());
}

proof fn lemma_listed_step(all: Seq<Listed>, i: int)
    requires
        0 <= i < all.len(),
    ensures
        dirs_in(all.take(i + 1)) == if all[i].is_dir {
            dirs_in(all.take(i)).push(all[i].path@)
        } else {
            dirs_in(all.take(i))
        },
        files_in(all.take(i + 1)) == if !all[i].is_dir && message_extension(
            opt_text(all[i].extension),
        ) {
            files_in(all.take(i)).push(all[i].path@)
        } else {
            files_in(all.take(i))
        },
{
    let p = |e: Listed| e.is_dir;
    let q = |e: Listed| !e.is_dir && message_extension(opt_text(e.extension));
    lemma_filter_step(all, i, p);
    lemma_filter_step(all, i, q);
    let f = |e: Listed| e.path@;
    assert(all.take(i).filter(p).push(all[i]).map_values(f) =~= all.take(i).filter(p).map_values(
        f,
    ).push(all[i].path@));
    assert(all.take(i).filter(q).push(all[i]).map_values(f) =~= all.take(i).filter(q).map_values(
        f,
    ).push(all[i].path@));
}

/// The message files of a search that is over, in the order of their paths.
pub fn collect_message_files(search: FileSearch) -> (r: Vec<FoundPath>)
    ensures
        is_sorted(paths(r@), paths(search.files@)),
{
    sort_paths(search.files)
}

/// A search for the directories that exported messages lie in.
#[derive(Debug, PartialEq, Eq)]
pub struct PffSearch {
    /// Directories to look at.
    pub pending: Vec<FoundPath>,
    /// Message directories found.
    pub dirs: Vec<FoundPath>,
}

impl PffSearch {
    /// Starts at some directories.
    pub fn start(roots: Vec<FoundPath>) -> (r: PffSearch)
        ensures
            r.pending == roots,
            r.dirs@.len() == 0,
    {
        PffSearch { pending: roots, dirs: Vec::new() }
    }

    /// The next directory to look at, if there is one.
    pub fn next(&mut self) -> (r: Option<FoundPath>)
        ensures
            final(self).dirs == old(self).dirs,
            match r {
                Some(p) => paths(old(self).pending@) == paths(final(self).pending@).push(p@),
                None => old(self).pending@.len() == 0 && final(self).pending@.len() == 0,
            },
    {
        let ghost before = paths(self.pending@);
        let r = self.pending.pop();
        proof {
            if r is Some {
                assert(before =~= paths(self.pending@).push(r->0@));
            }
        }
        r
    }

    /// A directory that holds one of the two header files is a message directory; any other is
    /// to be listed, and the result says so.
    pub fn visit(&mut self, path: FoundPath, internet_headers: bool, outlook_headers: bool) -> (r:
        bool)
        ensures
            r == !(internet_headers || outlook_headers),
            final(self).pending == old(self).pending,
            paths(final(self).dirs@) == if r {
                paths(old(self).dirs@)
            } else {
                paths(old(self).dirs@).push(path@)
            },
    {
        let ghost before = paths(self.dirs@);
        if internet_headers || outlook_headers {
            self.dirs.push(path);
            assert(paths(self.dirs@) =~= before.push(path@));
            false
        } else {
            true
        }
    }

    /// What a directory holds: its directories are to be looked at.
    pub fn add(&mut self, entries: Vec<Listed>)
        ensures
            final(self).dirs == old(self).dirs,
            paths(final(self).pending@) == paths(old(self).pending@) + dirs_in(entries@),
    {
        let ghost pending = paths(self.pending@);
        let ghost dirs = self.dirs;
        let ghost all = entries@;
        proof {
            lemma_none_listed(all);
            assert(pending + dirs_in(all.take(0)) =~= pending);
        }
        for e in it: entries.into_iter()
            invariant
                it.seq() == all,
                self.dirs == dirs,
                paths(self.pending@) == pending + dirs_in(all.take(it.index() as int)),
        {
            let ghost i = it.index() as int;
            let ghost before = paths(self.pending@);
            proof {
                lemma_listed_step(all, i);
            }
            if e.is_dir {
                self.pending.push(e.path);
                assert(paths(self.pending@) =~= before.push(all[i].path@));
            }
            assert(paths(self.pending@) =~= pending + dirs_in(all.take(i + 1)));
        }
        assert(all.take(all.len() as int) =~= all);
    }
}

/// The message directories of a search that is over, in the order of their paths.
pub fn collect_pff_message_dirs(search: PffSearch) -> (r: Vec<FoundPath>)
    ensures
        is_sorted(paths(r@), paths(search.dirs@)),
{
    sort_paths(search.dirs)
}

// ---------------------------------------------------------------------------------------
// Readers
// ---------------------------------------------------------------------------------------

/// Why an archive cannot be read.
#[derive(Debug, PartialEq, Eq)]
pub enum ReaderError {
    /// The path of the archive is empty.
    EmptyArchivePath,
    /// The path of the export is empty.
    EmptyExportPath,
    /// Something on the disk cannot be read.
    Unreadable(String),
    /// An export holds no messages.
    NoMessageDirs(String),
    /// The export program is not installed.
    ExporterMissing,
    /// The export program ended with an error.
    ExporterFailed { status: String, said: String },
    /// The export program ended well, but nothing was exported.
    NothingExported(String),
}

/// The error in words.
pub open spec fn reader_error_text(e: ReaderError) -> Seq<char> {
    match e {
        ReaderError::EmptyArchivePath => "archive path cannot be empty"@,
        ReaderError::EmptyExportPath => "export path cannot be empty"@,
        ReaderError::Unreadable(m) => m@,
        ReaderError::NoMessageDirs(under) => "no exported pff message directories were found under "@
            + under@,
        ReaderError::ExporterMissing => "pffexport is required for PST/OST scans. Install it with: sudo apt install pff-tools"@,
        ReaderError::ExporterFailed { status, said } => "pffexport failed with status "@ + status@
            + ": "@ + said@,
        ReaderError::NothingExported(under) => "pffexport completed, but no exported message directories were found under "@
            + under@,
    }
}

impl ReaderError {
    /// The error in words.
    pub fn message(&self) -> (r: String)
        ensures
            r@ == reader_error_text(*self),
    {
        match self {
            ReaderError::EmptyArchivePath => "archive path cannot be empty".to_owned(),
            ReaderError::EmptyExportPath => "export path cannot be empty".to_owned(),
            ReaderError::Unreadable(m) => m.clone(),
            ReaderError::NoMessageDirs(under) => glue(
                "no exported pff message directories were found under ",
                under.as_str(),
            ),
            ReaderError::ExporterMissing => "pffexport is required for PST/OST scans. Install it with: sudo apt install pff-tools".to_owned(),
            ReaderError::ExporterFailed { status, said } => {
                let mut m = glue("pffexport failed with status ", status.as_str());
                m.append(": ");
                m.append(said.as_str());
                m
            },
            ReaderError::NothingExported(under) => glue(
                "pffexport completed, but no exported message directories were found under ",
                under.as_str(),
            ),
        }
    }
}

/// An archive that messages can be read from.
pub trait ArchiveReader: Sized {
    /// Whether the archive, asked for its messages, can answer this and then be like this.
    open spec fn asked(&self, after: &Self, said: Result<(), String>) -> bool {
        true
    }

    /// The path of the archive.
    fn archive_path(&self) -> String;

    /// Makes the messages of the archive ready to be read, or tells why that cannot be done.
    fn messages(&mut self) -> (r: Result<(), String>)
        ensures
            old(self).asked(&*final(self), r),
    ;

    /// The number of messages that are ready.
    fn message_count(&self) -> usize;

    /// Reads a message by its position; a message that cannot be read gives the reason.
    fn message(&self, index: usize) -> Result<RawMessage, String>;
}

/// A reader of messages that are at hand.
#[derive(Debug, PartialEq, Eq)]
pub struct VecArchiveReader {
    path: String,
    messages: Vec<RawMessage>,
}

impl VecArchiveReader {
    /// The path of the archive.
    pub closed spec fn path(&self) -> Seq<char> {
        self.path@
    }

    /// The texts of the messages.
    pub closed spec fn all(&self) -> Seq<MessageText> {
        self.messages@.map_values(|m: RawMessage| m@)
    }

    /// A reader of some messages.
    pub fn new(messages: Vec<RawMessage>) -> (r: VecArchiveReader)
        ensures
            r.path() == "test.pst"@,
            r.all() == messages@.map_values(|m: RawMessage| m@),
    {
        VecArchiveReader { path: "test.pst".to_owned(), messages }
    }
}

impl ArchiveReader for VecArchiveReader {
    open spec fn asked(&self, after: &Self, said: Result<(), String>) -> bool {
        *after == *self && said is Ok
    }

    fn archive_path(&self) -> (r: String)
        ensures
            r@ == self.path(),
    {
        self.path.clone()
    }

    fn messages(&mut self) -> (r: Result<(), String>) {
        Ok(())
    }

    fn message_count(&self) -> (r: usize)
        ensures
            r == self.all().len(),
    {
        self.messages.len()
    }

    fn message(&self, index: usize) -> (r: Result<RawMessage, String>)
        ensures
            match r {
                Ok(m) => index < self.all().len() && m@ == self.all()[index as int],
                Err(_) => index >= self.all().len(),
            },
    {
        if index < self.messages.len() {
            Ok(self.messages[index].clone())
        } else {
            Err("no such message".to_owned())
        }
    }
}

/// A reader of mail files: one file, or all that lie under a directory.
#[derive(Debug, PartialEq, Eq)]
pub struct Rfc822ArchiveReader {
    path: FoundPath,
    files: Vec<FoundPath>,
}

impl Rfc822ArchiveReader {
    /// The path of the archive.
    pub closed spec fn path(&self) -> PathText {
        self.path@
    }

    /// The files to read.
    pub closed spec fn all(&self) -> Seq<PathText> {
        paths(self.files@)
    }

    /// A reader for a path, given the files that a search found there, or why it failed.
    pub fn open(path: FoundPath, found: Result<FileSearch, String>) -> (r: Result<
        Rfc822ArchiveReader,
        ReaderError,
    >)
        ensures
            match r {
                Ok(reader) => path.name@.len() > 0 && found is Ok && reader.path() == path@
                    && is_sorted(reader.all(), paths(found->Ok_0.files@)),
                Err(e) => if path.name@.len() == 0 {
                    e is EmptyArchivePath
                } else {
                    found is Err && e == ReaderError::Unreadable(found->Err_0)
                },
            },
    {
        if path.name.is_empty() {
            return Err(ReaderError::EmptyArchivePath);
        }
        match found {
            Ok(search) => Ok(Rfc822ArchiveReader { path, files: collect_message_files(search) }),
            Err(m) => Err(ReaderError::Unreadable(m)),
        }
    }

    /// The path of the archive.
    pub fn archive_path(&self) -> (r: &FoundPath)
        ensures
            r@ == self.path(),
    {
        &self.path
    }

    /// The number of files.
    pub fn messages(&self) -> (r: usize)
        ensures
            r == self.all().len(),
    {
        self.files.len()
    }

    /// The file at a position.
    pub fn file(&self, index: usize) -> (r: &FoundPath)
        requires
            index < self.all().len(),
        ensures
            r@ == self.all()[index as int],
    {
        &self.files[index]
    }

    /// The message in the file at a position, given its bytes, unless it could not be read, and
    /// the folder that the file lies in.
    pub fn message(&self, index: usize, folder: Option<String>, bytes: Option<Vec<u8>>) -> (r:
        Result<RawMessage, String>)
        requires
            index < self.all().len(),
        ensures
            match bytes {
                Some(b) => r matches Ok(m) && m@ == rfc822_message(
                    self.all()[index as int].shown,
                    opt_text(folder),
                    lossy_text(b@),
                    b@.len() as i64,
                ),
                None => r matches Err(e) && e@ == "failed to parse "@ + self.all()[index as int].shown,
            },
    {
        let source = self.files[index].shown.as_str();
        match bytes {
            Some(b) => Ok(parse_rfc822_file(source, folder, b.as_slice())),
            None => Err(glue("failed to parse ", source)),
        }
    }
}

/// What the files of an exported message hold; a file that could not be read is left out.
#[derive(Debug, PartialEq, Eq)]
pub struct PffContents {
    /// The folder under the export that the message lies in.
    pub folder: Option<String>,
    pub internet_headers: Option<String>,
    pub outlook_headers: Option<String>,
    pub recipients: Option<String>,
    /// Whether there is a directory for attachments.
    pub has_attachments: bool,
}

/// A text, empty if there is none.
pub open spec fn or_empty(v: Option<String>) -> Seq<char> {
    match v {
        Some(s) => s@,
        None => Seq::empty(),
    }
}

fn text_or_empty(v: Option<String>) -> (r: String)
    ensures
        r@ == or_empty(v),
{
    match v {
        Some(s) => s,
        None => String::new(),
    }
}

/// The texts of the message in a directory.
pub open spec fn exported_texts(dir: PathText, c: PffContents) -> PffTexts {
    PffTexts {
        source: dir.shown,
        folder: opt_text(c.folder),
        internet_headers: or_empty(c.internet_headers),
        outlook_headers: or_empty(c.outlook_headers),
        recipients: or_empty(c.recipients),
        has_attachments: c.has_attachments,
    }
}

fn exported_message(dir: &FoundPath, c: PffContents) -> (r: RawMessage)
    ensures
        r@ == pff_message(exported_texts(dir@, c)),
{
    let files = PffMessageFiles {
        source: dir.shown.clone(),
        folder: c.folder,
        internet_headers: text_or_empty(c.internet_headers),
        outlook_headers: text_or_empty(c.outlook_headers),
        recipients: text_or_empty(c.recipients),
        has_attachments: c.has_attachments,
    };
    parse_pff_message_dir(files)
}

/// A reader of messages that were exported before.
#[derive(Debug, PartialEq, Eq)]
pub struct PffDirectoryArchiveReader {
    path: FoundPath,
    dirs: Vec<FoundPath>,
}

impl PffDirectoryArchiveReader {
    /// The path of the export.
    pub closed spec fn path(&self) -> PathText {
        self.path@
    }

    /// The message directories.
    pub closed spec fn all(&self) -> Seq<PathText> {
        paths(self.dirs@)
    }

    /// A reader for a path, given the message directories that a search found there, or why it
    /// failed.
    pub fn open(path: FoundPath, found: Result<PffSearch, String>) -> (r: Result<
        PffDirectoryArchiveReader,
        ReaderError,
    >)
        ensures
            match r {
                Ok(reader) => path.name@.len() > 0 && found is Ok && found->Ok_0.dirs@.len() > 0
                    && reader.path() == path@ && is_sorted(
                    reader.all(),
                    paths(found->Ok_0.dirs@),
                ),
                Err(e) => if path.name@.len() == 0 {
                    e is EmptyExportPath
                } else {
                    match found {
                        Ok(search) => search.dirs@.len() == 0 && e == ReaderError::NoMessageDirs(
                            path.shown,
                        ),
                        Err(m) => e == ReaderError::Unreadable(m),
                    }
                },
            },
    {
        if path.name.is_empty() {
            return Err(ReaderError::EmptyExportPath);
        }
        match found {
            Ok(search) => {
                let dirs = collect_pff_message_dirs(search);
                assert(paths(dirs@).len() == paths(search.dirs@).len());
                if dirs.is_empty() {
                    return Err(ReaderError::NoMessageDirs(path.shown));
                }
                Ok(PffDirectoryArchiveReader { path, dirs })
            },
            Err(m) => Err(ReaderError::Unreadable(m)),
        }
    }

    /// The path of the export.
    pub fn archive_path(&self) -> (r: &FoundPath)
        ensures
            r@ == self.path(),
    {
        &self.path
    }

    /// The number of messages.
    pub fn messages(&self) -> (r: usize)
        ensures
            r == self.all().len(),
    {
        self.dirs.len()
    }

    /// The message directory at a position.
    pub fn dir(&self, index: usize) -> (r: &FoundPath)
        requires
            index < self.all().len(),
        ensures
            r@ == self.all()[index as int],
    {
        &self.dirs[index]
    }

    /// The message in the directory at a position, given what its files hold.
    pub fn message(&self, index: usize, contents: PffContents) -> (r: RawMessage)
        requires
            index < self.all().len(),
        ensures
            r@ == pff_message(exported_texts(self.all()[index as int], contents)),
    {
        exported_message(&self.dirs[index], contents)
    }
}

/// How a run of the export program went.
#[derive(Debug, PartialEq, Eq)]
pub enum ExportRun {
    /// There is no such program.
    Missing,
    /// The program could not be started.
    NotStarted(String),
    /// The program ended.
    Ended { success: bool, status: String, stderr: Vec<u8> },
}

/// What a run of the export program means: it has to end well.
pub fn check_export(run: ExportRun) -> (r: Result<(), ReaderError>)
    ensures
        match run {
            ExportRun::Missing => r == Err::<(), ReaderError>(ReaderError::ExporterMissing),
            ExportRun::NotStarted(m) => r == Err::<(), ReaderError>(ReaderError::Unreadable(m)),
            ExportRun::Ended { success, status, stderr } => if success {
                r is Ok
            } else {
                r matches Err(ReaderError::ExporterFailed { status: s, said }) && s == status
                    && said@ == trimmed(lossy_text(stderr@))
            },
        },
{
    match run {
        ExportRun::Missing => Err(ReaderError::ExporterMissing),
        ExportRun::NotStarted(m) => Err(ReaderError::Unreadable(m)),
        ExportRun::Ended { success, status, stderr } => {
            if success {
                return Ok(());
            }
            let text = decode_lossy(stderr.as_slice());
            Err(ReaderError::ExporterFailed { status, said: trim(text.as_str()).to_owned() })
        },
    }
}

/// A reader of an Outlook archive, which has to be exported first.
#[derive(Debug, PartialEq, Eq)]
pub struct PffExportArchiveReader {
    path: FoundPath,
    exported: bool,
    dirs: Vec<FoundPath>,
}

impl PffExportArchiveReader {
    /// The path of the archive.
    pub closed spec fn path(&self) -> PathText {
        self.path@
    }

    /// Whether the archive was exported.
    pub closed spec fn exported(&self) -> bool {
        self.exported
    }

    /// The message directories of the export.
    pub closed spec fn all(&self) -> Seq<PathText> {
        paths(self.dirs@)
    }

    /// A reader for the archive at a path.
    pub fn open(path: FoundPath) -> (r: Result<PffExportArchiveReader, ReaderError>)
        ensures
            match r {
                Ok(reader) => path.name@.len() > 0 && reader.path() == path@ && !reader.exported()
                    && reader.all() == Seq::<PathText>::empty(),
                Err(e) => path.name@.len() == 0 && e is EmptyArchivePath,
            },
    {
        if path.name.is_empty() {
            return Err(ReaderError::EmptyArchivePath);
        }
        let dirs: Vec<FoundPath> = Vec::new();
        assert(paths(dirs@) =~= Seq::<PathText>::empty());
        Ok(PffExportArchiveReader { path, exported: false, dirs })
    }

    /// The path of the archive.
    pub fn archive_path(&self) -> (r: &FoundPath)
        ensures
            r@ == self.path(),
    {
        &self.path
    }

    /// Whether the archive still has to be exported.
    pub fn needs_export(&self) -> (r: bool)
        ensures
            r == !self.exported(),
    {
        !self.exported
    }

    /// Takes over what was exported to a directory: the message directories that a search found
    /// there, of which there has to be one.
    pub fn ensure_exported(&mut self, run: ExportRun, target: &str, found: Result<PffSearch, String>) -> (
    r: Result<(), ReaderError>)
        ensures
            final(self).path() == old(self).path(),
            match r {
                Ok(_) => if old(self).exported() {
                    *final(self) == *old(self)
                } else {
                    run matches ExportRun::Ended { success: true, .. } && found is Ok
                        && found->Ok_0.dirs@.len() > 0 && final(self).exported() && is_sorted(
                        final(self).all(),
                        paths(found->Ok_0.dirs@),
                    )
                },
                Err(e) => !old(self).exported() && *final(self) == *old(self) && match run {
                    ExportRun::Missing => e is ExporterMissing,
                    ExportRun::NotStarted(m) => e == ReaderError::Unreadable(m),
                    ExportRun::Ended { success, status, stderr } => if !success {
                        e matches ReaderError::ExporterFailed { status: s, said } && s == status
                            && said@ == trimmed(lossy_text(stderr@))
                    } else {
                        match found {
                            Ok(search) => search.dirs@.len() == 0 && (
                            e matches ReaderError::NothingExported(under) && under@ == target@),
                            Err(m) => e == ReaderError::Unreadable(m),
                        }
                    },
                },
            },
    {
        if self.exported {
            return Ok(());
        }
        if let Err(e) = check_export(run) {
            return Err(e);
        }
        match found {
            Ok(search) => {
                let dirs = collect_pff_message_dirs(search);
                assert(paths(dirs@).len() == paths(search.dirs@).len());
                if dirs.is_empty() {
                    return Err(ReaderError::NothingExported(target.to_owned()));
                }
                self.dirs = dirs;
                self.exported = true;
                Ok(())
            },
            Err(m) => Err(ReaderError::Unreadable(m)),
        }
    }

    /// The number of messages.
    pub fn messages(&self) -> (r: usize)
        ensures
            r == self.all().len(),
    {
        self.dirs.len()
    }

    /// The message directory at a position.
    pub fn dir(&self, index: usize) -> (r: &FoundPath)
        requires
            index < self.all().len(),
        ensures
            r@ == self.all()[index as int],
    {
        &self.dirs[index]
    }

    /// The message in the directory at a position, given what its files hold.
    pub fn message(&self, index: usize, contents: PffContents) -> (r: RawMessage)
        requires
            index < self.all().len(),
        ensures
            r@ == pff_message(exported_texts(self.all()[index as int], contents)),
    {
        exported_message(&self.dirs[index], contents)
    }
}

// ---------------------------------------------------------------------------------------
// Laws
// ---------------------------------------------------------------------------------------

proof fn lemma_path_antisymmetric(a: Seq<u8>, b: Seq<u8>)
    requires
        path_le(a, b),
        path_le(b, a),
    ensures
        a == b,
    decreases a.len(),
{
    if a.len() > 0 && b.len() > 0 {
        lemma_path_antisymmetric(a.drop_first(), b.drop_first());
        assert(a == seq![a[0]] + a.drop_first());
        assert(b == seq![b[0]] + b.drop_first());
    } else {
        assert(a == b);
    }
}

/// Messages are read in one order, whatever order the disk lists them in.
pub proof fn law_one_reading_order(
    found: Seq<PathText>,
    otherwise: Seq<PathText>,
    a: Seq<PathText>,
    b: Seq<PathText>,
)
    requires
        found.to_multiset() == otherwise.to_multiset(),
        is_sorted(a, found),
        is_sorted(b, otherwise),
    ensures
        a.map_values(|p: PathText| p.name) == b.map_values(|p: PathText| p.name),
{
    let f = |p: PathText| p.name;
    let x = a.map_values(f);
    let y = b.map_values(f);
    lemma_map_multiset(a, b, f);
    let leq = |p: Seq<u8>, q: Seq<u8>| path_le(p, q);
    assert forall|p: Seq<u8>, q: Seq<u8>| #[trigger] leq(p, q) || leq(q, p) by {
        lemma_path_total(p, q);
    }
    assert forall|p: Seq<u8>, q: Seq<u8>| #[trigger] leq(p, q) && #[trigger] leq(
        q,
        p,
    ) implies p == q by {
        lemma_path_antisymmetric(p, q);
    }
    assert forall|p: Seq<u8>, q: Seq<u8>, r: Seq<u8>| #[trigger] leq(p, q) && #[trigger] leq(
        q,
        r,
    ) implies leq(p, r) by {
        lemma_path_transitive(p, q, r);
    }
    assert forall|p: Seq<u8>| #[trigger] leq(p, p) by {
        lemma_path_total(p, p);
    }
    assert(vstd::relations::sorted_by(x, leq));
    assert(vstd::relations::sorted_by(y, leq));
    vstd::seq_lib::lemma_sorted_unique(x, y, leq);
}

/// What a disk holds: the entries of each directory.
pub type Disk = spec_fn(PathText) -> Seq<Listed>;

/// The message files in a directory and in those under it, down to a depth.
pub open spec fn files_below(disk: Disk, dir: PathText, depth: nat) -> Multiset<PathText>
    decreases depth, 0nat,
{
    if depth == 0 {
        files_in(disk(dir)).to_multiset()
    } else {
        files_in(disk(dir)).to_multiset().add(
            files_below_all(disk, dirs_in(disk(dir)), (depth - 1) as nat),
        )
    }
}

/// The message files in some directories and in those under them, down to a depth.
pub open spec fn files_below_all(disk: Disk, dirs: Seq<PathText>, depth: nat) -> Multiset<PathText>
    decreases depth, dirs.len() + 1,
{
    if dirs.len() == 0 {
        Multiset::empty()
    } else {
        files_below_all(disk, dirs.drop_last(), depth).add(files_below(disk, dirs.last(), depth))
    }
}

/// Whether there is no directory under a directory below a depth.
pub open spec fn within_depth(disk: Disk, dir: PathText, depth: nat) -> bool
    decreases depth,
{
    forall|i: int|
        0 <= i < dirs_in(disk(dir)).len() ==> depth > 0 && within_depth(
            disk,
            #[trigger] dirs_in(disk(dir))[i],
            (depth - 1) as nat,
        )
}

/// Whether there is no directory under some directories below a depth.
pub open spec fn all_within_depth(disk: Disk, dirs: Seq<PathText>, depth: nat) -> bool {
    forall|i: int| 0 <= i < dirs.len() ==> within_depth(disk, #[trigger] dirs[i], depth)
}

proof fn lemma_deeper(disk: Disk, dir: PathText, depth: nat)
    requires
        within_depth(disk, dir, depth),
    ensures
        within_depth(disk, dir, depth + 1),
        files_below(disk, dir, depth + 1) == files_below(disk, dir, depth),
    decreases depth, 0nat,
{
    let d = dirs_in(disk(dir));
    if depth == 0 {
        assert(d.len() == 0) by {
            if d.len() > 0 {
                assert(within_depth(disk, d[0], 0));
            }
        }
        assert(files_below_all(disk, d, 0) =~= Multiset::empty());
        assert(files_below(disk, dir, 1) =~= files_below(disk, dir, 0));
    } else {
        let n = (depth - 1) as nat;
        assert(all_within_depth(disk, d, n));
        lemma_all_deeper(disk, d, n);
        assert forall|i: int| 0 <= i < d.len() implies within_depth(disk, #[trigger] d[i], depth) by {
            assert(within_depth(disk, d[i], n + 1));
        }
    }
}

proof fn lemma_all_deeper(disk: Disk, dirs: Seq<PathText>, depth: nat)
    requires
        all_within_depth(disk, dirs, depth),
    ensures
        all_within_depth(disk, dirs, depth + 1),
        files_below_all(disk, dirs, depth + 1) == files_below_all(disk, dirs, depth),
    decreases depth, dirs.len() + 1,
{
    if dirs.len() > 0 {
        let d = dirs.drop_last();
        assert forall|i: int| 0 <= i < d.len() implies within_depth(disk, #[trigger] d[i], depth) by {
            assert(d[i] == dirs[i]);
        }
        lemma_all_deeper(disk, d, depth);
        assert(within_depth(disk, dirs[dirs.len() - 1], depth));
        lemma_deeper(disk, dirs.last(), depth);
        assert forall|i: int| 0 <= i < dirs.len() implies within_depth(
            disk,
            #[trigger] dirs[i],
            depth + 1,
        ) by {
            if i < d.len() {
                assert(within_depth(disk, d[i], depth + 1));
            }
        }
    }
}

proof fn lemma_below_add(disk: Disk, a: Seq<PathText>, b: Seq<PathText>, depth: nat)
    ensures
        files_below_all(disk, a + b, depth) == files_below_all(disk, a, depth).add(
            files_below_all(disk, b, depth),
        ),
    decreases b.len(),
{
    if b.len() == 0 {
        assert(a + b =~= a);
        assert(files_below_all(disk, a, depth).add(Multiset::empty()) =~= files_below_all(
            disk,
            a,
            depth,
        ));
    } else {
        let d = b.drop_last();
        lemma_below_add(disk, a, d, depth);
        assert((a + b).drop_last() =~= a + d);
        assert(files_below_all(disk, a + b, depth) =~= files_below_all(disk, a, depth).add(
            files_below_all(disk, b, depth),
        ));
    }
}

/// A step of a search for message files loses nothing and finds nothing twice: what was found
/// and what lies below the directories that are still to be listed stays the same.
pub proof fn law_search_step(
    disk: Disk,
    rest: Seq<PathText>,
    dir: PathText,
    files: Seq<PathText>,
    depth: nat,
)
    requires
        all_within_depth(disk, rest.push(dir), depth),
    ensures
        ({
            let pending = rest + dirs_in(disk(dir));
            let found = files + files_in(disk(dir));
            &&& all_within_depth(disk, pending, depth)
            &&& found.to_multiset().add(files_below_all(disk, pending, depth))
                == files.to_multiset().add(files_below_all(disk, rest.push(dir), depth))
        }),
{
    broadcast use vstd::multiset::group_multiset_properties;

    let d = dirs_in(disk(dir));
    let f = files_in(disk(dir));
    let all = rest.push(dir);
    assert(all[all.len() - 1] == dir);
    assert(within_depth(disk, dir, depth));
    if depth == 0 {
        assert(d.len() == 0) by {
            if d.len() > 0 {
                assert(within_depth(disk, d[0], 0));
            }
        }
        assert(files_below_all(disk, d, 0) =~= Multiset::empty());
        assert(files_below(disk, dir, depth) =~= f.to_multiset().add(
            files_below_all(disk, d, depth),
        ));
    } else {
        let n = (depth - 1) as nat;
        assert(all_within_depth(disk, d, n));
        lemma_all_deeper(disk, d, n);
        assert(files_below(disk, dir, depth) == f.to_multiset().add(
            files_below_all(disk, d, depth),
        ));
    }
    assert forall|i: int| 0 <= i < (rest + d).len() implies within_depth(
        disk,
        #[trigger] (rest + d)[i],
        depth,
    ) by {
        if i < rest.len() {
            assert(all[i] == rest[i]);
            assert(within_depth(disk, all[i], depth));
        } else {
            assert(within_depth(disk, d[i - rest.len()], depth));
        }
    }
    lemma_below_add(disk, rest, d, depth);
    assert(all.drop_last() =~= rest);
    assert(all.last() == dir);
    vstd::seq_lib::lemma_multiset_commutative(files, f);
    assert((files + f).to_multiset().add(files_below_all(disk, rest + d, depth))
        =~= files.to_multiset().add(files_below_all(disk, all, depth)));
}

/// How far a search has got: the directories still to be taken, and what was found.
pub ghost struct Progress {
    pub pending: Seq<PathText>,
    pub found: Seq<PathText>,
}

/// Whether a search for message files takes its next directory.
pub open spec fn file_step(disk: Disk, a: Progress, b: Progress) -> bool {
    &&& a.pending.len() > 0
    &&& b.pending == a.pending.drop_last() + dirs_in(disk(a.pending.last()))
    &&& b.found == a.found + files_in(disk(a.pending.last()))
}

/// Whether this is a search for message files, from its start until nothing is left to be
/// listed.
pub open spec fn is_file_search(disk: Disk, steps: Seq<Progress>) -> bool {
    &&& steps.len() > 0
    &&& forall|i: int| 1 <= i < steps.len() ==> file_step(disk, steps[i - 1], #[trigger] steps[i])
    &&& steps.last().pending.len() == 0
}

proof fn lemma_file_search(disk: Disk, steps: Seq<Progress>, depth: nat, i: int)
    requires
        steps.len() > 0,
        forall|k: int| 1 <= k < steps.len() ==> file_step(disk, steps[k - 1], #[trigger] steps[k]),
        all_within_depth(disk, steps[0].pending, depth),
        0 <= i < steps.len(),
    ensures
        all_within_depth(disk, steps[i].pending, depth),
        steps[i].found.to_multiset().add(files_below_all(disk, steps[i].pending, depth))
            == steps[0].found.to_multiset().add(files_below_all(disk, steps[0].pending, depth)),
    decreases i,
{
    if i > 0 {
        lemma_file_search(disk, steps, depth, i - 1);
        let a = steps[i - 1];
        let b = steps[i];
        assert(file_step(disk, a, b));
        assert(a.pending =~= a.pending.drop_last().push(a.pending.last()));
        law_search_step(disk, a.pending.drop_last(), a.pending.last(), a.found, depth);
    }
}

/// A search for message files that is over has found the message files under the directory that
/// it started at, each as often as it is there, and they are read in the order of their paths.
pub proof fn law_search_finds_all(
    disk: Disk,
    steps: Seq<Progress>,
    start: PathText,
    depth: nat,
    read: Seq<PathText>,
)
    requires
        is_file_search(disk, steps),
        steps[0].pending == seq![start],
        steps[0].found == Seq::<PathText>::empty(),
        within_depth(disk, start, depth),
        is_sorted(read, steps.last().found),
    ensures
        read.to_multiset() == files_below(disk, start, depth),
        paths_ordered(read),
{
    broadcast use vstd::seq_lib::group_to_multiset_ensures;

    let first = steps[0].pending;
    let last = steps.last();
    assert(all_within_depth(disk, first, depth));
    lemma_file_search(disk, steps, depth, steps.len() - 1);
    assert(files_below_all(disk, last.pending, depth) =~= Multiset::empty());
    assert(first.drop_last() =~= Seq::empty());
    assert(files_below_all(disk, first.drop_last(), depth) =~= Multiset::empty());
    assert(files_below_all(disk, first, depth) =~= files_below(disk, start, depth));
    assert(Seq::<PathText>::empty().to_multiset() =~= Multiset::empty());
    assert(last.found.to_multiset() =~= files_below(disk, start, depth));
}

/// Which directories hold a header file.
pub type HeaderDirs = spec_fn(PathText) -> bool;

/// The message directories among a directory and those under it, down to a depth. What lies
/// under a message directory does not count.
pub open spec fn dirs_below(disk: Disk, heads: HeaderDirs, dir: PathText, depth: nat) -> Multiset<
    PathText,
>
    decreases depth, 0nat,
{
    if heads(dir) {
        Multiset::singleton(dir)
    } else if depth == 0 {
        Multiset::empty()
    } else {
        dirs_below_all(disk, heads, dirs_in(disk(dir)), (depth - 1) as nat)
    }
}

/// The message directories among some directories and those under them, down to a depth.
pub open spec fn dirs_below_all(
    disk: Disk,
    heads: HeaderDirs,
    dirs: Seq<PathText>,
    depth: nat,
) -> Multiset<PathText>
    decreases depth, dirs.len() + 1,
{
    if dirs.len() == 0 {
        Multiset::empty()
    } else {
        dirs_below_all(disk, heads, dirs.drop_last(), depth).add(
            dirs_below(disk, heads, dirs.last(), depth),
        )
    }
}

proof fn lemma_dirs_deeper(disk: Disk, heads: HeaderDirs, dir: PathText, depth: nat)
    requires
        within_depth(disk, dir, depth),
    ensures
        dirs_below(disk, heads, dir, depth + 1) == dirs_below(disk, heads, dir, depth),
    decreases depth, 0nat,
{
    let d = dirs_in(disk(dir));
    if depth == 0 {
        assert(d.len() == 0) by {
            if d.len() > 0 {
                assert(within_depth(disk, d[0], 0));
            }
        }
        assert(dirs_below_all(disk, heads, d, 0) =~= Multiset::empty());
    } else {
        let n = (depth - 1) as nat;
        assert(all_within_depth(disk, d, n));
        lemma_all_dirs_deeper(disk, heads, d, n);
    }
}

proof fn lemma_all_dirs_deeper(disk: Disk, heads: HeaderDirs, dirs: Seq<PathText>, depth: nat)
    requires
        all_within_depth(disk, dirs, depth),
    ensures
        dirs_below_all(disk, heads, dirs, depth + 1) == dirs_below_all(disk, heads, dirs, depth),
    decreases depth, dirs.len() + 1,
{
    if dirs.len() > 0 {
        let d = dirs.drop_last();
        assert forall|i: int| 0 <= i < d.len() implies within_depth(disk, #[trigger] d[i], depth) by {
            assert(d[i] == dirs[i]);
        }
        lemma_all_dirs_deeper(disk, heads, d, depth);
        assert(within_depth(disk, dirs[dirs.len() - 1], depth));
        lemma_dirs_deeper(disk, heads, dirs.last(), depth);
    }
}

proof fn lemma_dirs_below_add(
    disk: Disk,
    heads: HeaderDirs,
    a: Seq<PathText>,
    b: Seq<PathText>,
    depth: nat,
)
    ensures
        dirs_below_all(disk, heads, a + b, depth) == dirs_below_all(disk, heads, a, depth).add(
            dirs_below_all(disk, heads, b, depth),
        ),
    decreases b.len(),
{
    let low = dirs_below_all(disk, heads, a, depth);
    if b.len() == 0 {
        assert(a + b =~= a);
        assert(low.add(Multiset::empty()) =~= low);
    } else {
        lemma_dirs_below_add(disk, heads, a, b.drop_last(), depth);
        assert((a + b).drop_last() =~= a + b.drop_last());
        assert(dirs_below_all(disk, heads, a + b, depth) =~= low.add(
            dirs_below_all(disk, heads, b, depth),
        ));
    }
}

/// A step of a search for message directories loses nothing and finds nothing twice: what was
/// found and what lies below the directories that are still to be looked at stays the same.
pub proof fn law_pff_search_step(
    disk: Disk,
    heads: HeaderDirs,
    rest: Seq<PathText>,
    dir: PathText,
    dirs: Seq<PathText>,
    depth: nat,
)
    requires
        all_within_depth(disk, rest.push(dir), depth),
    ensures
        ({
            let pending = if heads(dir) {
                rest
            } else {
                rest + dirs_in(disk(dir))
            };
            let found = if heads(dir) {
                dirs.push(dir)
            } else {
                dirs
            };
            &&& all_within_depth(disk, pending, depth)
            &&& found.to_multiset().add(dirs_below_all(disk, heads, pending, depth))
                == dirs.to_multiset().add(dirs_below_all(disk, heads, rest.push(dir), depth))
        }),
{
    broadcast use vstd::seq_lib::group_to_multiset_ensures;

    let d = dirs_in(disk(dir));
    let all = rest.push(dir);
    let low = dirs_below_all(disk, heads, rest, depth);
    assert(all.drop_last() =~= rest);
    assert(all[all.len() - 1] == dir);
    assert(within_depth(disk, dir, depth));
    assert forall|i: int| 0 <= i < rest.len() implies within_depth(disk, #[trigger] rest[i], depth) by {
        assert(all[i] == rest[i]);
        assert(within_depth(disk, all[i], depth));
    }
    if heads(dir) {
        assert(dirs_below(disk, heads, dir, depth) == Multiset::singleton(dir));
        assert(dirs_below_all(disk, heads, all, depth) == low.add(Multiset::singleton(dir)));
        assert(dirs.push(dir).to_multiset() =~= dirs.to_multiset().insert(dir));
        assert(dirs.push(dir).to_multiset().add(low) =~= dirs.to_multiset().add(
            dirs_below_all(disk, heads, all, depth),
        ));
    } else {
        if depth == 0 {
            assert(d.len() == 0) by {
                if d.len() > 0 {
                    assert(within_depth(disk, d[0], 0));
                }
            }
            assert(dirs_below_all(disk, heads, d, 0) =~= Multiset::empty());
        } else {
            let n = (depth - 1) as nat;
            assert(all_within_depth(disk, d, n));
            lemma_all_dirs_deeper(disk, heads, d, n);
            lemma_all_deeper(disk, d, n);
        }
        assert(dirs_below(disk, heads, dir, depth) == dirs_below_all(disk, heads, d, depth));
        assert forall|i: int| 0 <= i < (rest + d).len() implies within_depth(
            disk,
            #[trigger] (rest + d)[i],
            depth,
        ) by {
            if i >= rest.len() {
                assert(within_depth(disk, d[i - rest.len()], depth));
            }
        }
        lemma_dirs_below_add(disk, heads, rest, d, depth);
    }
}

/// Whether a search for message directories takes its next directory.
pub open spec fn dir_step(disk: Disk, heads: HeaderDirs, a: Progress, b: Progress) -> bool {
    &&& a.pending.len() > 0
    &&& if heads(a.pending.last()) {
        b.pending == a.pending.drop_last() && b.found == a.found.push(a.pending.last())
    } else {
        b.pending == a.pending.drop_last() + dirs_in(disk(a.pending.last())) && b.found == a.found
    }
}

/// Whether this is a search for message directories, from its start until nothing is left to be
/// looked at.
pub open spec fn is_dir_search(disk: Disk, heads: HeaderDirs, steps: Seq<Progress>) -> bool {
    &&& steps.len() > 0
    &&& forall|i: int|
        1 <= i < steps.len() ==> dir_step(disk, heads, steps[i - 1], #[trigger] steps[i])
    &&& steps.last().pending.len() == 0
}

proof fn lemma_dir_search(disk: Disk, heads: HeaderDirs, steps: Seq<Progress>, depth: nat, i: int)
    requires
        steps.len() > 0,
        forall|k: int|
            1 <= k < steps.len() ==> dir_step(disk, heads, steps[k - 1], #[trigger] steps[k]),
        all_within_depth(disk, steps[0].pending, depth),
        0 <= i < steps.len(),
    ensures
        all_within_depth(disk, steps[i].pending, depth),
        steps[i].found.to_multiset().add(dirs_below_all(disk, heads, steps[i].pending, depth))
            == steps[0].found.to_multiset().add(
            dirs_below_all(disk, heads, steps[0].pending, depth),
        ),
    decreases i,
{
    if i > 0 {
        lemma_dir_search(disk, heads, steps, depth, i - 1);
        let a = steps[i - 1];
        let b = steps[i];
        assert(dir_step(disk, heads, a, b));
        assert(a.pending =~= a.pending.drop_last().push(a.pending.last()));
        law_pff_search_step(disk, heads, a.pending.drop_last(), a.pending.last(), a.found, depth);
    }
}

/// A search for message directories that is over has found the message directories under those
/// that it started at, each as often as it is there, and they are read in the order of their
/// paths.
pub proof fn law_pff_search_finds_all(
    disk: Disk,
    heads: HeaderDirs,
    steps: Seq<Progress>,
    depth: nat,
    read: Seq<PathText>,
)
    requires
        is_dir_search(disk, heads, steps),
        steps[0].found == Seq::<PathText>::empty(),
        all_within_depth(disk, steps[0].pending, depth),
        is_sorted(read, steps.last().found),
    ensures
        read.to_multiset() == dirs_below_all(disk, heads, steps[0].pending, depth),
        paths_ordered(read),
{
    broadcast use vstd::seq_lib::group_to_multiset_ensures;

    let last = steps.last();
    lemma_dir_search(disk, heads, steps, depth, steps.len() - 1);
    assert(dirs_below_all(disk, heads, last.pending, depth) =~= Multiset::empty());
    assert(Seq::<PathText>::empty().to_multiset() =~= Multiset::empty());
    let below = dirs_below_all(disk, heads, steps[0].pending, depth);
    let found = last.found.to_multiset();
    assert(found.add(Multiset::empty()) =~= found);
    assert(Multiset::empty().add(below) =~= below);
}

} // verus!
