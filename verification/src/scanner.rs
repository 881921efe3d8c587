//! Scanning an archive into the index.
use vstd::prelude::*;

use crate::archive::{MessageText, RawMessage};
use crate::clock::{is_utc_time, utc_now};
use crate::db::{begin_result, db_error_text, insert_result, Database, DbError};
use crate::indexing::{identifiable, law_insert_counts};
use crate::people::{
    keeps_contacts, law_keeping_goes_on, law_message_keeps_contacts, law_own_rows_stay,
    lemma_same_contacts, own_rows,
};
use crate::readers::ArchiveReader;
use crate::soundness::{
    law_begun_scan_sound, law_finished_scan_sound, law_index_message_sound, law_message_fits,
    law_passed_over_sound, law_progressed_scan_sound, lemma_index_grown,
};
use crate::tables::{
    begun_scan, finished_scan, fits, has_room, has_scan, has_scan_room, is_indexed, message_row,
    next_scan_id, progressed_scan, rows_needed, same_identity, see_sender, sound, Tables,
};

verus! {

/// What became of the messages of a scan.
#[derive(Debug, Clone, Copy, PartialEq, Eq, Structural)]
pub struct ScanSummary {
    pub scan_id: i64,
    pub messages_seen: i64,
    pub messages_indexed: i64,
    pub messages_already_indexed: i64,
    pub malformed_messages: i64,
}

/// Why a scan failed.
#[derive(Debug, PartialEq, Eq)]
pub enum ScanError {
    /// The archive cannot be read.
    Reader(String),
    /// The index cannot be written.
    Database(DbError),
    /// The store that the index is written down in cannot be written.
    Store(String),
}

/// The error in words.
pub open spec fn scan_error_text(e: ScanError) -> Seq<char> {
    match e {
        ScanError::Reader(m) => m@,
        ScanError::Database(e) => db_error_text(e),
        ScanError::Store(m) => m@,
    }
}

impl ScanError {
    /// The error in words.
    pub fn message(&self) -> (r: String)
        ensures
            r@ == scan_error_text(*self),
    {
        match self {
            ScanError::Reader(m) => m.clone(),
            ScanError::Database(e) => (*e).message(),
            ScanError::Store(m) => m.clone(),
        }
    }
}

/// A scan before its first message.
pub open spec fn fresh_summary(scan_id: i64) -> ScanSummary {
    ScanSummary {
        scan_id,
        messages_seen: 0,
        messages_indexed: 0,
        messages_already_indexed: 0,
        malformed_messages: 0,
    }
}

/// Every message that was seen was indexed, was there already, or was malformed.
pub open spec fn adds_up(s: ScanSummary) -> bool {
    &&& s.messages_indexed >= 0
    &&& s.messages_already_indexed >= 0
    &&& s.malformed_messages >= 0
    &&& s.messages_seen == s.messages_indexed + s.messages_already_indexed + s.malformed_messages
}

/// The message that was read, unless it is malformed.
pub open spec fn item_text(item: Result<RawMessage, String>) -> Option<MessageText> {
    match item {
        Ok(m) => Some(m@),
        Err(_) => None,
    }
}

/// How many messages there are between two notes of how far a scan has got.
pub const PROGRESS_STEP: i64 = 500;

/// Every so many messages the scan notes how far it has got.
pub open spec fn noted(t: Tables, s: ScanSummary) -> Tables {
    if s.messages_seen % PROGRESS_STEP == 0 {
        progressed_scan(t, s.scan_id, s.messages_seen, s.messages_indexed)
    } else {
        t
    }
}

/// A summary after one more message: newly indexed, there already, or malformed.
pub open spec fn counted(s: ScanSummary, indexed: int, already: int, malformed: int) -> ScanSummary {
    ScanSummary {
        scan_id: s.scan_id,
        messages_seen: (s.messages_seen + 1) as i64,
        messages_indexed: (s.messages_indexed + indexed) as i64,
        messages_already_indexed: (s.messages_already_indexed + already) as i64,
        malformed_messages: (s.malformed_messages + malformed) as i64,
    }
}

/// What one more message does to the index and to the summary. A malformed message is counted
/// and passed over; a failure to write leaves both as they are.
pub open spec fn accepted(t: Tables, s: ScanSummary, item: Option<MessageText>, now: Seq<char>) -> (
    Result<(), DbError>,
    Tables,
    ScanSummary,
) {
    if s.messages_seen == i64::MAX {
        (Err(DbError::Full), t, s)
    } else {
        match item {
            Some(m) => match insert_result(t, s.scan_id, m, now) {
                (Ok(true), u) => {
                    let n = counted(s, 1, 0, 0);
                    (Ok(()), noted(u, n), n)
                },
                (Ok(false), u) => {
                    let n = counted(s, 0, 1, 0);
                    (Ok(()), noted(u, n), n)
                },
                (Err(e), u) => (Err(e), u, s),
            },
            None => {
                let n = counted(s, 0, 0, 1);
                (Ok(()), noted(t, n), n)
            },
        }
    }
}

/// Takes one message of a scan at a given time.
pub fn accept_at(
    db: &mut Database,
    summary: &mut ScanSummary,
    item: &Result<RawMessage, String>,
    now: &str,
) -> (r: Result<(), DbError>)
    requires
        old(db).wf(),
        adds_up(*old(summary)),
    ensures
        final(db).wf(),
        final(db).saved() == old(db).saved(),
        adds_up(*final(summary)),
        (r, final(db)@, *final(summary)) == accepted(
            old(db)@,
            *old(summary),
            item_text(*item),
            now@,
        ),
{
    if summary.messages_seen == i64::MAX {
        return Err(DbError::Full);
    }
    match item {
        Ok(message) => {
            match db.insert_message_at(summary.scan_id, message, now) {
                Ok(true) => {
                    summary.messages_indexed = summary.messages_indexed + 1;
                },
                Ok(false) => {
                    summary.messages_already_indexed = summary.messages_already_indexed + 1;
                },
                Err(e) => {
                    return Err(e);
                },
            }
        },
        Err(_) => {
            summary.malformed_messages = summary.malformed_messages + 1;
        },
    }
    summary.messages_seen = summary.messages_seen + 1;
    if summary.messages_seen % PROGRESS_STEP == 0 {
        db.update_scan_progress(
            summary.scan_id,
            summary.messages_seen,
            summary.messages_indexed,
        )?;
    }
    Ok(())
}

/// Takes one message of a scan now.
pub fn accept(db: &mut Database, summary: &mut ScanSummary, item: &Result<RawMessage, String>) -> (r:
    Result<(), DbError>)
    requires
        old(db).wf(),
        adds_up(*old(summary)),
    ensures
        final(db).wf(),
        final(db).saved() == old(db).saved(),
        adds_up(*final(summary)),
        exists|now: Seq<char>|
            is_utc_time(now) && (r, final(db)@, *final(summary)) == #[trigger] accepted(
                old(db)@,
                *old(summary),
                item_text(*item),
                now,
            ),
{
    let now = utc_now();
    accept_at(db, summary, item, now.as_str())
}

/// Begins a scan: its summary before the first message.
pub fn begin(db: &mut Database, archive_path: &str) -> (r: Result<ScanSummary, DbError>)
    requires
        old(db).wf(),
    ensures
        final(db).wf(),
        final(db).saved() == old(db).saved(),
        r matches Ok(s) ==> s == fresh_summary(s.scan_id),
        exists|now: Seq<char>|
            is_utc_time(now) && #[trigger] begin_result(old(db)@, archive_path@, now) == (
                match r {
                    Ok(s) => Ok(s.scan_id),
                    Err(e) => Err(e),
                },
                final(db)@,
            ),
{
    match db.begin_scan(archive_path) {
        Ok(scan_id) => Ok(
            ScanSummary {
                scan_id,
                messages_seen: 0,
                messages_indexed: 0,
                messages_already_indexed: 0,
                malformed_messages: 0,
            },
        ),
        Err(e) => Err(e),
    }
}

/// The index after a scan came to its end.
pub open spec fn completed(t: Tables, s: ScanSummary, now: Seq<char>) -> Tables {
    finished_scan(
        progressed_scan(t, s.scan_id, s.messages_seen, s.messages_indexed),
        s.scan_id,
        "completed"@,
        None,
        now,
    )
}

/// The index after a scan failed.
pub open spec fn failed(t: Tables, scan_id: i64, error: ScanError, now: Seq<char>) -> Tables {
    finished_scan(t, scan_id, "failed"@, Some(scan_error_text(error)), now)
}

/// Ends a scan: all messages were taken, or it failed on the way. The result is the summary, or
/// the failure.
pub fn conclude(db: &mut Database, summary: ScanSummary, outcome: Result<(), ScanError>) -> (r:
    Result<ScanSummary, ScanError>)
    requires
        old(db).wf(),
    ensures
        final(db).wf(),
        final(db).saved() == old(db).saved(),
        match outcome {
            Ok(_) => r == Ok::<ScanSummary, ScanError>(summary) && exists|now: Seq<char>|
                is_utc_time(now) && final(db)@ == #[trigger] completed(old(db)@, summary, now),
            Err(e) => r == Err::<ScanSummary, ScanError>(e) && exists|now: Seq<char>|
                is_utc_time(now) && final(db)@ == #[trigger] failed(
                    old(db)@,
                    summary.scan_id,
                    e,
                    now,
                ),
        },
{
    let now = utc_now();
    match outcome {
        Ok(_) => {
            let ghost before = db@;
            let _ = db.update_scan_progress(
                summary.scan_id,
                summary.messages_seen,
                summary.messages_indexed,
            );
            db.finish_scan_at(summary.scan_id, "completed", None, now.as_str());
            assert(db@ == completed(before, summary, now@));
            Ok(summary)
        },
        Err(e) => {
            let ghost before = db@;
            let text = e.message();
            db.finish_scan_at(summary.scan_id, "failed", Some(text.as_str()), now.as_str());
            assert(db@ == failed(before, summary.scan_id, e, now@));
            Err(e)
        },
    }
}

/// The messages of a scan, one after the other, up to the first failure.
pub open spec fn run_items(
    t: Tables,
    s: ScanSummary,
    items: Seq<Option<MessageText>>,
    times: Seq<Seq<char>>,
) -> (Result<(), DbError>, Tables, ScanSummary)
    decreases items.len(),
{
    if items.len() == 0 {
        (Ok(()), t, s)
    } else {
        let (r, u, v) = run_items(t, s, items.drop_last(), times.drop_last());
        if r is Ok {
            accepted(u, v, items.last(), times.last())
        } else {
            (r, u, v)
        }
    }
}

/// What happened during a scan: whether the archive refused to be read, the messages that were
/// read, when each was taken, and when the scan ended.
pub ghost struct Course {
    pub refused: Option<ScanError>,
    pub items: Seq<Option<MessageText>>,
    pub times: Seq<Seq<char>>,
    pub end: Seq<char>,
}

/// Whether a course leads from the beginning of a scan to a result and an index.
pub open spec fn leads_to(
    begun: Tables,
    scan_id: i64,
    c: Course,
    r: Result<ScanSummary, ScanError>,
    after: Tables,
) -> bool {
    &&& is_utc_time(c.end)
    &&& c.times.len() == c.items.len()
    &&& forall|i: int| 0 <= i < c.times.len() ==> is_utc_time(#[trigger] c.times[i])
    &&& match c.refused {
        Some(e) => e is Reader && r == Err::<ScanSummary, ScanError>(e) && after == failed(
            begun,
            scan_id,
            e,
            c.end,
        ),
        None => match run_items(begun, fresh_summary(scan_id), c.items, c.times) {
            (Ok(_), u, s) => r == Ok::<ScanSummary, ScanError>(s) && after == completed(u, s, c.end),
            (Err(e), u, _) => r == Err::<ScanSummary, ScanError>(ScanError::Database(e)) && after
                == failed(u, scan_id, ScanError::Database(e), c.end),
        },
    }
}

/// Whether a scan of the archive at a path can give a result and an index.
pub open spec fn scan_gives(
    t: Tables,
    path: Seq<char>,
    start: Seq<char>,
    c: Course,
    r: Result<ScanSummary, ScanError>,
    after: Tables,
) -> bool {
    is_utc_time(start) && match begin_result(t, path, start) {
        (Ok(id), begun) => leads_to(begun, id, c, r, after),
        (Err(e), same) => r == Err::<ScanSummary, ScanError>(ScanError::Database(e)) && after
            == same,
    }
}

/// Whether a message is what a reader can give at a position.
pub open spec fn can_read<R: ArchiveReader>(reader: R, index: int, item: Option<MessageText>) -> bool {
    exists|m: Result<RawMessage, String>| #[trigger]
        call_ensures(R::message, (&reader, index as usize), m) && item_text(m) == item
}

/// Whether the messages of a course are those of a reader: the first ones, one after the other,
/// and all of them unless the scan failed.
pub open spec fn reads<R: ArchiveReader>(
    reader: R,
    c: Course,
    r: Result<ScanSummary, ScanError>,
) -> bool {
    exists|n: usize| #[trigger]
        call_ensures(R::message_count, (&reader,), n) && c.items.len() <= n && (r is Ok
            ==> c.items.len() == n) && forall|k: int|
            0 <= k < c.items.len() ==> can_read(reader, k, #[trigger] c.items[k])
}

/// Whether a course goes by what the archive said when it was asked for its messages: a refusal
/// ends the scan with the reason that was given.
pub open spec fn told(c: Course, said: Result<(), String>) -> bool {
    match said {
        Ok(_) => c.refused is None,
        Err(m) => c.refused == Some(ScanError::Reader(m)),
    }
}

/// Scans an archive into the index: once the scan is on record the archive is asked for its
/// messages, each message that can be read is indexed, and the record says how the scan ended.
pub fn scan_archive<R: ArchiveReader>(db: &mut Database, reader: &mut R) -> (r: Result<
    ScanSummary,
    ScanError,
>)
    requires
        old(db).wf(),
    ensures
        final(db).wf(),
        final(db).saved() == old(db).saved(),
        exists|path: String, start: Seq<char>, c: Course, said: Result<(), String>|
            call_ensures(R::archive_path, (&*old(reader),), path) && (if has_scan_room(old(db)@) {
                old(reader).asked(&*final(reader), said)
            } else {
                *final(reader) == *old(reader)
            }) && #[trigger] told(c, said) && (c.refused is None && (r is Ok || c.items.len() > 0)
                ==> reads(*final(reader), c, r)) && #[trigger] scan_gives(
                old(db)@,
                path@,
                start,
                c,
                r,
                final(db)@,
            ),
{
    let ghost before = db@;
    let ghost mut c = Course {
        refused: None,
        items: Seq::empty(),
        times: Seq::empty(),
        end: Seq::empty(),
    };
    let archive_path = reader.archive_path();
    let ghost path = archive_path@;
    let begun = begin(db, archive_path.as_str());
    let ghost start = choose|now: Seq<char>|
        is_utc_time(now) && #[trigger] begin_result(before, path, now) == (
            match begun {
                Ok(s) => Ok(s.scan_id),
                Err(e) => Err(e),
            },
            db@,
        );
    let mut summary = match begun {
        Ok(s) => s,
        Err(e) => {
            let r = Err(ScanError::Database(e));
            assert(told(c, Ok(())));
            assert(scan_gives(before, path, start, c, r, db@));
            return r;
        },
    };
    let ghost first = db@;
    let scan_id = summary.scan_id;
    let said = reader.messages();
    let ghost answer = said;
    assert(has_scan_room(before));
    assert(old(reader).asked(&*reader, answer));
    if let Err(m) = said {
        let error = ScanError::Reader(m);
        let ghost e = error;
        let r = conclude(db, summary, Err(error));
        proof {
            c.refused = Some(e);
            c.end = choose|now: Seq<char>|
                is_utc_time(now) && db@ == #[trigger] failed(first, scan_id, e, now);
            assert(told(c, answer));
            assert(scan_gives(before, path, start, c, r, db@));
        }
        return r;
    }
    let count = reader.message_count();
    let ghost ready = *reader;
    let mut i: usize = 0;
    while i < count
        invariant
            0 <= i <= count,
            *reader == ready,
            answer is Ok,
            old(reader).asked(&ready, answer),
            has_scan_room(before),
            call_ensures(R::message_count, (&ready,), count),
            db.wf(),
            db.saved() == old(db).saved(),
            adds_up(summary),
            summary.scan_id == scan_id,
            is_utc_time(start),
            before == old(db)@,
            call_ensures(R::archive_path, (&*old(reader),), archive_path),
            path == archive_path@,
            begin_result(before, path, start) == (Ok::<i64, DbError>(scan_id), first),
            c.refused is None,
            c.items.len() == i,
            c.items.len() == c.times.len(),
            forall|k: int| 0 <= k < c.items.len() ==> can_read(ready, k, #[trigger] c.items[k]),
            forall|k: int| 0 <= k < c.times.len() ==> is_utc_time(#[trigger] c.times[k]),
            run_items(first, fresh_summary(scan_id), c.items, c.times) == (
                Ok::<(), DbError>(()),
                db@,
                summary,
            ),
        decreases count - i,
    {
        let item = reader.message(i);
        let ghost t0 = db@;
        let ghost s0 = summary;
        let taken = accept(db, &mut summary, &item);
        proof {
            let now = choose|now: Seq<char>|
                is_utc_time(now) && (taken, db@, summary) == #[trigger] accepted(
                    t0,
                    s0,
                    item_text(item),
                    now,
                );
            let items = c.items.push(item_text(item));
            let times = c.times.push(now);
            assert(items.drop_last() =~= c.items);
            assert(times.drop_last() =~= c.times);
            assert(call_ensures(R::message, (&ready, i), item));
            assert(can_read(ready, i as int, item_text(item)));
            c.items = items;
            c.times = times;
        }
        if let Err(e) = taken {
            let ghost t1 = db@;
            let r = conclude(db, summary, Err(ScanError::Database(e)));
            proof {
                let error = ScanError::Database(e);
                c.end = choose|now: Seq<char>|
                    is_utc_time(now) && db@ == #[trigger] failed(t1, scan_id, error, now);
                assert(leads_to(first, scan_id, c, r, db@));
                assert(reads(ready, c, r));
                assert(told(c, answer));
                assert(scan_gives(before, path, start, c, r, db@));
            }
            return r;
        }
        i = i + 1;
    }
    let ghost t1 = db@;
    let r = conclude(db, summary, Ok(()));
    proof {
        c.end = choose|now: Seq<char>|
            is_utc_time(now) && db@ == #[trigger] completed(t1, summary, now);
        assert(leads_to(first, scan_id, c, r, db@));
        assert(reads(ready, c, r));
        assert(told(c, answer));
        assert(scan_gives(before, path, start, c, r, db@));
    }
    r
}

// ---------------------------------------------------------------------------------------
// Laws
// ---------------------------------------------------------------------------------------

/// A malformed message never stops a scan and leaves the messages of the index alone.
pub proof fn law_malformed_passed_over(t: Tables, s: ScanSummary, now: Seq<char>)
    requires
        adds_up(s),
        s.messages_seen < i64::MAX,
    ensures
        ({
            let (r, u, n) = accepted(t, s, None, now);
            &&& r is Ok
            &&& u.messages == t.messages
            &&& u.contacts == t.contacts
            &&& n.malformed_messages == s.malformed_messages + 1
            &&& n.messages_indexed == s.messages_indexed
        }),
{
}

/// Whether the messages of tables are still there in others, and the scans with their ids.
spec fn carries_on(t: Tables, u: Tables) -> bool {
    &&& t.messages.is_prefix_of(u.messages)
    &&& u.ids.scans == t.ids.scans
    &&& forall|id: i64| #[trigger] has_scan(t, id) ==> has_scan(u, id)
}

proof fn lemma_still_indexed(t: Tables, u: Tables, m: MessageText)
    requires
        t.messages.is_prefix_of(u.messages),
        is_indexed(t, m),
    ensures
        is_indexed(u, m),
{
    let k = choose|k: int|
        0 <= k < t.messages.len() && same_identity(message_row(t, 0, m), #[trigger] t.messages[k]);
    assert(u.messages.subrange(0, t.messages.len() as int)[k] == u.messages[k]);
    assert(same_identity(message_row(u, 0, m), u.messages[k]));
}

proof fn lemma_accepted(t: Tables, s: ScanSummary, item: Option<MessageText>, now: Seq<char>)
    requires
        sound(t),
        adds_up(s),
    ensures
        ({
            let (r, u, n) = accepted(t, s, item, now);
            &&& sound(u)
            &&& adds_up(n)
            &&& carries_on(t, u)
            &&& n.scan_id == s.scan_id
            &&& r is Ok ==> n.messages_seen == s.messages_seen + 1
            &&& r is Ok ==> u.messages.len() - t.messages.len() == n.messages_indexed
                - s.messages_indexed
            &&& r is Ok ==> n.malformed_messages == s.malformed_messages + (if item is None {
                1int
            } else {
                0
            })
            &&& r is Ok && item is Some && identifiable(item->0) ==> is_indexed(u, item->0)
        }),
{
    assert(t.messages.subrange(0, t.messages.len() as int) =~= t.messages);
    if s.messages_seen < i64::MAX {
        let (r, u, n) = accepted(t, s, item, now);
        if let Some(m) = item {
            law_insert_counts(t, s.scan_id, m, now);
            lemma_index_grown(t, s.scan_id, m, now);
            let (added, v) = insert_result(t, s.scan_id, m, now);
            lemma_noted(v, n);
            assert forall|id: i64| #[trigger] has_scan(t, id) implies has_scan(u, id) by {
                let i = choose|i: int| 0 <= i < t.scans.len() && (#[trigger] t.scans[i]).id == id;
                assert(v.scans[i].id == id);
                assert(has_scan(v, id));
            }
            if added == Ok::<bool, DbError>(true) {
                law_index_message_sound(t, s.scan_id, m, now);
                let k = t.messages.len() as int;
                assert(v.messages[k] == message_row(t, s.scan_id, m));
                assert(v.messages.subrange(0, k) =~= t.messages);
                if identifiable(m) {
                    assert(same_identity(message_row(u, 0, m), u.messages[k]));
                }
            } else if added == Ok::<bool, DbError>(false) {
                law_passed_over_sound(t, m, now);
                lemma_still_indexed(t, u, m);
            }
        } else {
            lemma_noted(t, n);
        }
    }
}

proof fn lemma_noted(t: Tables, s: ScanSummary)
    requires
        sound(t),
    ensures
        sound(noted(t, s)),
        noted(t, s).messages == t.messages,
        carries_on(t, noted(t, s)),
{
    law_progressed_scan_sound(t, s.scan_id, s.messages_seen, s.messages_indexed);
    assert(t.messages.subrange(0, t.messages.len() as int) =~= t.messages);
}

/// The number of malformed messages.
pub open spec fn malformed_count(items: Seq<Option<MessageText>>) -> nat {
    items.filter(|item: Option<MessageText>| item is None).len()
}

/// Every message of a scan is accounted for: as many were seen as there were, and each of them
/// was newly indexed, was there already, or was malformed. The malformed ones are those that
/// could not be read, and the index has grown by the newly indexed ones.
pub proof fn law_scan_adds_up(
    t: Tables,
    scan_id: i64,
    items: Seq<Option<MessageText>>,
    times: Seq<Seq<char>>,
)
    requires
        sound(t),
        items.len() == times.len(),
    ensures
        ({
            let (r, u, s) = run_items(t, fresh_summary(scan_id), items, times);
            &&& sound(u)
            &&& adds_up(s)
            &&& s.scan_id == scan_id
            &&& r is Ok ==> s.messages_seen == items.len()
            &&& r is Ok ==> s.malformed_messages == malformed_count(items)
            &&& r is Ok ==> u.messages.len() == t.messages.len() + s.messages_indexed
        }),
    decreases items.len(),
{
    lemma_run(t, scan_id, items, times);
}

proof fn lemma_run(t: Tables, scan_id: i64, items: Seq<Option<MessageText>>, times: Seq<Seq<char>>)
    requires
        sound(t),
        items.len() == times.len(),
    ensures
        ({
            let (r, u, s) = run_items(t, fresh_summary(scan_id), items, times);
            &&& sound(u)
            &&& adds_up(s)
            &&& carries_on(t, u)
            &&& s.scan_id == scan_id
            &&& r is Ok ==> s.messages_seen == items.len()
            &&& r is Ok ==> s.malformed_messages == malformed_count(items)
            &&& r is Ok ==> u.messages.len() == t.messages.len() + s.messages_indexed
        }),
    decreases items.len(),
{
    reveal(Seq::filter);
    if items.len() == 0 {
        assert(t.messages.subrange(0, t.messages.len() as int) =~= t.messages);
    } else {
        lemma_run(t, scan_id, items.drop_last(), times.drop_last());
        let (r, u, s) = run_items(
            t,
            fresh_summary(scan_id),
            items.drop_last(),
            times.drop_last(),
        );
        if r is Ok {
            lemma_accepted(u, s, items.last(), times.last());
            let v = accepted(u, s, items.last(), times.last()).1;
            let n = t.messages.len() as int;
            assert(v.messages.subrange(0, n) =~= u.messages.subrange(0, n)) by {
                assert forall|i: int| 0 <= i < n implies v.messages[i] == u.messages[i] by {
                    assert(v.messages.subrange(0, u.messages.len() as int)[i] == v.messages[i]);
                }
            }
        }
    }
}

/// After a scan each of its messages that can be told from others is in the index, so scanning
/// the same archive again finds each of them there.
pub proof fn law_scanned_is_indexed(
    t: Tables,
    scan_id: i64,
    items: Seq<Option<MessageText>>,
    times: Seq<Seq<char>>,
    i: int,
)
    requires
        sound(t),
        items.len() == times.len(),
        run_items(t, fresh_summary(scan_id), items, times).0 is Ok,
        0 <= i < items.len(),
        items[i] is Some,
        identifiable(items[i]->0),
    ensures
        is_indexed(run_items(t, fresh_summary(scan_id), items, times).1, items[i]->0),
    decreases items.len(),
{
    let m = items[i]->0;
    let d = items.drop_last();
    let times_d = times.drop_last();
    let (r, u, s) = run_items(t, fresh_summary(scan_id), d, times_d);
    lemma_run(t, scan_id, d, times_d);
    lemma_accepted(u, s, items.last(), times.last());
    let v = accepted(u, s, items.last(), times.last()).1;
    if i < d.len() {
        assert(d[i] == items[i]);
        law_scanned_is_indexed(t, scan_id, d, times_d, i);
        lemma_still_indexed(u, v, m);
    }
}

/// A message that is in the index is counted as there already.
pub proof fn law_known_message_counted(t: Tables, s: ScanSummary, m: MessageText, now: Seq<char>)
    requires
        adds_up(s),
        s.messages_seen < i64::MAX,
        is_indexed(t, m),
        t.ids.messages < i64::MAX,
        fits(t, see_sender(t, m, now)),
    ensures
        ({
            let (r, u, n) = accepted(t, s, Some(m), now);
            &&& r is Ok
            &&& n.messages_already_indexed == s.messages_already_indexed + 1
            &&& n.messages_indexed == s.messages_indexed
        }),
{
}

/// Where each message is there already or malformed, nothing is indexed.
proof fn lemma_run_known(
    t: Tables,
    scan_id: i64,
    items: Seq<Option<MessageText>>,
    times: Seq<Seq<char>>,
)
    requires
        sound(t),
        items.len() == times.len(),
        forall|i: int|
            0 <= i < items.len() ==> ((#[trigger] items[i]) matches Some(m) ==> is_indexed(t, m)),
    ensures
        ({
            let (r, u, s) = run_items(t, fresh_summary(scan_id), items, times);
            r is Ok ==> s.messages_indexed == 0 && u.messages == t.messages
        }),
    decreases items.len(),
{
    if items.len() > 0 {
        let d = items.drop_last();
        assert forall|i: int| 0 <= i < d.len() implies ((#[trigger] d[i]) matches Some(m)
            ==> is_indexed(t, m)) by {
            assert(d[i] == items[i]);
        }
        lemma_run_known(t, scan_id, d, times.drop_last());
        lemma_run(t, scan_id, d, times.drop_last());
        let (r, u, s) = run_items(t, fresh_summary(scan_id), d, times.drop_last());
        if r is Ok {
            assert(items[items.len() - 1] == items.last());
            if let Some(m) = items.last() {
                lemma_still_indexed(t, u, m);
                lemma_index_grown(u, scan_id, m, times.last());
            }
        }
    }
}

/// Scanning the same messages again, as long as they can be told from others: nothing is indexed
/// the second time, every message that can be read is found to be there, and the messages of the
/// index stay as they are. The second scan has an id of its own.
pub proof fn law_scan_again(
    t: Tables,
    path: Seq<char>,
    start: Seq<char>,
    c: Course,
    s: ScanSummary,
    u: Tables,
    later_path: Seq<char>,
    later_start: Seq<char>,
    later: Course,
    later_s: ScanSummary,
    v: Tables,
)
    requires
        sound(t),
        scan_gives(t, path, start, c, Ok(s), u),
        scan_gives(u, later_path, later_start, later, Ok(later_s), v),
        later.items == c.items,
        forall|i: int|
            0 <= i < c.items.len() ==> ((#[trigger] c.items[i]) matches Some(m)
                ==> identifiable(m)),
    ensures
        later_s.messages_seen == s.messages_seen,
        later_s.messages_indexed == 0,
        later_s.malformed_messages == s.malformed_messages,
        later_s.messages_already_indexed == s.messages_seen - s.malformed_messages,
        later_s.scan_id != s.scan_id,
        v.messages == u.messages,
{
    let begun = begun_scan(t, path, start);
    let id = next_scan_id(t) as i64;
    law_begun_scan_sound(t, path, start);
    lemma_run(begun, id, c.items, c.times);
    let (_, read, _) = run_items(begun, fresh_summary(id), c.items, c.times);
    lemma_completed(read, s, c.end);
    let again = begun_scan(u, later_path, later_start);
    law_begun_scan_sound(u, later_path, later_start);
    assert forall|i: int| 0 <= i < c.items.len() implies ((#[trigger] c.items[i]) matches Some(m)
        ==> is_indexed(again, m)) by {
        if let Some(m) = c.items[i] {
            law_scanned_is_indexed(begun, id, c.items, c.times, i);
            assert(again.messages.subrange(0, read.messages.len() as int) =~= read.messages);
            lemma_still_indexed(read, again, m);
        }
    }
    let later_id = next_scan_id(u) as i64;
    lemma_run(again, later_id, c.items, later.times);
    lemma_run_known(again, later_id, c.items, later.times);
}

proof fn lemma_completed(t: Tables, s: ScanSummary, now: Seq<char>)
    requires
        sound(t),
    ensures
        sound(completed(t, s, now)),
        completed(t, s, now).messages == t.messages,
        completed(t, s, now).ids == t.ids,
{
    let p = progressed_scan(t, s.scan_id, s.messages_seen, s.messages_indexed);
    law_progressed_scan_sound(t, s.scan_id, s.messages_seen, s.messages_indexed);
    law_finished_scan_sound(p, s.scan_id, "completed"@, None, now);
}

proof fn lemma_run_keeps(t: Tables, scan_id: i64, items: Seq<Option<MessageText>>, times: Seq<Seq<char>>)
    requires
        sound(t),
        items.len() == times.len(),
    ensures
        keeps_contacts(t, run_items(t, fresh_summary(scan_id), items, times).1),
        own_rows(t) ==> own_rows(run_items(t, fresh_summary(scan_id), items, times).1),
    decreases items.len(),
{
    if items.len() == 0 {
        lemma_same_contacts(t, t);
    } else {
        let d = items.drop_last();
        lemma_run_keeps(t, scan_id, d, times.drop_last());
        lemma_run(t, scan_id, d, times.drop_last());
        let (r, u, s) = run_items(t, fresh_summary(scan_id), d, times.drop_last());
        if r is Ok {
            let v = accepted(u, s, items.last(), times.last()).1;
            lemma_same_contacts(u, u);
            let w = match items.last() {
                Some(m) => {
                    law_message_keeps_contacts(u, s.scan_id, m, times.last());
                    if own_rows(t) {
                        law_own_rows_stay(u, s.scan_id, m, times.last());
                    }
                    insert_result(u, s.scan_id, m, times.last()).1
                },
                None => u,
            };
            if s.messages_seen < i64::MAX {
                lemma_same_contacts(w, v);
                law_keeping_goes_on(u, w, v);
            }
            law_keeping_goes_on(t, u, v);
        }
    }
}

/// A scan, however it ends, keeps the tables sound, keeps all contacts, and keeps to the rows that
/// indexing alone writes.
pub proof fn law_scan_keeps_order(
    t: Tables,
    path: Seq<char>,
    start: Seq<char>,
    c: Course,
    r: Result<ScanSummary, ScanError>,
    after: Tables,
)
    requires
        sound(t),
        scan_gives(t, path, start, c, r, after),
    ensures
        sound(after),
        keeps_contacts(t, after),
        own_rows(t) ==> own_rows(after),
{
    lemma_same_contacts(t, t);
    if has_scan_room(t) {
        let begun = begun_scan(t, path, start);
        let id = next_scan_id(t) as i64;
        law_begun_scan_sound(t, path, start);
        lemma_run(begun, id, c.items, c.times);
        lemma_run_keeps(begun, id, c.items, c.times);
        assert(own_rows(t) ==> own_rows(begun));
        let (_, u, s) = run_items(begun, fresh_summary(id), c.items, c.times);
        match r {
            Ok(_) => {
                lemma_completed(u, s, c.end);
            },
            Err(e) => {
                let text = Some(scan_error_text(e));
                law_finished_scan_sound(begun, id, "failed"@, text, c.end);
                law_finished_scan_sound(u, id, "failed"@, text, c.end);
            },
        }
        lemma_same_contacts(t, begun);
        law_keeping_goes_on(t, begun, u);
        if c.refused is Some {
            lemma_same_contacts(t, after);
        } else {
            lemma_same_contacts(u, after);
            law_keeping_goes_on(t, u, after);
        }
    }
}

/// How many rows of a kind the messages of a scan can need.
pub open spec fn rows_of(items: Seq<Option<MessageText>>) -> int
    decreases items.len(),
{
    if items.len() == 0 {
        0
    } else {
        rows_of(items.drop_last()) + match items.last() {
            Some(m) => rows_needed(m),
            None => 0,
        }
    }
}

proof fn lemma_run_has_room(
    t: Tables,
    scan_id: i64,
    items: Seq<Option<MessageText>>,
    times: Seq<Seq<char>>,
    room: int,
)
    requires
        sound(t),
        has_scan(t, scan_id),
        items.len() == times.len(),
        items.len() <= i64::MAX,
        has_room(t, room),
        rows_of(items) <= room,
    ensures
        rows_of(items) >= 0,
        run_items(t, fresh_summary(scan_id), items, times).0 is Ok,
        has_room(run_items(t, fresh_summary(scan_id), items, times).1, room - rows_of(items)),
    decreases items.len(),
{
    if items.len() > 0 {
        let d = items.drop_last();
        assert(rows_of(d) <= rows_of(items));
        lemma_run_has_room(t, scan_id, d, times.drop_last(), room);
        lemma_run(t, scan_id, d, times.drop_last());
        let (_, u, s) = run_items(t, fresh_summary(scan_id), d, times.drop_last());
        let now = times.last();
        if let Some(m) = items.last() {
            law_message_fits(u, scan_id, m, now);
            lemma_index_grown(u, scan_id, m, now);
        }
    }
}

/// A scan of an archive that can be read comes to its end, as long as there is room for all of
/// its messages.
pub proof fn law_readable_archive_is_scanned(
    t: Tables,
    path: Seq<char>,
    start: Seq<char>,
    c: Course,
    r: Result<ScanSummary, ScanError>,
    after: Tables,
)
    requires
        sound(t),
        has_scan_room(t),
        has_room(t, rows_of(c.items)),
        c.items.len() <= i64::MAX,
        c.refused is None,
        scan_gives(t, path, start, c, r, after),
    ensures
        r matches Ok(s) && s.scan_id == next_scan_id(t) && s.messages_seen == c.items.len()
            && s.malformed_messages == malformed_count(c.items) && after.messages.len()
            == t.messages.len() + s.messages_indexed,
{
    let begun = begun_scan(t, path, start);
    let id = next_scan_id(t) as i64;
    law_begun_scan_sound(t, path, start);
    lemma_run_has_room(begun, id, c.items, c.times, rows_of(c.items));
    lemma_run(begun, id, c.items, c.times);
}

/// A scan of an archive that refused to be read fails with the reason that was given, and is
/// on record as failed; no message is added.
pub proof fn law_refused_archive_fails(
    t: Tables,
    path: Seq<char>,
    start: Seq<char>,
    c: Course,
    why: String,
    r: Result<ScanSummary, ScanError>,
    after: Tables,
)
    requires
        sound(t),
        has_scan_room(t),
        told(c, Err(why)),
        scan_gives(t, path, start, c, r, after),
    ensures
        r == Err::<ScanSummary, ScanError>(ScanError::Reader(why)),
        after.messages == t.messages,
        after.scans.len() == t.scans.len() + 1,
        after.scans.last().id == next_scan_id(t),
        after.scans.last().status == "failed"@,
        after.scans.last().error == Some(why@),
{
    law_begun_scan_sound(t, path, start);
}

} // verus!
