//! What indexing counts and what a scan leaves on record, told by the messages.
use vstd::prelude::*;

use crate::archive::{AddressText, MessageText};
use crate::db::{begin_result, insert_error, insert_result, DbError};
use crate::normalize::email_of;
use crate::people::{lemma_add_recipients_own, lemma_see_address_own, own_rows};
use crate::scanner::{
    accepted, fresh_summary, law_scan_adds_up, run_items, scan_error_text, scan_gives, Course,
    ScanError, ScanSummary,
};
use crate::soundness::{
    law_add_recipients_sound, law_begun_scan_sound, law_index_message_sound, law_see_address_sound,
    law_store_message_sound, lemma_add_recipient_grown, lemma_add_recipients_grown,
    lemma_grown_twice, lemma_index_grown,
};
use crate::tables::{
    add_recipients, contact_of, fits, has_address, is_indexed, last_message_id, message_row,
    message_sender, passed_over, see_address, see_sender, sound, stored_message, ScanText, Tables,
};

verus! {

// ---------------------------------------------------------------------------------------
// Sights
// ---------------------------------------------------------------------------------------

/// Whether an address entry names an address.
pub open spec fn names(a: AddressText, x: Seq<char>) -> bool {
    email_of(a.email) matches Some(e) && e.address == x
}

/// How many entries of a list name an address.
pub open spec fn times_named(list: Seq<AddressText>, x: Seq<char>) -> nat {
    list.filter(|a: AddressText| names(a, x)).len()
}

/// How often the contact of an address was seen: what its row counts, and never if the address is
/// not in the index.
pub open spec fn seen_times(t: Tables, x: Seq<char>, n: int) -> bool {
    if has_address(t, x) {
        exists|i: int, k: int|
            0 <= i < t.addresses.len() && 0 <= k < t.contacts.len() && (
            #[trigger] t.addresses[i]).email == x && (#[trigger] t.contacts[k]).id
                == t.addresses[i].contact_id && t.contacts[k].message_count == n
    } else {
        n == 0
    }
}

proof fn lemma_sight(
    t: Tables,
    a: AddressText,
    headers: Option<Seq<char>>,
    now: Seq<char>,
    x: Seq<char>,
    n: int,
)
    requires
        sound(t),
        own_rows(t),
        fits(t, see_address(t, a, headers, now)),
        seen_times(t, x, n),
        n < i64::MAX,
    ensures
        seen_times(see_address(t, a, headers, now), x, if names(a, x) {
            n + 1
        } else {
            n
        }),
{
    let u = see_address(t, a, headers, now);
    law_see_address_sound(t, a, headers, now);
    if has_address(t, x) {
        let (i, k) = choose|i: int, k: int|
            0 <= i < t.addresses.len() && 0 <= k < t.contacts.len() && (
            #[trigger] t.addresses[i]).email == x && (#[trigger] t.contacts[k]).id
                == t.addresses[i].contact_id && t.contacts[k].message_count == n;
        assert(u.addresses[i] == t.addresses[i]);
        assert(has_address(u, x));
        if let Some(e) = email_of(a.email) {
            if has_address(t, e.address) {
                let j = choose|j: int|
                    0 <= j < t.addresses.len() && (#[trigger] t.addresses[j]).email == e.address;
                assert(contact_of(t, e.address) == t.addresses[j].contact_id);
                if e.address == x {
                    assert(i == j);
                } else {
                    assert(t.addresses[i].contact_id != t.addresses[j].contact_id);
                }
            } else {
                assert(u.contacts[k] == t.contacts[k]);
            }
        }
        assert(u.contacts[k].id == t.contacts[k].id);
        assert(u.addresses[i].email == x && u.contacts[k].id == u.addresses[i].contact_id);
    } else if names(a, x) {
        let i = t.addresses.len() as int;
        let k = t.contacts.len() as int;
        assert(u.addresses[i].email == x);
        assert(u.contacts[k].id == u.addresses[i].contact_id && u.contacts[k].message_count == 1);
    } else {
        assert(!has_address(u, x)) by {
            if has_address(u, x) {
                let i = choose|i: int|
                    0 <= i < u.addresses.len() && (#[trigger] u.addresses[i]).email == x;
                if i < t.addresses.len() {
                    assert(t.addresses[i].email == x);
                }
            }
        }
    }
}

proof fn lemma_times_named(list: Seq<AddressText>, x: Seq<char>)
    requires
        list.len() > 0,
    ensures
        times_named(list, x) == times_named(list.drop_last(), x) + (if names(list.last(), x) {
            1int
        } else {
            0
        }),
{
    reveal(Seq::filter);
}

proof fn lemma_sights(
    t: Tables,
    id: i64,
    kind: Seq<char>,
    list: Seq<AddressText>,
    now: Seq<char>,
    x: Seq<char>,
    n: int,
)
    requires
        sound(t),
        own_rows(t),
        kind == "to"@ || kind == "cc"@ || kind == "bcc"@,
        t.messages.len() > 0,
        id == last_message_id(t),
        fits(t, add_recipients(t, id, kind, list, now)),
        seen_times(t, x, n),
        n + list.len() <= i64::MAX,
    ensures
        seen_times(add_recipients(t, id, kind, list, now), x, n + times_named(list, x)),
        times_named(list, x) <= list.len(),
    decreases list.len(),
{
    if list.len() == 0 {
        reveal(Seq::filter);
        assert(times_named(list, x) == 0);
    } else {
        let d = list.drop_last();
        let s = add_recipients(t, id, kind, d, now);
        let u = add_recipients(t, id, kind, list, now);
        let a = list.last();
        lemma_add_recipients_grown(t, id, kind, d, now);
        lemma_add_recipient_grown(s, id, kind, a, now);
        lemma_grown_twice(t, s, u, list.len() - 1, 1);
        lemma_sights(t, id, kind, d, now, x, n);
        law_add_recipients_sound(t, id, kind, d, now);
        lemma_add_recipients_own(t, id, kind, d, now);
        lemma_times_named(list, x);
        lemma_sight(s, a, None, now, x, n + times_named(d, x));
        assert(u.addresses == see_address(s, a, None, now).addresses);
        assert(u.contacts == see_address(s, a, None, now).contacts);
    }
}

/// Everyone whom a new message names is in the index afterwards, and each time that it names an
/// address, as the sender or as a recipient in whichever part, is counted once.
pub proof fn law_every_sight_counts(
    t: Tables,
    scan_id: i64,
    m: MessageText,
    now: Seq<char>,
    x: Seq<char>,
    n: int,
)
    requires
        sound(t),
        own_rows(t),
        insert_result(t, scan_id, m, now).0 == Ok::<bool, DbError>(true),
        seen_times(t, x, n),
        n + 1 + m.to.len() + m.cc.len() + m.bcc.len() <= i64::MAX,
    ensures
        seen_times(
            insert_result(t, scan_id, m, now).1,
            x,
            n + (if m.sender matches Some(a) && names(a, x) || m.sender is None
                && (m.from matches Some(
                a,
            ) && names(a, x)) {
                1int
            } else {
                0
            }) + times_named(m.to, x) + times_named(m.cc, x) + times_named(m.bcc, x),
        ),
{
    lemma_index_grown(t, scan_id, m, now);
    law_store_message_sound(t, scan_id, m, now);
    let row = message_row(t, scan_id, m);
    let seen = see_sender(t, m, now);
    let stored = stored_message(t, scan_id, m, now);
    let with_to = add_recipients(stored, row.id, "to"@, m.to, now);
    let with_cc = add_recipients(with_to, row.id, "cc"@, m.cc, now);
    let by = if message_sender(m) is Some && names(message_sender(m)->0, x) {
        1int
    } else {
        0
    };
    if let Some(a) = message_sender(m) {
        lemma_sight(t, a, m.headers, now, x, n);
        lemma_see_address_own(t, a, m.headers, now);
    }
    assert(seen_times(seen, x, n + by));
    assert(own_rows(seen));
    assert(stored.addresses == seen.addresses && stored.contacts == seen.contacts);
    assert(stored.recipients == seen.recipients);
    lemma_same_rows(seen, stored, x, n + by);
    assert(own_rows(stored));
    lemma_sights(stored, row.id, "to"@, m.to, now, x, n + by);
    law_add_recipients_sound(stored, row.id, "to"@, m.to, now);
    lemma_add_recipients_own(stored, row.id, "to"@, m.to, now);
    lemma_sights(with_to, row.id, "cc"@, m.cc, now, x, n + by + times_named(m.to, x));
    law_add_recipients_sound(with_to, row.id, "cc"@, m.cc, now);
    lemma_add_recipients_own(with_to, row.id, "cc"@, m.cc, now);
    lemma_sights(
        with_cc,
        row.id,
        "bcc"@,
        m.bcc,
        now,
        x,
        n + by + times_named(m.to, x) + times_named(m.cc, x),
    );
}

proof fn lemma_same_rows(t: Tables, u: Tables, x: Seq<char>, n: int)
    requires
        t.addresses == u.addresses,
        t.contacts == u.contacts,
        seen_times(t, x, n),
    ensures
        seen_times(u, x, n),
{
    if has_address(t, x) {
        let (i, k) = choose|i: int, k: int|
            0 <= i < t.addresses.len() && 0 <= k < t.contacts.len() && (
            #[trigger] t.addresses[i]).email == x && (#[trigger] t.contacts[k]).id
                == t.addresses[i].contact_id && t.contacts[k].message_count == n;
        assert(u.addresses[i].email == x);
        assert(u.contacts[k].id == u.addresses[i].contact_id);
    } else if has_address(u, x) {
        let i = choose|i: int| 0 <= i < u.addresses.len() && (#[trigger] u.addresses[i]).email == x;
        assert(t.addresses[i].email == x);
    }
}

/// A message that is in the index already counts its sender once more, and nobody else.
pub proof fn law_known_message_counts_its_sender(
    t: Tables,
    scan_id: i64,
    m: MessageText,
    now: Seq<char>,
    x: Seq<char>,
    n: int,
)
    requires
        sound(t),
        own_rows(t),
        insert_result(t, scan_id, m, now).0 == Ok::<bool, DbError>(false),
        seen_times(t, x, n),
        n < i64::MAX,
    ensures
        seen_times(
            insert_result(t, scan_id, m, now).1,
            x,
            n + (if m.sender matches Some(a) && names(a, x) || m.sender is None
                && (m.from matches Some(
                a,
            ) && names(a, x)) {
                1int
            } else {
                0
            }),
        ),
{
    let seen = see_sender(t, m, now);
    if let Some(a) = message_sender(m) {
        lemma_sight(t, a, m.headers, now, x, n);
    }
    let by = if message_sender(m) is Some && names(message_sender(m)->0, x) {
        1int
    } else {
        0
    };
    assert(seen_times(seen, x, n + by));
    lemma_same_rows(seen, passed_over(t, m, now), x, n + by);
}

// ---------------------------------------------------------------------------------------
// Scans
// ---------------------------------------------------------------------------------------

/// Whether only the numbers of one scan's record differ.
pub open spec fn same_records(a: Seq<ScanText>, b: Seq<ScanText>, id: i64) -> bool {
    &&& a.len() == b.len()
    &&& forall|i: int|
        0 <= i < a.len() ==> {
            let x = #[trigger] a[i];
            let y = b[i];
            &&& x.id != id ==> y == x
            &&& y == ScanText {
                messages_seen: y.messages_seen,
                messages_indexed: y.messages_indexed,
                ..x
            }
        }
}

proof fn lemma_insert_keeps_scans(t: Tables, scan_id: i64, m: MessageText, now: Seq<char>)
    requires
        sound(t),
    ensures
        insert_result(t, scan_id, m, now).1.scans == t.scans,
{
    if insert_error(t, scan_id, m, now) is None && !is_indexed(t, m) {
        law_index_message_sound(t, scan_id, m, now);
    }
}

/// One message more is counted once: as malformed if it could not be read, as known if it is in
/// the index already, and else as indexed. Every five hundred messages, and then only, the record
/// of the scan says how far it has got.
pub proof fn law_one_more_message(
    t: Tables,
    s: ScanSummary,
    item: Option<MessageText>,
    now: Seq<char>,
    i: int,
)
    requires
        sound(t),
        accepted(t, s, item, now).0 is Ok,
        0 <= s.messages_seen,
        0 <= s.messages_indexed <= s.messages_seen,
        0 <= s.messages_already_indexed <= s.messages_seen,
        0 <= s.malformed_messages <= s.messages_seen,
        0 <= i < t.scans.len(),
    ensures
        ({
            let (_, u, n) = accepted(t, s, item, now);
            let grown = u.messages.len() > t.messages.len();
            &&& n.scan_id == s.scan_id
            &&& n.messages_seen == s.messages_seen + 1
            &&& item is None ==> n.malformed_messages == s.malformed_messages + 1
                && n.messages_indexed == s.messages_indexed && n.messages_already_indexed
                == s.messages_already_indexed
            &&& item is Some && grown ==> n.messages_indexed == s.messages_indexed + 1
                && n.malformed_messages == s.malformed_messages && n.messages_already_indexed
                == s.messages_already_indexed
            &&& item is Some && !grown ==> n.messages_already_indexed == s.messages_already_indexed
                + 1 && n.malformed_messages == s.malformed_messages && n.messages_indexed
                == s.messages_indexed
            &&& u.scans.len() == t.scans.len()
            &&& n.messages_seen % 500 == 0 && t.scans[i].id == s.scan_id ==> u.scans[i]
                == ScanText {
                messages_seen: n.messages_seen,
                messages_indexed: n.messages_indexed,
                ..t.scans[i]
            }
            &&& n.messages_seen % 500 != 0 || t.scans[i].id != s.scan_id ==> u.scans[i]
                == t.scans[i]
        }),
{
    if let Some(m) = item {
        lemma_insert_keeps_scans(t, s.scan_id, m, now);
        lemma_index_grown(t, s.scan_id, m, now);
    }
}

proof fn lemma_accepted_records(t: Tables, s: ScanSummary, item: Option<MessageText>, now: Seq<char>)
    requires
        sound(t),
    ensures
        same_records(t.scans, accepted(t, s, item, now).1.scans, s.scan_id),
        accepted(t, s, item, now).2.scan_id == s.scan_id,
{
    if let Some(m) = item {
        lemma_insert_keeps_scans(t, s.scan_id, m, now);
    }
}

proof fn lemma_run_records(
    t: Tables,
    scan_id: i64,
    items: Seq<Option<MessageText>>,
    times: Seq<Seq<char>>,
)
    requires
        sound(t),
        items.len() == times.len(),
    ensures
        ({
            let (_, u, s) = run_items(t, fresh_summary(scan_id), items, times);
            same_records(t.scans, u.scans, scan_id) && s.scan_id == scan_id
        }),
    decreases items.len(),
{
    if items.len() > 0 {
        let d = items.drop_last();
        let e = times.drop_last();
        lemma_run_records(t, scan_id, d, e);
        law_scan_adds_up(t, scan_id, d, e);
        let (r, u, s) = run_items(t, fresh_summary(scan_id), d, e);
        if r is Ok {
            lemma_accepted_records(u, s, items.last(), times.last());
        }
    }
}

/// A scan leaves a record of its own behind: which archive, when it began and when it ended; if
/// it came to its end, that it did, and how many messages it saw and indexed; if not, that it
/// failed, and why. The records of other scans stay as they are.
pub proof fn law_scan_leaves_a_record(
    t: Tables,
    path: Seq<char>,
    start: Seq<char>,
    c: Course,
    r: Result<ScanSummary, ScanError>,
    after: Tables,
)
    requires
        sound(t),
        scan_gives(t, path, start, c, r, after),
        begin_result(t, path, start).0 is Ok,
    ensures
        ({
            let n = t.scans.len() as int;
            let record = after.scans[n];
            &&& after.scans.len() == n + 1
            &&& forall|i: int| 0 <= i < n ==> #[trigger] after.scans[i] == t.scans[i]
            &&& forall|i: int| 0 <= i < n ==> (#[trigger] t.scans[i]).id < record.id
            &&& record.archive_path == path
            &&& record.started_at == start
            &&& record.finished_at == Some(c.end)
            &&& r matches Ok(s) ==> {
                &&& record.id == s.scan_id
                &&& record.status == "completed"@
                &&& record.error is None
                &&& record.messages_seen == s.messages_seen
                &&& record.messages_indexed == s.messages_indexed
                &&& s.messages_seen == c.items.len()
                &&& after.messages.len() == t.messages.len() + s.messages_indexed
            }
            &&& r matches Err(e) ==> {
                &&& record.status == "failed"@
                &&& record.error == Some(scan_error_text(e))
            }
        }),
{
    let (b, begun) = begin_result(t, path, start);
    let id = b->Ok_0;
    let n = t.scans.len() as int;
    law_begun_scan_sound(t, path, start);
    assert(begun.scans[n].id == id);
    assert forall|i: int| 0 <= i < n implies (#[trigger] begun.scans[i]) == t.scans[i]
        && t.scans[i].id < id by {
        assert(t.scans[i].id <= t.ids.scans);
    }
    if c.refused is None {
        lemma_run_records(begun, id, c.items, c.times);
        law_scan_adds_up(begun, id, c.items, c.times);
        let (_, u, s) = run_items(begun, fresh_summary(id), c.items, c.times);
        assert forall|i: int| 0 <= i < n implies #[trigger] u.scans[i] == t.scans[i] by {
            assert(begun.scans[i] == t.scans[i]);
        }
        assert(u.scans[n].id == begun.scans[n].id);
        assert forall|i: int| 0 <= i < n implies #[trigger] after.scans[i] == t.scans[i] by {
            assert(u.scans[i] == t.scans[i]);
        }
    } else {
        assert forall|i: int| 0 <= i < n implies #[trigger] after.scans[i] == t.scans[i] by {
            assert(begun.scans[i] == t.scans[i]);
        }
    }
}

} // verus!
