//! What indexing messages adds up to.
use vstd::prelude::*;

use crate::archive::{AddressText, MessageText};
use crate::classify::{kind_name, SenderKind};
use crate::db::{insert_error, insert_result, DbError};
use crate::normalize::email_of;
use crate::soundness::{law_index_message_sound, law_passed_over_sound, lemma_index_grown};
use crate::tables::{
    add_recipient, add_recipients, begun_scan, finished_scan, fits, has_address, has_scan,
    has_scan_room, index_message, is_indexed, message_row, message_sender, next_scan_id,
    progressed_scan, same_identity, same_recipient, see_address, see_sender, seen_again,
    seen_contact, sound, stored_message, ContactText, LastIds, RecipientText, ScanText, Tables,
};

verus! {

/// Whether a message can be told from others: it has a source or a message id.
pub open spec fn identifiable(m: MessageText) -> bool {
    m.source_id is Some || m.internet_message_id is Some
}

/// Whether a message lists a recipient.
pub open spec fn is_recipient(t: Tables, message_id: i64, kind: Seq<char>, email: Seq<char>) -> bool {
    exists|i: int|
        0 <= i < t.recipients.len() && (#[trigger] t.recipients[i]).message_id == message_id
            && t.recipients[i].kind == kind && t.recipients[i].email == email
}

/// Whether tables still hold the addresses and recipients of earlier ones.
spec fn keeps(t: Tables, u: Tables) -> bool {
    &&& t.addresses.len() <= u.addresses.len()
    &&& t.recipients.len() <= u.recipients.len()
    &&& forall|i: int| 0 <= i < t.addresses.len() ==> #[trigger] u.addresses[i] == t.addresses[i]
    &&& forall|i: int| 0 <= i < t.recipients.len() ==> #[trigger] u.recipients[i] == t.recipients[i]
}

proof fn lemma_keeps(t: Tables, u: Tables)
    requires
        keeps(t, u),
    ensures
        forall|e: Seq<char>| #[trigger] has_address(t, e) ==> has_address(u, e),
        forall|id: i64, kind: Seq<char>, e: Seq<char>| #[trigger]
            is_recipient(t, id, kind, e) ==> is_recipient(u, id, kind, e),
{
    assert forall|e: Seq<char>| #[trigger] has_address(t, e) implies has_address(u, e) by {
        let i = choose|i: int| 0 <= i < t.addresses.len() && (#[trigger] t.addresses[i]).email == e;
        assert(u.addresses[i].email == e);
    }
    assert forall|id: i64, kind: Seq<char>, e: Seq<char>| #[trigger]
        is_recipient(t, id, kind, e) implies is_recipient(u, id, kind, e) by {
        let i = choose|i: int|
            0 <= i < t.recipients.len() && (#[trigger] t.recipients[i]).message_id == id
                && t.recipients[i].kind == kind && t.recipients[i].email == e;
        assert(u.recipients[i] == t.recipients[i]);
    }
}

proof fn lemma_see_address_keeps(
    t: Tables,
    a: AddressText,
    headers: Option<Seq<char>>,
    now: Seq<char>,
)
    ensures
        keeps(t, see_address(t, a, headers, now)),
        email_of(a.email) matches Some(e) ==> has_address(
            see_address(t, a, headers, now),
            e.address,
        ),
{
    let u = see_address(t, a, headers, now);
    if let Some(e) = email_of(a.email) {
        if has_address(t, e.address) {
            lemma_keeps(t, u);
        } else {
            assert(u.addresses[t.addresses.len() as int].email == e.address);
        }
    }
}

proof fn lemma_add_recipient_keeps(
    t: Tables,
    id: i64,
    kind: Seq<char>,
    a: AddressText,
    now: Seq<char>,
)
    ensures
        keeps(t, add_recipient(t, id, kind, a, now)),
        email_of(a.email) matches Some(e) ==> has_address(
            add_recipient(t, id, kind, a, now),
            e.address,
        ) && is_recipient(add_recipient(t, id, kind, a, now), id, kind, e.address),
{
    lemma_see_address_keeps(t, a, None, now);
    let u = add_recipient(t, id, kind, a, now);
    let seen = see_address(t, a, None, now);
    if let Some(e) = email_of(a.email) {
        assert(has_address(seen, e.address));
        let k = choose|k: int|
            0 <= k < seen.addresses.len() && (#[trigger] seen.addresses[k]).email == e.address;
        assert(u.addresses[k].email == e.address);
        if u.recipients.len() == t.recipients.len() {
            let row = RecipientText {
                message_id: id,
                contact_id: seen_contact(t, a),
                kind,
                email: e.address,
                display_name: a.name,
                domain: Some(e.domain),
            };
            let i = choose|i: int|
                0 <= i < t.recipients.len() && same_recipient(#[trigger] t.recipients[i], row);
            assert(u.recipients[i].email == e.address);
        } else {
            assert(u.recipients[t.recipients.len() as int].email == e.address);
        }
    }
}

proof fn lemma_add_recipients_keeps(
    t: Tables,
    id: i64,
    kind: Seq<char>,
    list: Seq<AddressText>,
    now: Seq<char>,
)
    ensures
        keeps(t, add_recipients(t, id, kind, list, now)),
        forall|i: int|
            0 <= i < list.len() ==> (email_of((#[trigger] list[i]).email) matches Some(e)
                ==> has_address(add_recipients(t, id, kind, list, now), e.address) && is_recipient(
                add_recipients(t, id, kind, list, now),
                id,
                kind,
                e.address,
            )),
    decreases list.len(),
{
    if list.len() > 0 {
        let d = list.drop_last();
        let s = add_recipients(t, id, kind, d, now);
        let u = add_recipients(t, id, kind, list, now);
        lemma_add_recipients_keeps(t, id, kind, d, now);
        lemma_add_recipient_keeps(s, id, kind, list.last(), now);
        lemma_keeps(s, u);
        assert forall|i: int| 0 <= i < list.len() implies (email_of(
            (#[trigger] list[i]).email,
        ) matches Some(e) ==> has_address(u, e.address) && is_recipient(u, id, kind, e.address)) by {
            if i < d.len() {
                assert(d[i] == list[i]);
            }
        }
    }
}

/// A message is indexed whole: its row, its sender and each of its recipients with a mail
/// address are there afterwards, each recipient listed in its part.
pub proof fn law_indexed_whole(t: Tables, scan_id: i64, m: MessageText, now: Seq<char>)
    requires
        sound(t),
        t.ids.messages < i64::MAX,
        fits(t, index_message(t, scan_id, m, now)),
        !is_indexed(t, m),
    ensures
        ({
            let row = message_row(t, scan_id, m);
            let u = index_message(t, scan_id, m, now);
            &&& u.messages == t.messages.push(row)
            &&& message_sender(m) matches Some(a) ==> (email_of(a.email) matches Some(e)
                ==> has_address(u, e.address))
            &&& forall|i: int|
                0 <= i < m.to.len() ==> (email_of((#[trigger] m.to[i]).email) matches Some(e)
                    ==> has_address(u, e.address) && is_recipient(u, row.id, "to"@, e.address))
            &&& forall|i: int|
                0 <= i < m.cc.len() ==> (email_of((#[trigger] m.cc[i]).email) matches Some(e)
                    ==> has_address(u, e.address) && is_recipient(u, row.id, "cc"@, e.address))
            &&& forall|i: int|
                0 <= i < m.bcc.len() ==> (email_of((#[trigger] m.bcc[i]).email) matches Some(e)
                    ==> has_address(u, e.address) && is_recipient(u, row.id, "bcc"@, e.address))
        }),
{
    law_index_message_sound(t, scan_id, m, now);
    let row = message_row(t, scan_id, m);
    let stored = stored_message(t, scan_id, m, now);
    let with_to = add_recipients(stored, row.id, "to"@, m.to, now);
    let with_cc = add_recipients(with_to, row.id, "cc"@, m.cc, now);
    let u = add_recipients(with_cc, row.id, "bcc"@, m.bcc, now);
    lemma_add_recipients_keeps(stored, row.id, "to"@, m.to, now);
    lemma_add_recipients_keeps(with_to, row.id, "cc"@, m.cc, now);
    lemma_add_recipients_keeps(with_cc, row.id, "bcc"@, m.bcc, now);
    lemma_keeps(stored, with_to);
    lemma_keeps(with_to, with_cc);
    lemma_keeps(with_cc, u);
    if let Some(a) = message_sender(m) {
        lemma_see_address_keeps(t, a, m.headers, now);
        if let Some(e) = email_of(a.email) {
            let seen = see_sender(t, m, now);
            let k = choose|k: int|
                0 <= k < seen.addresses.len() && (#[trigger] seen.addresses[k]).email == e.address;
            assert(stored.addresses[k].email == e.address);
            assert(has_address(stored, e.address));
        }
    }
}

/// Indexing can be done again: a message that can be told from others and was indexed is found
/// to be there the next time, with the messages and recipients left as they are.
pub proof fn law_index_again(
    t: Tables,
    scan_id: i64,
    m: MessageText,
    now: Seq<char>,
    later_scan: i64,
    later: Seq<char>,
)
    requires
        sound(t),
        identifiable(m),
        insert_result(t, scan_id, m, now).0 == Ok::<bool, DbError>(true),
    ensures
        ({
            let u = insert_result(t, scan_id, m, now).1;
            let again = insert_result(u, later_scan, m, later);
            &&& is_indexed(u, m)
            &&& u.ids.messages < i64::MAX && fits(u, see_sender(u, m, later)) ==> again.0 == Ok::<
                bool,
                DbError,
            >(false)
            &&& again.1.messages == u.messages
            &&& again.1.recipients == u.recipients
        }),
{
    let u = index_message(t, scan_id, m, now);
    law_index_message_sound(t, scan_id, m, now);
    let k = t.messages.len() as int;
    assert(u.messages[k] == message_row(t, scan_id, m));
    assert(same_identity(message_row(u, 0, m), u.messages[k]));
    lemma_index_grown(u, later_scan, m, later);
}

/// Indexing adds at most the one message, and says whether it did; a failure changes nothing.
pub proof fn law_insert_counts(t: Tables, scan_id: i64, m: MessageText, now: Seq<char>)
    requires
        sound(t),
    ensures
        ({
            let (r, u) = insert_result(t, scan_id, m, now);
            &&& sound(u)
            &&& u.scans == t.scans
            &&& match r {
                Ok(added) => u.messages.len() == t.messages.len() + (if added {
                    1int
                } else {
                    0
                }),
                Err(_) => u == t,
            }
        }),
{
    if insert_error(t, scan_id, m, now) is None {
        if is_indexed(t, m) {
            law_passed_over_sound(t, m, now);
        } else {
            law_index_message_sound(t, scan_id, m, now);
        }
    }
}

/// A contact that was found to be something other than a person stays what it is.
pub proof fn law_kind_sticks(c: ContactText, kind: Seq<char>, now: Seq<char>)
    requires
        c.sender_kind != kind_name(SenderKind::Person),
    ensures
        seen_again(c, kind, now).sender_kind == c.sender_kind,
{
}

/// A scan that began, went on and came to an end is in the index with its last state; other
/// tables and other scans are as they were.
pub proof fn law_scan_is_recorded(
    t: Tables,
    path: Seq<char>,
    started: Seq<char>,
    seen: i64,
    indexed: i64,
    status: Seq<char>,
    error: Option<Seq<char>>,
    ended: Seq<char>,
)
    requires
        sound(t),
        has_scan_room(t),
    ensures
        ({
            let id = next_scan_id(t) as i64;
            let begun = begun_scan(t, path, started);
            let u = finished_scan(progressed_scan(begun, id, seen, indexed), id, status, error, ended);
            &&& has_scan(begun, id)
            &&& u == Tables {
                scans: t.scans.push(
                    ScanText {
                        id,
                        archive_path: path,
                        status,
                        started_at: started,
                        finished_at: Some(ended),
                        messages_seen: seen,
                        messages_indexed: indexed,
                        malformed_messages: 0,
                        error,
                    },
                ),
                ids: LastIds { scans: id, ..t.ids },
                ..t
            }
        }),
{
    let id = next_scan_id(t) as i64;
    let begun = begun_scan(t, path, started);
    let n = t.scans.len() as int;
    assert(begun.scans[n].id == id);
    assert forall|i: int| 0 <= i < n implies (#[trigger] t.scans[i]).id != id by {
        if i < n - 1 {
            assert(t.scans[i].id < t.scans[n - 1].id);
        }
    }
    let u = finished_scan(progressed_scan(begun, id, seen, indexed), id, status, error, ended);
    assert(u.scans =~= t.scans.push(
        ScanText {
            id,
            archive_path: path,
            status,
            started_at: started,
            finished_at: Some(ended),
            messages_seen: seen,
            messages_indexed: indexed,
            malformed_messages: 0,
            error,
        },
    ));
}

} // verus!
