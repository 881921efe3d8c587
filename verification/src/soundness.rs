//! Every statement keeps the tables sound, as long as what it adds fits.
use vstd::prelude::*;

use crate::archive::{AddressText, MessageText};
use crate::classify::{kind_name, sender_kind};
use crate::normalize::email_of;
use crate::tables::{
    add_recipient, add_recipients, begun_scan, contact_of, finished_scan, fits, has_address,
    has_contact, has_domain, has_message, has_room, has_scan, has_scan_room, ids_grow,
    index_message, is_indexed, last_message_id, message_row, message_sender, next_message_id,
    next_scan_id, passed_over, progressed_scan, rows_needed, same_identity, see_address, see_domain,
    see_sender, seen_contact, sound, stored_message, within_limits, ContactText, Tables,
};

verus! {

// ---------------------------------------------------------------------------------------
// Growth
// ---------------------------------------------------------------------------------------

/// Whether tables have grown into others by at most `n` rows in each of them, with an id for
/// each new contact and address.
pub open spec fn grown(t: Tables, u: Tables, n: int) -> bool {
    &&& u.scans == t.scans && u.ids.scans == t.ids.scans
    &&& t.domains.len() <= u.domains.len() <= t.domains.len() + n
    &&& t.contacts.len() <= u.contacts.len() <= t.contacts.len() + n
    &&& t.addresses.len() <= u.addresses.len() <= t.addresses.len() + n
    &&& t.messages.len() <= u.messages.len() <= t.messages.len() + n
    &&& t.recipients.len() <= u.recipients.len() <= t.recipients.len() + n
    &&& fits(t, u) ==> u.ids.contacts == t.ids.contacts + (u.contacts.len() - t.contacts.len())
    &&& fits(t, u) ==> u.ids.addresses == t.ids.addresses + (u.addresses.len() - t.addresses.len())
}

/// Growth in two steps: where the whole fits, so does each step.
pub proof fn lemma_grown_twice(t: Tables, s: Tables, u: Tables, n: int, k: int)
    requires
        grown(t, s, n),
        grown(s, u, k),
    ensures
        grown(t, u, n + k),
        fits(t, u) ==> fits(t, s) && fits(s, u),
{
    if fits(t, u) {
        assert(within_limits(s));
        assert(fits(t, s));
        assert(fits(s, u));
    }
}

/// Seeing an address adds at most one row to each table, and none to the messages.
pub proof fn lemma_see_address_grown(
    t: Tables,
    a: AddressText,
    headers: Option<Seq<char>>,
    now: Seq<char>,
)
    ensures
        grown(t, see_address(t, a, headers, now), 1),
        see_address(t, a, headers, now).messages == t.messages,
        see_address(t, a, headers, now).recipients == t.recipients,
        see_address(t, a, headers, now).ids.messages == t.ids.messages,
{
}

/// Adding a recipient adds at most one row to each table, and none to the messages.
pub proof fn lemma_add_recipient_grown(
    t: Tables,
    message_id: i64,
    kind: Seq<char>,
    a: AddressText,
    now: Seq<char>,
)
    ensures
        grown(t, add_recipient(t, message_id, kind, a, now), 1),
        add_recipient(t, message_id, kind, a, now).messages == t.messages,
        add_recipient(t, message_id, kind, a, now).ids.messages == t.ids.messages,
        fits(t, add_recipient(t, message_id, kind, a, now)) ==> fits(
            t,
            see_address(t, a, None, now),
        ),
{
    lemma_see_address_grown(t, a, None, now);
}

/// Adding recipients adds at most one row to each table for each of them.
pub proof fn lemma_add_recipients_grown(
    t: Tables,
    message_id: i64,
    kind: Seq<char>,
    list: Seq<AddressText>,
    now: Seq<char>,
)
    ensures
        grown(t, add_recipients(t, message_id, kind, list, now), list.len() as int),
        add_recipients(t, message_id, kind, list, now).messages == t.messages,
        add_recipients(t, message_id, kind, list, now).ids.messages == t.ids.messages,
    decreases list.len(),
{
    if list.len() > 0 {
        let s = add_recipients(t, message_id, kind, list.drop_last(), now);
        lemma_add_recipients_grown(t, message_id, kind, list.drop_last(), now);
        lemma_add_recipient_grown(s, message_id, kind, list.last(), now);
        let u = add_recipients(t, message_id, kind, list, now);
        lemma_grown_twice(t, s, u, list.len() - 1, 1);
    }
}

/// The steps of indexing a message: where the whole fits, so does each step.
pub proof fn lemma_index_grown(t: Tables, scan_id: i64, m: MessageText, now: Seq<char>)
    ensures
        ({
            let id = message_row(t, scan_id, m).id;
            let stored = stored_message(t, scan_id, m, now);
            let with_to = add_recipients(stored, id, "to"@, m.to, now);
            let with_cc = add_recipients(with_to, id, "cc"@, m.cc, now);
            let u = index_message(t, scan_id, m, now);
            &&& grown(t, passed_over(t, m, now), 1)
            &&& grown(t, stored, 1)
            &&& grown(t, u, rows_needed(m))
            &&& stored.messages == t.messages.push(message_row(t, scan_id, m))
            &&& u.messages == stored.messages
            &&& u.ids.messages == stored.ids.messages
            &&& passed_over(t, m, now).messages == t.messages
            &&& passed_over(t, m, now).recipients == t.recipients
            &&& fits(t, stored) ==> fits(t, passed_over(t, m, now))
            &&& fits(t, passed_over(t, m, now)) == fits(t, see_sender(t, m, now))
            &&& fits(t, u) ==> fits(t, stored) && fits(stored, with_to) && fits(with_to, with_cc)
                && fits(with_cc, u)
        }),
{
    let id = message_row(t, scan_id, m).id;
    let stored = stored_message(t, scan_id, m, now);
    let with_to = add_recipients(stored, id, "to"@, m.to, now);
    let with_cc = add_recipients(with_to, id, "cc"@, m.cc, now);
    let u = index_message(t, scan_id, m, now);
    if let Some(a) = message_sender(m) {
        lemma_see_address_grown(t, a, m.headers, now);
    }
    lemma_add_recipients_grown(stored, id, "to"@, m.to, now);
    lemma_add_recipients_grown(with_to, id, "cc"@, m.cc, now);
    lemma_add_recipients_grown(with_cc, id, "bcc"@, m.bcc, now);
    lemma_grown_twice(t, stored, with_to, 1, m.to.len() as int);
    lemma_grown_twice(t, with_to, with_cc, (1 + m.to.len()) as int, m.cc.len() as int);
    lemma_grown_twice(t, with_cc, u, (1 + m.to.len() + m.cc.len()) as int, m.bcc.len() as int);
}

/// A message fits where there is room for one row for it, one for its sender and one for each
/// of its recipients.
pub proof fn law_message_fits(t: Tables, scan_id: i64, m: MessageText, now: Seq<char>)
    requires
        sound(t),
        has_room(t, rows_needed(m)),
    ensures
        t.ids.messages < i64::MAX,
        fits(t, see_sender(t, m, now)),
        fits(t, stored_message(t, scan_id, m, now)),
        fits(t, index_message(t, scan_id, m, now)),
{
    lemma_index_grown(t, scan_id, m, now);
}

// ---------------------------------------------------------------------------------------
// Soundness
// ---------------------------------------------------------------------------------------

/// Seeing a domain keeps the tables sound.
pub proof fn law_see_domain_sound(t: Tables, domain: Seq<char>, now: Seq<char>)
    requires
        sound(t),
        within_limits(see_domain(t, domain, now)),
    ensures
        sound(see_domain(t, domain, now)),
        has_domain(see_domain(t, domain, now), domain),
{
    let u = see_domain(t, domain, now);
    if has_domain(t, domain) {
        let i = choose|i: int|
            0 <= i < t.domains.len() && (#[trigger] t.domains[i]).domain == domain;
        assert(u.domains[i].domain == domain);
        assert forall|i: int, j: int| 0 <= i < j < u.domains.len() implies (
        #[trigger] u.domains[i]).domain != (#[trigger] u.domains[j]).domain by {
            assert(u.domains[i].domain == t.domains[i].domain);
            assert(u.domains[j].domain == t.domains[j].domain);
        }
    } else {
        assert(u.domains[t.domains.len() as int].domain == domain);
    }
}

/// Seeing an address keeps the tables sound.
pub proof fn law_see_address_sound(
    t: Tables,
    a: AddressText,
    headers: Option<Seq<char>>,
    now: Seq<char>,
)
    requires
        sound(t),
        fits(t, see_address(t, a, headers, now)),
    ensures
        sound(see_address(t, a, headers, now)),
        see_address(t, a, headers, now).scans == t.scans,
        see_address(t, a, headers, now).messages == t.messages,
        see_address(t, a, headers, now).recipients == t.recipients,
        email_of(a.email) matches Some(e) ==> has_address(
            see_address(t, a, headers, now),
            e.address,
        ),
        seen_contact(t, a) matches Some(id) ==> has_contact(
            see_address(t, a, headers, now).contacts,
            id,
        ),
{
    if let Some(e) = email_of(a.email) {
        let kind = kind_name(sender_kind(e.address, headers));
        let d = see_domain(t, e.domain, now);
        let u = see_address(t, a, headers, now);
        assert(u.domains == d.domains);
        assert(within_limits(d));
        law_see_domain_sound(t, e.domain, now);
        if has_address(t, e.address) {
            let i = choose|i: int|
                0 <= i < t.addresses.len() && (#[trigger] t.addresses[i]).email == e.address;
            let id = contact_of(t, e.address);
            assert(has_contact(t.contacts, t.addresses[i].contact_id));
            lemma_same_ids(t.contacts, u.contacts);
            assert(u.addresses[i].email == e.address);
            assert(has_contact(u.contacts, id));
        } else {
            let k = t.contacts.len() as int;
            assert forall|id: i64| #[trigger] has_contact(t.contacts, id) implies has_contact(
                u.contacts,
                id,
            ) by {
                let i = choose|i: int|
                    0 <= i < t.contacts.len() && (#[trigger] t.contacts[i]).id == id;
                assert(u.contacts[i] == t.contacts[i]);
            }
            assert(u.contacts[k].id == u.addresses[t.addresses.len() as int].contact_id);
            assert(u.addresses[t.addresses.len() as int].email == e.address);
            assert forall|i: int| 0 <= i < u.addresses.len() implies has_contact(
                u.contacts,
                (#[trigger] u.addresses[i]).contact_id,
            ) by {
                if i < t.addresses.len() {
                    assert(u.addresses[i] == t.addresses[i]);
                }
            }
        }
    }
}

proof fn lemma_same_ids(before: Seq<ContactText>, after: Seq<ContactText>)
    requires
        before.len() == after.len(),
        forall|i: int| 0 <= i < before.len() ==> (#[trigger] after[i]).id == before[i].id,
    ensures
        forall|id: i64| #[trigger] has_contact(before, id) ==> has_contact(after, id),
{
    assert forall|id: i64| #[trigger] has_contact(before, id) implies has_contact(after, id) by {
        let i = choose|i: int| 0 <= i < before.len() && (#[trigger] before[i]).id == id;
        assert(after[i].id == id);
    }
}

/// Adding a recipient of the last message keeps the tables sound.
pub proof fn law_add_recipient_sound(
    t: Tables,
    message_id: i64,
    kind: Seq<char>,
    a: AddressText,
    now: Seq<char>,
)
    requires
        sound(t),
        fits(t, add_recipient(t, message_id, kind, a, now)),
        t.messages.len() > 0,
        message_id == last_message_id(t),
    ensures
        sound(add_recipient(t, message_id, kind, a, now)),
        add_recipient(t, message_id, kind, a, now).scans == t.scans,
        add_recipient(t, message_id, kind, a, now).messages == t.messages,
{
    lemma_add_recipient_grown(t, message_id, kind, a, now);
    law_see_address_sound(t, a, None, now);
    let u = add_recipient(t, message_id, kind, a, now);
    assert(has_message(t.messages, message_id)) by {
        assert(t.messages[t.messages.len() - 1].id == message_id);
    }
    assert forall|i: int| 0 <= i < u.recipients.len() implies has_message(
        u.messages,
        (#[trigger] u.recipients[i]).message_id,
    ) by {
        if i < t.recipients.len() {
            assert(u.recipients[i] == t.recipients[i]);
        }
    }
}

/// Adding the recipients in one part of the last message keeps the tables sound.
pub proof fn law_add_recipients_sound(
    t: Tables,
    message_id: i64,
    kind: Seq<char>,
    list: Seq<AddressText>,
    now: Seq<char>,
)
    requires
        sound(t),
        fits(t, add_recipients(t, message_id, kind, list, now)),
        t.messages.len() > 0,
        message_id == last_message_id(t),
    ensures
        sound(add_recipients(t, message_id, kind, list, now)),
        add_recipients(t, message_id, kind, list, now).scans == t.scans,
        add_recipients(t, message_id, kind, list, now).messages == t.messages,
    decreases list.len(),
{
    if list.len() > 0 {
        let s = add_recipients(t, message_id, kind, list.drop_last(), now);
        let u = add_recipients(t, message_id, kind, list, now);
        lemma_add_recipients_grown(t, message_id, kind, list.drop_last(), now);
        lemma_add_recipient_grown(s, message_id, kind, list.last(), now);
        lemma_grown_twice(t, s, u, list.len() - 1, 1);
        law_add_recipients_sound(t, message_id, kind, list.drop_last(), now);
        law_add_recipient_sound(s, message_id, kind, list.last(), now);
    }
}

/// Seeing the sender of a message keeps the tables sound.
pub proof fn law_see_sender_sound(t: Tables, m: MessageText, now: Seq<char>)
    requires
        sound(t),
        fits(t, see_sender(t, m, now)),
    ensures
        sound(see_sender(t, m, now)),
        see_sender(t, m, now).scans == t.scans,
        see_sender(t, m, now).messages == t.messages,
        see_sender(t, m, now).recipients == t.recipients,
{
    if let Some(a) = message_sender(m) {
        law_see_address_sound(t, a, m.headers, now);
    }
}

/// Passing over a message that is there already keeps the tables sound.
pub proof fn law_passed_over_sound(t: Tables, m: MessageText, now: Seq<char>)
    requires
        sound(t),
        t.ids.messages < i64::MAX,
        fits(t, see_sender(t, m, now)),
    ensures
        sound(passed_over(t, m, now)),
        passed_over(t, m, now).scans == t.scans,
        passed_over(t, m, now).messages == t.messages,
        passed_over(t, m, now).recipients == t.recipients,
{
    law_see_sender_sound(t, m, now);
    let s = see_sender(t, m, now);
    let u = passed_over(t, m, now);
    assert(s.ids.messages == t.ids.messages);
    assert(last_message_id(u) == last_message_id(s));
    assert(sound(u));
}

/// Storing the row of a message that is not there yet, once its sender was seen, keeps the
/// tables sound.
pub proof fn law_store_message_sound(t: Tables, scan_id: i64, m: MessageText, now: Seq<char>)
    requires
        sound(t),
        t.ids.messages < i64::MAX,
        fits(t, stored_message(t, scan_id, m, now)),
        !is_indexed(t, m),
    ensures
        ({
            let row = message_row(t, scan_id, m);
            let stored = stored_message(t, scan_id, m, now);
            &&& sound(stored)
            &&& row.id == last_message_id(stored)
            &&& row.id == next_message_id(t)
        }),
{
    let row = message_row(t, scan_id, m);
    lemma_index_grown(t, scan_id, m, now);
    law_passed_over_sound(t, m, now);
    let stored = stored_message(t, scan_id, m, now);
    assert forall|i: int, j: int| 0 <= i < j < stored.messages.len() implies !same_identity(
        #[trigger] stored.messages[i],
        #[trigger] stored.messages[j],
    ) by {
        if j == t.messages.len() {
            assert(!same_identity(message_row(t, 0, m), t.messages[i]));
        }
    }
    assert forall|i: int| 0 <= i < stored.recipients.len() implies (
    #[trigger] stored.recipients[i]).message_id <= last_message_id(stored) by {
        assert(t.recipients[i].message_id <= last_message_id(t));
        assert(has_message(t.messages, t.recipients[i].message_id));
        assert(t.messages[t.messages.len() - 1].id <= t.ids.messages);
    }
    assert forall|i: int| 0 <= i < stored.recipients.len() implies has_message(
        stored.messages,
        (#[trigger] stored.recipients[i]).message_id,
    ) by {
        let id = t.recipients[i].message_id;
        let k = choose|k: int| 0 <= k < t.messages.len() && (#[trigger] t.messages[k]).id == id;
        assert(has_message(t.messages, id));
        assert(stored.messages[k] == t.messages[k]);
    }
    assert(ids_grow(stored));
}

/// Indexing a message that is not there yet keeps the tables sound.
pub proof fn law_index_message_sound(t: Tables, scan_id: i64, m: MessageText, now: Seq<char>)
    requires
        sound(t),
        t.ids.messages < i64::MAX,
        fits(t, index_message(t, scan_id, m, now)),
        !is_indexed(t, m),
    ensures
        sound(index_message(t, scan_id, m, now)),
        index_message(t, scan_id, m, now).scans == t.scans,
        index_message(t, scan_id, m, now).messages == t.messages.push(message_row(t, scan_id, m)),
{
    let row = message_row(t, scan_id, m);
    lemma_index_grown(t, scan_id, m, now);
    law_store_message_sound(t, scan_id, m, now);
    let stored = stored_message(t, scan_id, m, now);
    law_add_recipients_sound(stored, row.id, "to"@, m.to, now);
    let with_to = add_recipients(stored, row.id, "to"@, m.to, now);
    law_add_recipients_sound(with_to, row.id, "cc"@, m.cc, now);
    let with_cc = add_recipients(with_to, row.id, "cc"@, m.cc, now);
    law_add_recipients_sound(with_cc, row.id, "bcc"@, m.bcc, now);
}

/// Beginning a scan keeps the tables sound.
pub proof fn law_begun_scan_sound(t: Tables, archive_path: Seq<char>, now: Seq<char>)
    requires
        sound(t),
        has_scan_room(t),
    ensures
        sound(begun_scan(t, archive_path, now)),
        has_scan(begun_scan(t, archive_path, now), next_scan_id(t) as i64),
{
    let u = begun_scan(t, archive_path, now);
    assert(u.scans[t.scans.len() as int].id == next_scan_id(t));
    assert(last_message_id(u) == last_message_id(t));
}

/// Noting how far a scan has got keeps the tables sound.
pub proof fn law_progressed_scan_sound(t: Tables, id: i64, seen: i64, indexed: i64)
    requires
        sound(t),
    ensures
        sound(progressed_scan(t, id, seen, indexed)),
        forall|other: i64| #[trigger]
            has_scan(t, other) ==> has_scan(progressed_scan(t, id, seen, indexed), other),
{
    lemma_same_scans(t, progressed_scan(t, id, seen, indexed));
}

/// Ending a scan keeps the tables sound.
pub proof fn law_finished_scan_sound(
    t: Tables,
    id: i64,
    status: Seq<char>,
    error: Option<Seq<char>>,
    now: Seq<char>,
)
    requires
        sound(t),
    ensures
        sound(finished_scan(t, id, status, error, now)),
        forall|other: i64| #[trigger]
            has_scan(t, other) ==> has_scan(finished_scan(t, id, status, error, now), other),
{
    lemma_same_scans(t, finished_scan(t, id, status, error, now));
}

proof fn lemma_same_scans(t: Tables, u: Tables)
    requires
        sound(t),
        u == (Tables { scans: u.scans, ..t }),
        u.scans.len() == t.scans.len(),
        forall|i: int| 0 <= i < t.scans.len() ==> (#[trigger] u.scans[i]).id == t.scans[i].id,
    ensures
        sound(u),
        forall|id: i64| #[trigger] has_scan(t, id) ==> has_scan(u, id),
{
    assert(last_message_id(u) == last_message_id(t));
    assert forall|id: i64| #[trigger] has_scan(t, id) implies has_scan(u, id) by {
        let i = choose|i: int| 0 <= i < t.scans.len() && (#[trigger] t.scans[i]).id == id;
        assert(u.scans[i].id == id);
    }
}

} // verus!
