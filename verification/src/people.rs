//! What becomes of contacts as messages are indexed.
use vstd::prelude::*;

use crate::archive::{AddressText, MessageText};
use crate::classify::{filtered_kind, kind_name, law_only_people_pass, sender_kind, SenderKind};
use crate::db::{begin_result, insert_error, insert_result};
use crate::indexing::law_insert_counts;
use crate::normalize::{email_of, law_address_tells_domain, EmailText};
use crate::ranking::{
    contact_with, is_listing, law_listed_are_asked_for, machine_kind, standing, QueryText,
    SummaryText,
};
use crate::soundness::{
    law_add_recipients_sound, law_begun_scan_sound, law_finished_scan_sound,
    law_index_message_sound, law_passed_over_sound, law_progressed_scan_sound,
    law_see_address_sound, law_see_sender_sound, law_store_message_sound, lemma_add_recipient_grown,
    lemma_add_recipients_grown, lemma_grown_twice, lemma_index_grown,
};
use crate::tables::{
    add_recipients, begun_scan, contact_of, finished_scan, fits, has_address, has_contact,
    has_scan_room, is_indexed, last_message_id, message_row, message_sender, no_rows, one_more,
    passed_over, progressed_scan, see_address, see_sender, seen_again, seen_contact, sound,
    stored_message, Tables,
};

verus! {

// ---------------------------------------------------------------------------------------
// One contact for each address
// ---------------------------------------------------------------------------------------

proof fn lemma_contact_of(t: Tables, i: int)
    requires
        sound(t),
        0 <= i < t.addresses.len(),
    ensures
        has_address(t, t.addresses[i].email),
        contact_of(t, t.addresses[i].email) == t.addresses[i].contact_id,
{
    let k = choose|k: int|
        0 <= k < t.addresses.len() && (#[trigger] t.addresses[k]).email == t.addresses[i].email;
    if k < i {
        assert(t.addresses[k].email != t.addresses[i].email);
    } else if i < k {
        assert(t.addresses[i].email != t.addresses[k].email);
    }
}

proof fn lemma_known_contact(t: Tables, email: Seq<char>)
    requires
        sound(t),
        has_address(t, email),
    ensures
        has_contact(t.contacts, contact_of(t, email)),
        contact_of(t, email) <= t.ids.contacts,
{
    let k = choose|k: int| 0 <= k < t.addresses.len() && (#[trigger] t.addresses[k]).email == email;
    assert(has_contact(t.contacts, t.addresses[k].contact_id));
    let i = choose|i: int|
        0 <= i < t.contacts.len() && (#[trigger] t.contacts[i]).id == t.addresses[k].contact_id;
    assert(t.contacts[i].id <= t.ids.contacts);
}

/// Whether tables still hold the addresses of earlier ones, each at its place, and their contacts
/// with their ids and names; a contact may have been seen more often since.
pub open spec fn keeps_contacts(t: Tables, u: Tables) -> bool {
    &&& t.addresses.is_prefix_of(u.addresses)
    &&& t.contacts.len() <= u.contacts.len()
    &&& forall|i: int|
        0 <= i < t.contacts.len() ==> (#[trigger] u.contacts[i]).id == t.contacts[i].id
            && u.contacts[i].display_name == t.contacts[i].display_name
            && u.contacts[i].first_seen_at == t.contacts[i].first_seen_at
            && u.contacts[i].message_count >= t.contacts[i].message_count
}

/// An address that is there keeps its contact for as long as the addresses keep their places.
pub proof fn law_address_keeps_contact(t: Tables, u: Tables, email: Seq<char>)
    requires
        sound(t),
        sound(u),
        t.addresses.is_prefix_of(u.addresses),
        has_address(t, email),
    ensures
        has_address(u, email),
        contact_of(u, email) == contact_of(t, email),
{
    let k = choose|k: int| 0 <= k < t.addresses.len() && (#[trigger] t.addresses[k]).email == email;
    assert(u.addresses.subrange(0, t.addresses.len() as int)[k] == u.addresses[k]);
    lemma_contact_of(t, k);
    lemma_contact_of(u, k);
}

/// What keeps contacts goes on keeping them.
pub proof fn law_keeping_goes_on(t: Tables, u: Tables, v: Tables)
    requires
        keeps_contacts(t, u),
        keeps_contacts(u, v),
    ensures
        keeps_contacts(t, v),
{
    let n = t.addresses.len() as int;
    assert forall|i: int| 0 <= i < n implies v.addresses[i] == t.addresses[i] by {
        assert(u.addresses.subrange(0, n)[i] == u.addresses[i]);
        assert(v.addresses.subrange(0, u.addresses.len() as int)[i] == v.addresses[i]);
    }
    assert(v.addresses.subrange(0, n) =~= t.addresses);
    assert forall|i: int| 0 <= i < t.contacts.len() implies (#[trigger] v.contacts[i]).id
        == t.contacts[i].id && v.contacts[i].display_name == t.contacts[i].display_name
        && v.contacts[i].first_seen_at == t.contacts[i].first_seen_at
        && v.contacts[i].message_count >= t.contacts[i].message_count by {
        assert(u.contacts[i].id == t.contacts[i].id);
    }
}

/// Tables with the same contacts and addresses keep them.
pub proof fn lemma_same_contacts(t: Tables, u: Tables)
    requires
        u.addresses == t.addresses,
        u.contacts == t.contacts,
    ensures
        keeps_contacts(t, u),
{
    assert(u.addresses.subrange(0, t.addresses.len() as int) =~= t.addresses);
}

/// Seeing an address keeps all contacts.
pub proof fn law_sight_keeps_contacts(
    t: Tables,
    a: AddressText,
    headers: Option<Seq<char>>,
    now: Seq<char>,
)
    ensures
        keeps_contacts(t, see_address(t, a, headers, now)),
{
    let u = see_address(t, a, headers, now);
    assert(u.addresses.subrange(0, t.addresses.len() as int) =~= t.addresses);
}

/// Adding recipients keeps all contacts.
pub proof fn law_recipients_keep_contacts(
    t: Tables,
    id: i64,
    kind: Seq<char>,
    list: Seq<AddressText>,
    now: Seq<char>,
)
    ensures
        keeps_contacts(t, add_recipients(t, id, kind, list, now)),
    decreases list.len(),
{
    if list.len() == 0 {
        lemma_same_contacts(t, t);
    } else {
        let s = add_recipients(t, id, kind, list.drop_last(), now);
        let u = add_recipients(t, id, kind, list, now);
        let seen = see_address(s, list.last(), None, now);
        law_recipients_keep_contacts(t, id, kind, list.drop_last(), now);
        law_sight_keeps_contacts(s, list.last(), None, now);
        lemma_same_contacts(seen, u);
        law_keeping_goes_on(t, s, seen);
        law_keeping_goes_on(t, seen, u);
    }
}

/// Indexing a message keeps all contacts, whatever comes of it.
pub proof fn law_message_keeps_contacts(t: Tables, scan_id: i64, m: MessageText, now: Seq<char>)
    ensures
        keeps_contacts(t, see_sender(t, m, now)),
        keeps_contacts(t, stored_message(t, scan_id, m, now)),
        keeps_contacts(t, insert_result(t, scan_id, m, now).1),
{
    let seen = see_sender(t, m, now);
    lemma_same_contacts(t, t);
    if let Some(a) = message_sender(m) {
        law_sight_keeps_contacts(t, a, m.headers, now);
    }
    let over = passed_over(t, m, now);
    lemma_same_contacts(seen, over);
    law_keeping_goes_on(t, seen, over);
    let id = message_row(t, scan_id, m).id;
    let stored = stored_message(t, scan_id, m, now);
    lemma_same_contacts(seen, stored);
    law_keeping_goes_on(t, seen, stored);
    let with_to = add_recipients(stored, id, "to"@, m.to, now);
    law_recipients_keep_contacts(stored, id, "to"@, m.to, now);
    law_keeping_goes_on(t, stored, with_to);
    let with_cc = add_recipients(with_to, id, "cc"@, m.cc, now);
    law_recipients_keep_contacts(with_to, id, "cc"@, m.cc, now);
    law_keeping_goes_on(t, with_to, with_cc);
    let u = add_recipients(with_cc, id, "bcc"@, m.bcc, now);
    law_recipients_keep_contacts(with_cc, id, "bcc"@, m.bcc, now);
    law_keeping_goes_on(t, with_cc, u);
}

/// The contact of an address, once it was seen.
proof fn lemma_seen(t: Tables, a: AddressText, headers: Option<Seq<char>>, now: Seq<char>, e: EmailText)
    requires
        sound(t),
        email_of(a.email) == Some(e),
        fits(t, see_address(t, a, headers, now)),
    ensures
        has_address(see_address(t, a, headers, now), e.address),
        Some(contact_of(see_address(t, a, headers, now), e.address)) == seen_contact(t, a),
{
    law_see_address_sound(t, a, headers, now);
    let u = see_address(t, a, headers, now);
    if has_address(t, e.address) {
        law_sight_keeps_contacts(t, a, headers, now);
        law_address_keeps_contact(t, u, e.address);
    } else {
        let n = t.addresses.len() as int;
        assert(u.addresses[n].email == e.address);
        lemma_contact_of(u, n);
    }
}

/// An address that is seen twice, in whatever way it is written and however much is written in
/// between, has one contact. The second time adds no contact and no address; it raises the count
/// of that contact by one, keeps the name that it had from the first time on, and leaves all
/// others as they are.
pub proof fn law_one_contact_for_an_address(
    t: Tables,
    a: AddressText,
    headers: Option<Seq<char>>,
    now: Seq<char>,
    w: Tables,
    b: AddressText,
    later_headers: Option<Seq<char>>,
    later: Seq<char>,
)
    requires
        sound(t),
        fits(t, see_address(t, a, headers, now)),
        sound(w),
        keeps_contacts(see_address(t, a, headers, now), w),
        email_of(a.email) is Some,
        email_of(a.email) == email_of(b.email),
    ensures
        same_contact(t, a, headers, now, w, b, later_headers, later),
{
    let e = email_of(a.email)->0;
    let u = see_address(t, a, headers, now);
    lemma_seen(t, a, headers, now, e);
    law_see_address_sound(t, a, headers, now);
    law_address_keeps_contact(u, w, e.address);
    lemma_known_contact(u, e.address);
}

/// Whether two sights of addresses, with tables before the first and before the second, have one
/// contact.
pub open spec fn same_contact(
    t: Tables,
    a: AddressText,
    headers: Option<Seq<char>>,
    now: Seq<char>,
    w: Tables,
    b: AddressText,
    later_headers: Option<Seq<char>>,
    later: Seq<char>,
) -> bool {
    let u = see_address(t, a, headers, now);
    let v = see_address(w, b, later_headers, later);
    let id = seen_contact(t, a);
    &&& id is Some
    &&& seen_contact(w, b) == id
    &&& v.addresses == w.addresses
    &&& v.contacts.len() == w.contacts.len()
    &&& has_contact(u.contacts, id->0)
    &&& forall|i: int|
        0 <= i < u.contacts.len() && u.contacts[i].id == id->0 ==> (
        #[trigger] v.contacts[i]).display_name == u.contacts[i].display_name
    &&& forall|i: int|
        0 <= i < w.contacts.len() ==> if w.contacts[i].id == id->0 {
            (#[trigger] v.contacts[i]).id == id->0 && v.contacts[i].display_name
                == w.contacts[i].display_name && v.contacts[i].message_count == one_more(
                w.contacts[i].message_count,
            )
        } else {
            v.contacts[i] == w.contacts[i]
        }
}

/// What names no mail address has no contact, and nothing is written for it.
pub proof fn law_no_contact_without_address(
    t: Tables,
    a: AddressText,
    headers: Option<Seq<char>>,
    now: Seq<char>,
)
    requires
        email_of(a.email) is None,
    ensures
        seen_contact(t, a) is None,
        see_address(t, a, headers, now) == t,
{
}

/// Whether the rows are such as indexing alone writes: no contact has two addresses, and each
/// recipient stands in one of the three parts of a message.
pub open spec fn own_rows(t: Tables) -> bool {
    &&& forall|i: int, j: int|
        0 <= i < j < t.addresses.len() ==> (#[trigger] t.addresses[i]).contact_id != (
        #[trigger] t.addresses[j]).contact_id
    &&& forall|i: int| 0 <= i < t.recipients.len() ==> is_part((#[trigger] t.recipients[i]).kind)
}

/// The parts of a message that list recipients.
pub open spec fn is_part(kind: Seq<char>) -> bool {
    kind == "to"@ || kind == "cc"@ || kind == "bcc"@
}

/// Different addresses have different contacts, however much is written between the two sights,
/// as long as indexing alone wrote the rows.
pub proof fn law_different_addresses_differ(
    t: Tables,
    a: AddressText,
    headers: Option<Seq<char>>,
    now: Seq<char>,
    w: Tables,
    b: AddressText,
    later_headers: Option<Seq<char>>,
    later: Seq<char>,
)
    requires
        sound(t),
        fits(t, see_address(t, a, headers, now)),
        sound(w),
        own_rows(w),
        keeps_contacts(see_address(t, a, headers, now), w),
        fits(w, see_address(w, b, later_headers, later)),
        email_of(a.email) matches Some(e) && (email_of(b.email) matches Some(f) && e.address
            != f.address),
    ensures
        seen_contact(t, a) is Some,
        seen_contact(w, b) is Some,
        seen_contact(w, b) != seen_contact(t, a),
{
    let e = email_of(a.email)->0;
    let f = email_of(b.email)->0;
    let u = see_address(t, a, headers, now);
    lemma_seen(t, a, headers, now, e);
    law_see_address_sound(t, a, headers, now);
    law_address_keeps_contact(u, w, e.address);
    lemma_known_contact(w, e.address);
    if has_address(w, f.address) {
        let i = choose|i: int|
            0 <= i < w.addresses.len() && (#[trigger] w.addresses[i]).email == e.address;
        let j = choose|j: int|
            0 <= j < w.addresses.len() && (#[trigger] w.addresses[j]).email == f.address;
        lemma_contact_of(w, i);
        lemma_contact_of(w, j);
        if i < j {
            assert(w.addresses[i].contact_id != w.addresses[j].contact_id);
        } else {
            assert(w.addresses[j].contact_id != w.addresses[i].contact_id);
        }
    }
}

/// A sight of an address keeps the rows such as indexing alone writes.
pub proof fn lemma_see_address_own(t: Tables, a: AddressText, headers: Option<Seq<char>>, now: Seq<char>)
    requires
        sound(t),
        own_rows(t),
        fits(t, see_address(t, a, headers, now)),
    ensures
        own_rows(see_address(t, a, headers, now)),
{
    let u = see_address(t, a, headers, now);
    assert forall|i: int, j: int| 0 <= i < j < u.addresses.len() implies (
    #[trigger] u.addresses[i]).contact_id != (#[trigger] u.addresses[j]).contact_id by {
        assert(u.addresses[i] == t.addresses[i]);
        if j < t.addresses.len() {
            assert(u.addresses[j] == t.addresses[j]);
        } else {
            lemma_contact_of(t, i);
            lemma_known_contact(t, t.addresses[i].email);
        }
    }
    assert(u.recipients == t.recipients);
}

/// Recipients keep the rows such as indexing alone writes.
pub proof fn lemma_add_recipients_own(
    t: Tables,
    id: i64,
    kind: Seq<char>,
    list: Seq<AddressText>,
    now: Seq<char>,
)
    requires
        sound(t),
        own_rows(t),
        is_part(kind),
        t.messages.len() > 0,
        id == last_message_id(t),
        fits(t, add_recipients(t, id, kind, list, now)),
    ensures
        own_rows(add_recipients(t, id, kind, list, now)),
    decreases list.len(),
{
    if list.len() > 0 {
        let s = add_recipients(t, id, kind, list.drop_last(), now);
        let u = add_recipients(t, id, kind, list, now);
        lemma_add_recipients_grown(t, id, kind, list.drop_last(), now);
        lemma_add_recipient_grown(s, id, kind, list.last(), now);
        lemma_grown_twice(t, s, u, list.len() - 1, 1);
        lemma_add_recipients_own(t, id, kind, list.drop_last(), now);
        law_add_recipients_sound(t, id, kind, list.drop_last(), now);
        lemma_see_address_own(s, list.last(), None, now);
        let seen = see_address(s, list.last(), None, now);
        assert(u.addresses == seen.addresses);
        assert forall|i: int| 0 <= i < u.recipients.len() implies is_part(
            (#[trigger] u.recipients[i]).kind,
        ) by {
            if i < s.recipients.len() {
                assert(u.recipients[i] == s.recipients[i]);
            }
        }
    }
}

/// Indexing keeps to its own kind of rows, from the first message on.
pub proof fn law_own_rows_stay(t: Tables, scan_id: i64, m: MessageText, now: Seq<char>)
    requires
        sound(t),
        own_rows(t),
    ensures
        own_rows(no_rows()),
        own_rows(insert_result(t, scan_id, m, now).1),
{
    if insert_error(t, scan_id, m, now) is None {
        lemma_index_grown(t, scan_id, m, now);
        let row = message_row(t, scan_id, m);
        let seen = see_sender(t, m, now);
        if let Some(a) = message_sender(m) {
            lemma_see_address_own(t, a, m.headers, now);
        }
        assert(own_rows(seen));
        assert(own_rows(passed_over(t, m, now)));
        if !is_indexed(t, m) {
            let stored = stored_message(t, scan_id, m, now);
            law_store_message_sound(t, scan_id, m, now);
            assert(own_rows(stored));
            lemma_add_recipients_own(stored, row.id, "to"@, m.to, now);
            law_add_recipients_sound(stored, row.id, "to"@, m.to, now);
            let with_to = add_recipients(stored, row.id, "to"@, m.to, now);
            lemma_add_recipients_own(with_to, row.id, "cc"@, m.cc, now);
            law_add_recipients_sound(with_to, row.id, "cc"@, m.cc, now);
            let with_cc = add_recipients(with_to, row.id, "cc"@, m.cc, now);
            lemma_add_recipients_own(with_cc, row.id, "bcc"@, m.bcc, now);
        }
    }
}

/// What is noted about scans leaves contacts and recipients alone.
pub proof fn law_scans_keep_own_rows(
    t: Tables,
    id: i64,
    path: Seq<char>,
    seen: i64,
    indexed: i64,
    status: Seq<char>,
    error: Option<Seq<char>>,
    now: Seq<char>,
)
    requires
        own_rows(t),
    ensures
        own_rows(begun_scan(t, path, now)),
        own_rows(progressed_scan(t, id, seen, indexed)),
        own_rows(finished_scan(t, id, status, error, now)),
{
}

/// Something that is written to the index.
pub ghost enum Step {
    /// An address is seen.
    Sight { address: AddressText, headers: Option<Seq<char>>, now: Seq<char> },
    /// A message is indexed.
    Message { scan_id: i64, message: MessageText, now: Seq<char> },
    /// A scan begins.
    Begin { path: Seq<char>, now: Seq<char> },
    /// A scan has got this far.
    Progress { id: i64, seen: i64, indexed: i64 },
    /// A scan ends.
    Finish { id: i64, status: Seq<char>, error: Option<Seq<char>>, now: Seq<char> },
}

/// The tables after something was written; what does not fit changes nothing.
pub open spec fn after_step(t: Tables, step: Step) -> Tables {
    match step {
        Step::Sight { address, headers, now } => {
            let u = see_address(t, address, headers, now);
            if fits(t, u) {
                u
            } else {
                t
            }
        },
        Step::Message { scan_id, message, now } => insert_result(t, scan_id, message, now).1,
        Step::Begin { path, now } => begin_result(t, path, now).1,
        Step::Progress { id, seen, indexed } => progressed_scan(t, id, seen, indexed),
        Step::Finish { id, status, error, now } => finished_scan(t, id, status, error, now),
    }
}

/// The tables after some things were written, one after the other.
pub open spec fn after_steps(t: Tables, steps: Seq<Step>) -> Tables
    decreases steps.len(),
{
    if steps.len() == 0 {
        t
    } else {
        after_step(after_steps(t, steps.drop_last()), steps.last())
    }
}

/// Whatever is written keeps the tables sound, keeps all contacts, and keeps to the rows that
/// indexing alone writes.
pub proof fn law_step_keeps_contacts(t: Tables, step: Step)
    requires
        sound(t),
    ensures
        sound(after_step(t, step)),
        keeps_contacts(t, after_step(t, step)),
        own_rows(t) ==> own_rows(after_step(t, step)),
{
    lemma_same_contacts(t, t);
    match step {
        Step::Sight { address, headers, now } => {
            if fits(t, see_address(t, address, headers, now)) {
                law_see_address_sound(t, address, headers, now);
                law_sight_keeps_contacts(t, address, headers, now);
                if own_rows(t) {
                    lemma_see_address_own(t, address, headers, now);
                }
            }
        },
        Step::Message { scan_id, message, now } => {
            law_insert_counts(t, scan_id, message, now);
            law_message_keeps_contacts(t, scan_id, message, now);
            if own_rows(t) {
                law_own_rows_stay(t, scan_id, message, now);
            }
        },
        Step::Begin { path, now } => {
            if has_scan_room(t) {
                law_begun_scan_sound(t, path, now);
            }
            lemma_same_contacts(t, after_step(t, step));
        },
        Step::Progress { id, seen, indexed } => {
            law_progressed_scan_sound(t, id, seen, indexed);
            lemma_same_contacts(t, after_step(t, step));
        },
        Step::Finish { id, status, error, now } => {
            law_finished_scan_sound(t, id, status, error, now);
            lemma_same_contacts(t, after_step(t, step));
        },
    }
}

/// However much is written, the tables stay sound, all contacts are kept, and so are the rows
/// such as indexing alone writes.
pub proof fn law_steps_keep_contacts(t: Tables, steps: Seq<Step>)
    requires
        sound(t),
    ensures
        sound(after_steps(t, steps)),
        keeps_contacts(t, after_steps(t, steps)),
        own_rows(t) ==> own_rows(after_steps(t, steps)),
    decreases steps.len(),
{
    if steps.len() == 0 {
        lemma_same_contacts(t, t);
    } else {
        let u = after_steps(t, steps.drop_last());
        law_steps_keep_contacts(t, steps.drop_last());
        law_step_keeps_contacts(u, steps.last());
        law_keeping_goes_on(t, u, after_step(u, steps.last()));
    }
}

/// In an index that started empty, whatever was written before and in between: two sights of one
/// address have one contact, and sights of different addresses have different ones.
pub proof fn law_contacts_over_time(
    before: Seq<Step>,
    a: AddressText,
    headers: Option<Seq<char>>,
    now: Seq<char>,
    between: Seq<Step>,
    b: AddressText,
    later_headers: Option<Seq<char>>,
    later: Seq<char>,
)
    requires
        ({
            let t = after_steps(no_rows(), before);
            let u = see_address(t, a, headers, now);
            let w = after_steps(u, between);
            fits(t, u) && fits(w, see_address(w, b, later_headers, later))
        }),
        email_of(a.email) is Some,
        email_of(b.email) is Some,
    ensures
        ({
            let t = after_steps(no_rows(), before);
            let w = after_steps(see_address(t, a, headers, now), between);
            if (email_of(a.email)->0).address == (email_of(b.email)->0).address {
                same_contact(t, a, headers, now, w, b, later_headers, later)
            } else {
                seen_contact(w, b) != seen_contact(t, a)
            }
        }),
{
    let t = after_steps(no_rows(), before);
    let u = see_address(t, a, headers, now);
    let w = after_steps(u, between);
    assert(sound(no_rows()));
    law_steps_keep_contacts(no_rows(), before);
    law_see_address_sound(t, a, headers, now);
    lemma_see_address_own(t, a, headers, now);
    law_steps_keep_contacts(u, between);
    if (email_of(a.email)->0).address == (email_of(b.email)->0).address {
        law_address_tells_domain(a.email, b.email);
        law_one_contact_for_an_address(t, a, headers, now, w, b, later_headers, later);
    } else {
        law_different_addresses_differ(t, a, headers, now, w, b, later_headers, later);
    }
}

// ---------------------------------------------------------------------------------------
// Senders that are not people
// ---------------------------------------------------------------------------------------

/// Whether an address is there, with a contact that is no person.
spec fn is_machine(t: Tables, email: Seq<char>) -> bool {
    has_address(t, email) && forall|i: int|
        0 <= i < t.contacts.len() && (#[trigger] t.contacts[i]).id == contact_of(t, email)
            ==> machine_kind(t.contacts[i].sender_kind)
}

proof fn lemma_person_is_no_machine()
    ensures
        !machine_kind(kind_name(SenderKind::Person)),
{
    law_only_people_pass(SenderKind::Person);
    assert(forall|k: Seq<char>| #[trigger] machine_kind(k) ==> filtered_kind(k));
}

proof fn lemma_machine_stays(
    t: Tables,
    a: AddressText,
    headers: Option<Seq<char>>,
    now: Seq<char>,
    email: Seq<char>,
)
    requires
        sound(t),
        fits(t, see_address(t, a, headers, now)),
        is_machine(t, email),
    ensures
        is_machine(see_address(t, a, headers, now), email),
{
    lemma_person_is_no_machine();
    let u = see_address(t, a, headers, now);
    law_see_address_sound(t, a, headers, now);
    law_sight_keeps_contacts(t, a, headers, now);
    law_address_keeps_contact(t, u, email);
    lemma_known_contact(t, email);
    assert forall|i: int|
        0 <= i < u.contacts.len() && (#[trigger] u.contacts[i]).id == contact_of(
            u,
            email,
        ) implies machine_kind(u.contacts[i].sender_kind) by {
        if i < t.contacts.len() {
            assert(t.contacts[i].id == u.contacts[i].id);
        }
    }
}

proof fn lemma_machines_stay(
    t: Tables,
    id: i64,
    kind: Seq<char>,
    list: Seq<AddressText>,
    now: Seq<char>,
    email: Seq<char>,
)
    requires
        sound(t),
        t.messages.len() > 0,
        id == last_message_id(t),
        fits(t, add_recipients(t, id, kind, list, now)),
        is_machine(t, email),
    ensures
        is_machine(add_recipients(t, id, kind, list, now), email),
    decreases list.len(),
{
    if list.len() > 0 {
        let s = add_recipients(t, id, kind, list.drop_last(), now);
        let u = add_recipients(t, id, kind, list, now);
        lemma_add_recipients_grown(t, id, kind, list.drop_last(), now);
        lemma_add_recipient_grown(s, id, kind, list.last(), now);
        lemma_grown_twice(t, s, u, list.len() - 1, 1);
        lemma_machines_stay(t, id, kind, list.drop_last(), now, email);
        law_add_recipients_sound(t, id, kind, list.drop_last(), now);
        lemma_machine_stays(s, list.last(), None, now, email);
        let seen = see_address(s, list.last(), None, now);
        assert(u.addresses == seen.addresses && u.contacts == seen.contacts);
        assert(contact_of(u, email) == contact_of(seen, email));
        assert(has_address(u, email)) by {
            let k = choose|k: int|
                0 <= k < seen.addresses.len() && (#[trigger] seen.addresses[k]).email == email;
            assert(u.addresses[k].email == email);
        }
    }
}

/// Who sends mail that is not from a person, by the address or by the headers, is not listed
/// unless the query includes such senders.
pub proof fn law_machine_senders_stay_out(
    t: Tables,
    scan_id: i64,
    m: MessageText,
    now: Seq<char>,
    q: QueryText,
    list: Seq<SummaryText>,
    i: int,
)
    requires
        sound(t),
        insert_result(t, scan_id, m, now).0 is Ok,
        message_sender(m) matches Some(a) && (email_of(a.email) matches Some(e) && machine_kind(
            kind_name(sender_kind(e.address, m.headers)),
        ) && (has_address(t, e.address) ==> {
            let kind = contact_with(t, contact_of(t, e.address)).sender_kind;
            kind == kind_name(SenderKind::Person) || machine_kind(kind)
        })),
        is_listing(insert_result(t, scan_id, m, now).1, q, list),
        !q.include_filtered,
        0 <= i < list.len(),
    ensures
        message_sender(m) matches Some(a) && (email_of(a.email) matches Some(e) && list[i].email
            != e.address),
{
    let a = message_sender(m)->0;
    let e = email_of(a.email)->0;
    let seen = see_sender(t, m, now);
    let u = insert_result(t, scan_id, m, now).1;
    law_see_sender_sound(t, m, now);
    lemma_index_grown(t, scan_id, m, now);
    lemma_sender_is_machine(t, m, now);
    let over = passed_over(t, m, now);
    assert(over.addresses == seen.addresses && over.contacts == seen.contacts);
    lemma_same_machines(seen, over, e.address);
    law_passed_over_sound(t, m, now);
    if !is_indexed(t, m) {
        let row = message_row(t, scan_id, m);
        let stored = stored_message(t, scan_id, m, now);
        lemma_same_machines(seen, stored, e.address);
        law_store_message_sound(t, scan_id, m, now);
        lemma_machines_stay(stored, row.id, "to"@, m.to, now, e.address);
        law_add_recipients_sound(stored, row.id, "to"@, m.to, now);
        let with_to = add_recipients(stored, row.id, "to"@, m.to, now);
        lemma_machines_stay(with_to, row.id, "cc"@, m.cc, now, e.address);
        law_add_recipients_sound(with_to, row.id, "cc"@, m.cc, now);
        let with_cc = add_recipients(with_to, row.id, "cc"@, m.cc, now);
        lemma_machines_stay(with_cc, row.id, "bcc"@, m.bcc, now, e.address);
        law_index_message_sound(t, scan_id, m, now);
    }
    assert(sound(u) && is_machine(u, e.address));
    law_listed_are_asked_for(u, q, list, i);
    let j = choose|j: int|
        0 <= j < u.addresses.len() && list[i] == standing(u, #[trigger] u.addresses[j]).contact;
    if list[i].email == e.address {
        lemma_contact_of(u, j);
        lemma_known_contact(u, e.address);
        let id = contact_of(u, e.address);
        let k = choose|k: int| 0 <= k < u.contacts.len() && (#[trigger] u.contacts[k]).id == id;
        assert(contact_with(u, id) == u.contacts[k]);
        assert(machine_kind(u.contacts[k].sender_kind));
    }
}

proof fn lemma_same_machines(t: Tables, u: Tables, email: Seq<char>)
    requires
        is_machine(t, email),
        u.addresses == t.addresses,
        u.contacts == t.contacts,
    ensures
        is_machine(u, email),
{
    let k = choose|k: int| 0 <= k < t.addresses.len() && (#[trigger] t.addresses[k]).email == email;
    assert(u.addresses[k].email == email);
}

proof fn lemma_sender_is_machine(t: Tables, m: MessageText, now: Seq<char>)
    requires
        sound(t),
        fits(t, see_sender(t, m, now)),
        message_sender(m) matches Some(a) && (email_of(a.email) matches Some(e) && machine_kind(
            kind_name(sender_kind(e.address, m.headers)),
        ) && (has_address(t, e.address) ==> {
            let kind = contact_with(t, contact_of(t, e.address)).sender_kind;
            kind == kind_name(SenderKind::Person) || machine_kind(kind)
        })),
    ensures
        is_machine(see_sender(t, m, now), (email_of(message_sender(m)->0.email)->0).address),
{
    let a = message_sender(m)->0;
    let e = email_of(a.email)->0;
    let u = see_sender(t, m, now);
    lemma_seen(t, a, m.headers, now, e);
    law_see_address_sound(t, a, m.headers, now);
    assert forall|i: int|
        0 <= i < u.contacts.len() && (#[trigger] u.contacts[i]).id == contact_of(
            u,
            e.address,
        ) implies machine_kind(u.contacts[i].sender_kind) by {
        if i < t.contacts.len() {
            let c = t.contacts[i];
            assert(c.id == u.contacts[i].id);
            if has_address(t, e.address) {
                let id = contact_of(t, e.address);
                let k = choose|k: int|
                    0 <= k < t.contacts.len() && (#[trigger] t.contacts[k]).id == id;
                assert(contact_with(t, id) == t.contacts[k]);
                if k < i {
                    assert(t.contacts[k].id < t.contacts[i].id);
                } else if i < k {
                    assert(t.contacts[i].id < t.contacts[k].id);
                }
                assert(u.contacts[i] == seen_again(
                    c,
                    kind_name(sender_kind(e.address, m.headers)),
                    now,
                ));
            } else {
                assert(c.id <= t.ids.contacts);
            }
        }
    }
}

} // verus!
