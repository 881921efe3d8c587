//! What comes of indexing a message, told by what the message says and what the rows hold.
use vstd::prelude::*;

use crate::archive::{AddressText, MessageText};
use crate::classify::{kind_name, sender_kind};
use crate::db::{
    address_ref, begin_result, contact_ref, domain_ref, insert_result, lists_changes, message_ref,
    names_rows, recipient_ref, scan_ref, with_ids, DbError, RowRef,
};
use crate::indexing::is_recipient;
use crate::listing::belongs;
use crate::normalize::email_of;
use crate::soundness::{
    law_index_message_sound, law_message_fits, law_see_address_sound, lemma_index_grown,
};
use crate::tables::{
    add_recipient, add_recipients, contacts_known, fits, has_address, has_contact, has_domain,
    has_message, has_room, has_scan_room, is_indexed, last_message_id, message_row, message_sender,
    messages_known, messages_unique, one_more, recipients_unique, rows_needed, same_identity,
    same_recipient, see_address, see_sender, seen_contact, sound, stored_message, RecipientText,
    Tables, ROW_LIMIT,
};

verus! {

// ---------------------------------------------------------------------------------------
// Each message once
// ---------------------------------------------------------------------------------------

/// No two messages have the same message id, and no two come from the same source.
pub proof fn law_ids_are_unique(t: Tables, i: int, j: int)
    requires
        sound(t),
        0 <= i < t.messages.len(),
        0 <= j < t.messages.len(),
        i != j,
    ensures
        t.messages[i].internet_message_id is Some ==> t.messages[i].internet_message_id
            != t.messages[j].internet_message_id,
        t.messages[i].source_id is Some ==> t.messages[i].source_id != t.messages[j].source_id,
{
    if i < j {
        assert(!same_identity(t.messages[i], t.messages[j]));
    } else {
        assert(!same_identity(t.messages[j], t.messages[i]));
    }
}

/// A message whose message id is in the index, wherever it comes from, is not indexed again: the
/// messages and recipients stay as they are.
pub proof fn law_known_message_id(
    t: Tables,
    scan_id: i64,
    m: MessageText,
    now: Seq<char>,
    i: int,
)
    requires
        sound(t),
        0 <= i < t.messages.len(),
        m.internet_message_id is Some,
        t.messages[i].internet_message_id == m.internet_message_id,
    ensures
        insert_result(t, scan_id, m, now).0 matches Ok(added) ==> !added,
        insert_result(t, scan_id, m, now).1.messages == t.messages,
        insert_result(t, scan_id, m, now).1.recipients == t.recipients,
{
    assert(same_identity(message_row(t, 0, m), t.messages[i]));
    assert(is_indexed(t, m));
    lemma_index_grown(t, scan_id, m, now);
}

/// A message whose source is in the index is not indexed again, whatever its message id. What
/// has no source goes by its message id.
pub proof fn law_known_source(t: Tables, scan_id: i64, m: MessageText, now: Seq<char>, i: int)
    requires
        sound(t),
        0 <= i < t.messages.len(),
        t.messages[i].source_id is Some,
        t.messages[i].source_id == m.source_id || m.source_id is None && t.messages[i].source_id
            == m.internet_message_id,
    ensures
        insert_result(t, scan_id, m, now).0 matches Ok(added) ==> !added,
        insert_result(t, scan_id, m, now).1.messages == t.messages,
        insert_result(t, scan_id, m, now).1.recipients == t.recipients,
{
    assert(same_identity(message_row(t, 0, m), t.messages[i]));
    assert(is_indexed(t, m));
    lemma_index_grown(t, scan_id, m, now);
}

/// A message that shares neither its source nor its message id with one in the index is new: if
/// nothing keeps it out, it is indexed.
pub proof fn law_new_message_is_indexed(t: Tables, scan_id: i64, m: MessageText, now: Seq<char>)
    requires
        sound(t),
        forall|i: int|
            0 <= i < t.messages.len() ==> {
                &&& m.internet_message_id is Some ==> (
                #[trigger] t.messages[i]).internet_message_id != m.internet_message_id
                &&& m.source_id is Some ==> t.messages[i].source_id != m.source_id
                &&& m.source_id is None && m.internet_message_id is Some ==> t.messages[i].source_id
                    != m.internet_message_id
            },
    ensures
        insert_result(t, scan_id, m, now).0 matches Ok(added) ==> added
            && insert_result(t, scan_id, m, now).1.messages.len() == t.messages.len() + 1,
{
    assert(!is_indexed(t, m));
    lemma_index_grown(t, scan_id, m, now);
}

// ---------------------------------------------------------------------------------------
// What is stored
// ---------------------------------------------------------------------------------------

/// Who sent a message, in its normal form: the sender counts, and who it is from only where there
/// is no sender.
pub open spec fn sent_from(m: MessageText, address: Seq<char>, domain: Seq<char>) -> bool {
    let a = if m.sender is Some {
        m.sender
    } else {
        m.from
    };
    a matches Some(a) && (email_of(a.email) matches Some(e) && e.address == address && e.domain
        == domain)
}

/// The row of a message that was indexed says what the message says, and who sent it.
pub proof fn law_row_says_what_the_message_says(
    t: Tables,
    scan_id: i64,
    m: MessageText,
    now: Seq<char>,
)
    requires
        sound(t),
        insert_result(t, scan_id, m, now).0 == Ok::<bool, DbError>(true),
    ensures
        ({
            let u = insert_result(t, scan_id, m, now).1;
            let row = u.messages.last();
            &&& u.messages == t.messages.push(row)
            &&& forall|i: int| 0 <= i < t.messages.len() ==> (#[trigger] t.messages[i]).id < row.id
            &&& row.id == t.ids.messages + 1
            &&& row.malformed == 0
            &&& row.scan_id == scan_id
            &&& row.source_id == if m.source_id is Some {
                m.source_id
            } else {
                m.internet_message_id
            }
            &&& row.internet_message_id == m.internet_message_id
            &&& row.conversation_id == m.conversation_id
            &&& row.in_reply_to == m.in_reply_to
            &&& row.reference_ids == m.references
            &&& row.subject == m.subject
            &&& row.sent_at == m.sent_at
            &&& row.received_at == m.received_at
            &&& row.folder_path == m.folder_path
            &&& row.headers == m.headers
            &&& row.size_bytes == m.size_bytes
            &&& row.has_attachments == m.has_attachments
            &&& row.sender_email is Some == row.sender_domain is Some
            &&& row.sender_email is Some ==> sent_from(
                m,
                row.sender_email->0,
                row.sender_domain->0,
            )
            &&& row.sender_email is None ==> forall|x: Seq<char>, d: Seq<char>| !#[trigger]
                sent_from(m, x, d)
            &&& m.sender matches Some(a) ==> row.sender_kind == kind_name(
                sender_kind(a.email, m.headers),
            )
            &&& m.sender is None ==> (m.from matches Some(a) ==> row.sender_kind == kind_name(
                sender_kind(a.email, m.headers),
            ))
            &&& m.sender is None && m.from is None ==> row.sender_kind == "unknown"@
        }),
{
    lemma_index_grown(t, scan_id, m, now);
    law_index_message_sound(t, scan_id, m, now);
    let u = insert_result(t, scan_id, m, now).1;
    assert(u.messages.last() == message_row(t, scan_id, m));
    assert forall|i: int| 0 <= i < t.messages.len() implies (#[trigger] t.messages[i]).id
        < u.messages.last().id by {
        assert(t.messages[i].id <= t.ids.messages);
    }
}

/// Whether a list of addresses names an address.
spec fn listed_in(list: Seq<AddressText>, email: Seq<char>) -> bool {
    exists|i: int|
        0 <= i < list.len() && email_of((#[trigger] list[i]).email) is Some && (email_of(
            list[i].email,
        )->0).address == email
}

/// What adding the recipients in one part does to the recipients.
proof fn lemma_part(t: Tables, id: i64, kind: Seq<char>, list: Seq<AddressText>, now: Seq<char>)
    ensures
        ({
            let u = add_recipients(t, id, kind, list, now);
            &&& t.recipients.is_prefix_of(u.recipients)
            &&& forall|i: int|
                t.recipients.len() <= i < u.recipients.len() ==> (
                #[trigger] u.recipients[i]).message_id == id && u.recipients[i].kind == kind
            &&& forall|k: Seq<char>, e: Seq<char>| #[trigger]
                is_recipient(u, id, k, e) <==> is_recipient(t, id, k, e) || k == kind && listed_in(
                    list,
                    e,
                )
        }),
    decreases list.len(),
{
    let u = add_recipients(t, id, kind, list, now);
    if list.len() == 0 {
        assert(u.recipients.subrange(0, t.recipients.len() as int) =~= t.recipients);
        assert forall|k: Seq<char>, e: Seq<char>| #[trigger] is_recipient(
            u,
            id,
            k,
            e,
        ) <==> is_recipient(t, id, k, e) || k == kind && listed_in(list, e) by {}
    } else {
        let d = list.drop_last();
        let a = list.last();
        let s = add_recipients(t, id, kind, d, now);
        lemma_part(t, id, kind, d, now);
        let n = t.recipients.len() as int;
        assert(s.recipients.len() <= u.recipients.len());
        assert forall|i: int| 0 <= i < s.recipients.len() implies u.recipients[i]
            == s.recipients[i] by {}
        assert(u.recipients.subrange(0, n) =~= s.recipients.subrange(0, n));
        assert forall|i: int| n <= i < u.recipients.len() implies (
        #[trigger] u.recipients[i]).message_id == id && u.recipients[i].kind == kind by {
            if i < s.recipients.len() {
                assert(s.recipients[i].message_id == id);
            }
        }
        assert forall|k: Seq<char>, e: Seq<char>| #[trigger] is_recipient(
            u,
            id,
            k,
            e,
        ) <==> is_recipient(t, id, k, e) || k == kind && listed_in(list, e) by {
            lemma_one_recipient(s, id, kind, a, now, k, e);
            if listed_in(d, e) {
                let i = choose|i: int|
                    0 <= i < d.len() && email_of((#[trigger] d[i]).email) is Some && (email_of(
                        d[i].email,
                    )->0).address == e;
                assert(list[i] == d[i]);
            }
            if listed_in(list, e) {
                let i = choose|i: int|
                    0 <= i < list.len() && email_of((#[trigger] list[i]).email) is Some && (
                    email_of(list[i].email)->0).address == e;
                if i < d.len() {
                    assert(d[i] == list[i]);
                }
            }
            if email_of(a.email) is Some && (email_of(a.email)->0).address == e {
                assert(email_of(list[list.len() - 1].email) is Some);
                assert(listed_in(list, e));
            }
        }
    }
}

proof fn lemma_one_recipient(
    s: Tables,
    id: i64,
    kind: Seq<char>,
    a: AddressText,
    now: Seq<char>,
    k: Seq<char>,
    e: Seq<char>,
)
    ensures
        is_recipient(add_recipient(s, id, kind, a, now), id, k, e) <==> is_recipient(s, id, k, e)
            || k == kind && email_of(a.email) is Some && (email_of(a.email)->0).address == e,
{
    let u = add_recipient(s, id, kind, a, now);
    if let Some(x) = email_of(a.email) {
        let row = RecipientText {
            message_id: id,
            contact_id: seen_contact(s, a),
            kind,
            email: x.address,
            display_name: a.name,
            domain: Some(x.domain),
        };
        if is_recipient(s, id, k, e) {
            let i = choose|i: int|
                0 <= i < s.recipients.len() && (#[trigger] s.recipients[i]).message_id == id
                    && s.recipients[i].kind == k && s.recipients[i].email == e;
            assert(u.recipients[i] == s.recipients[i]);
        }
        if is_recipient(u, id, k, e) {
            let i = choose|i: int|
                0 <= i < u.recipients.len() && (#[trigger] u.recipients[i]).message_id == id
                    && u.recipients[i].kind == k && u.recipients[i].email == e;
            if i < s.recipients.len() {
                assert(s.recipients[i] == u.recipients[i]);
            }
        }
        if k == kind && x.address == e {
            if u.recipients.len() == s.recipients.len() {
                let i = choose|i: int|
                    0 <= i < s.recipients.len() && same_recipient(#[trigger] s.recipients[i], row);
                assert(u.recipients[i] == s.recipients[i]);
            } else {
                assert(u.recipients[s.recipients.len() as int] == row);
            }
        }
    }
}

/// The recipients of a message that was indexed are those that its three lists name, each in the
/// part that it is listed in, and no others. The recipients of other messages stay as they are.
pub proof fn law_recipients_are_those_listed(
    t: Tables,
    scan_id: i64,
    m: MessageText,
    now: Seq<char>,
    kind: Seq<char>,
    email: Seq<char>,
)
    requires
        sound(t),
        insert_result(t, scan_id, m, now).0 == Ok::<bool, DbError>(true),
    ensures
        ({
            let u = insert_result(t, scan_id, m, now).1;
            let id = u.messages.last().id;
            &&& is_recipient(u, id, kind, email) <==> {
                ||| kind == "to"@ && exists|i: int|
                    0 <= i < m.to.len() && (email_of((#[trigger] m.to[i]).email) matches Some(e)
                        && e.address == email)
                ||| kind == "cc"@ && exists|i: int|
                    0 <= i < m.cc.len() && (email_of((#[trigger] m.cc[i]).email) matches Some(e)
                        && e.address == email)
                ||| kind == "bcc"@ && exists|i: int|
                    0 <= i < m.bcc.len() && (email_of((#[trigger] m.bcc[i]).email) matches Some(e)
                        && e.address == email)
            }
            &&& t.recipients.is_prefix_of(u.recipients)
            &&& forall|i: int|
                t.recipients.len() <= i < u.recipients.len() ==> (
                #[trigger] u.recipients[i]).message_id == id
        }),
{
    lemma_index_grown(t, scan_id, m, now);
    law_index_message_sound(t, scan_id, m, now);
    let row = message_row(t, scan_id, m);
    let id = row.id;
    let stored = stored_message(t, scan_id, m, now);
    let with_to = add_recipients(stored, id, "to"@, m.to, now);
    let with_cc = add_recipients(with_to, id, "cc"@, m.cc, now);
    let u = insert_result(t, scan_id, m, now).1;
    assert(u.messages.last() == row);
    lemma_part(stored, id, "to"@, m.to, now);
    lemma_part(with_to, id, "cc"@, m.cc, now);
    lemma_part(with_cc, id, "bcc"@, m.bcc, now);
    assert(stored.recipients == t.recipients);
    assert(!is_recipient(stored, id, kind, email)) by {
        if is_recipient(stored, id, kind, email) {
            let i = choose|i: int|
                0 <= i < t.recipients.len() && (#[trigger] t.recipients[i]).message_id == id
                    && t.recipients[i].kind == kind && t.recipients[i].email == email;
            assert(has_message(t.messages, t.recipients[i].message_id));
            let k = choose|k: int|
                0 <= k < t.messages.len() && (#[trigger] t.messages[k]).id
                    == t.recipients[i].message_id;
            assert(t.messages[k].id <= t.ids.messages);
        }
    }
    assert(is_recipient(u, id, kind, email) <==> is_recipient(with_cc, id, kind, email) || kind
        == "bcc"@ && listed_in(m.bcc, email));
    assert(is_recipient(with_cc, id, kind, email) <==> is_recipient(with_to, id, kind, email)
        || kind == "cc"@ && listed_in(m.cc, email));
    assert(is_recipient(with_to, id, kind, email) <==> kind == "to"@ && listed_in(m.to, email));
    lemma_listed_in(m.to, email);
    lemma_listed_in(m.cc, email);
    lemma_listed_in(m.bcc, email);
    let n = t.recipients.len() as int;
    assert(u.recipients.subrange(0, n) =~= t.recipients) by {
        assert forall|i: int| 0 <= i < n implies u.recipients[i] == t.recipients[i] by {
            assert(with_to.recipients.subrange(0, n)[i] == with_to.recipients[i]);
            assert(with_cc.recipients.subrange(0, with_to.recipients.len() as int)[i]
                == with_cc.recipients[i]);
            assert(u.recipients.subrange(0, with_cc.recipients.len() as int)[i]
                == u.recipients[i]);
        }
    }
    assert forall|i: int| n <= i < u.recipients.len() implies (#[trigger] u.recipients[i]).message_id
        == id by {
        if i < with_cc.recipients.len() {
            assert(u.recipients.subrange(0, with_cc.recipients.len() as int)[i]
                == u.recipients[i]);
            assert(with_cc.recipients[i] == u.recipients[i]);
            if i < with_to.recipients.len() {
                assert(with_cc.recipients.subrange(0, with_to.recipients.len() as int)[i]
                    == with_cc.recipients[i]);
                assert(with_to.recipients[i] == u.recipients[i]);
            }
        }
    }
}

proof fn lemma_listed_in(list: Seq<AddressText>, email: Seq<char>)
    ensures
        listed_in(list, email) <==> exists|i: int|
            0 <= i < list.len() && (email_of((#[trigger] list[i]).email) matches Some(e)
                && e.address == email),
{
    if listed_in(list, email) {
        let i = choose|i: int|
            0 <= i < list.len() && email_of((#[trigger] list[i]).email) is Some && (email_of(
                list[i].email,
            )->0).address == email;
        assert(email_of(list[i].email) matches Some(e) && e.address == email);
    }
    if exists|i: int|
        0 <= i < list.len() && (email_of((#[trigger] list[i]).email) matches Some(e) && e.address
            == email) {
        let i = choose|i: int|
            0 <= i < list.len() && (email_of((#[trigger] list[i]).email) matches Some(e)
                && e.address == email);
        assert(email_of(list[i].email) is Some);
    }
}

// ---------------------------------------------------------------------------------------
// Contacts and domains
// ---------------------------------------------------------------------------------------

/// Who is seen for the first time becomes a contact of its own: with the name that stands next to
/// the address, the kind that address and headers tell, one message, and the time of the sight.
pub proof fn law_first_sight(
    t: Tables,
    a: AddressText,
    headers: Option<Seq<char>>,
    now: Seq<char>,
)
    requires
        sound(t),
        email_of(a.email) matches Some(e) && !has_address(t, e.address),
        fits(t, see_address(t, a, headers, now)),
    ensures
        ({
            let e = email_of(a.email)->0;
            let u = see_address(t, a, headers, now);
            let c = u.contacts.last();
            let row = u.addresses.last();
            &&& u.contacts == t.contacts.push(c)
            &&& u.addresses == t.addresses.push(row)
            &&& forall|i: int| 0 <= i < t.contacts.len() ==> (#[trigger] t.contacts[i]).id < c.id
            &&& seen_contact(t, a) == Some(c.id)
            &&& c.display_name == a.name
            &&& c.sender_kind == kind_name(sender_kind(e.address, headers))
            &&& c.message_count == 1
            &&& c.first_seen_at == Some(now)
            &&& c.last_seen_at == Some(now)
            &&& row.contact_id == c.id
            &&& row.email == e.address
            &&& row.domain == e.domain
            &&& row.display_name == a.name
            &&& row.first_seen_at == Some(now)
            &&& row.last_seen_at == Some(now)
            &&& has_domain(u, e.domain)
        }),
{
    law_see_address_sound(t, a, headers, now);
    let e = email_of(a.email)->0;
    let u = see_address(t, a, headers, now);
    assert forall|i: int| 0 <= i < t.contacts.len() implies (#[trigger] t.contacts[i]).id
        < u.contacts.last().id by {
        assert(t.contacts[i].id <= t.ids.contacts);
    }
    assert(u.contacts.drop_last() =~= t.contacts);
    assert(u.addresses.drop_last() =~= t.addresses);
    lemma_domain_seen(t, a, headers, now);
}

/// Who is seen again has one message more and was last seen now. Who was taken for a person is
/// from now on what address and headers tell; what is no person stays what it is.
pub proof fn law_second_sight(
    t: Tables,
    a: AddressText,
    headers: Option<Seq<char>>,
    now: Seq<char>,
    i: int,
)
    requires
        sound(t),
        email_of(a.email) matches Some(e) && has_address(t, e.address),
        0 <= i < t.contacts.len(),
        seen_contact(t, a) == Some(t.contacts[i].id),
    ensures
        ({
            let e = email_of(a.email)->0;
            let u = see_address(t, a, headers, now);
            let c = u.contacts[i];
            &&& u.contacts.len() == t.contacts.len()
            &&& u.addresses == t.addresses
            &&& c.id == t.contacts[i].id
            &&& c.display_name == t.contacts[i].display_name
            &&& c.message_count == one_more(t.contacts[i].message_count)
            &&& t.contacts[i].message_count < i64::MAX ==> c.message_count
                == t.contacts[i].message_count + 1
            &&& c.first_seen_at == t.contacts[i].first_seen_at
            &&& c.last_seen_at == Some(now)
            &&& t.contacts[i].sender_kind == "person"@ ==> c.sender_kind == kind_name(
                sender_kind(e.address, headers),
            )
            &&& t.contacts[i].sender_kind != "person"@ ==> c.sender_kind
                == t.contacts[i].sender_kind
            &&& has_domain(u, e.domain)
        }),
{
    lemma_domain_seen(t, a, headers, now);
}

/// A sight of an address leaves its domain in the index, adds no other, and was the last sight
/// of that domain.
proof fn lemma_domain_seen(t: Tables, a: AddressText, headers: Option<Seq<char>>, now: Seq<char>)
    requires
        email_of(a.email) is Some,
    ensures
        ({
            let d = (email_of(a.email)->0).domain;
            let u = see_address(t, a, headers, now);
            &&& has_domain(u, d)
            &&& u.domains.len() == t.domains.len() + (if has_domain(t, d) {
                0int
            } else {
                1
            })
            &&& forall|i: int|
                0 <= i < t.domains.len() ==> (#[trigger] u.domains[i]).domain == t.domains[i].domain
                    && u.domains[i].first_seen_at == t.domains[i].first_seen_at
                    && u.domains[i].message_count == t.domains[i].message_count
                    && u.domains[i].contact_count == t.domains[i].contact_count
            &&& forall|i: int|
                0 <= i < u.domains.len() && (#[trigger] u.domains[i]).domain == d
                    ==> u.domains[i].last_seen_at == Some(now)
        }),
{
    let d = (email_of(a.email)->0).domain;
    let u = see_address(t, a, headers, now);
    if has_domain(t, d) {
        let i = choose|i: int| 0 <= i < t.domains.len() && (#[trigger] t.domains[i]).domain == d;
        assert(u.domains[i].domain == d);
    } else {
        assert(u.domains[t.domains.len() as int].domain == d);
        assert forall|i: int| 0 <= i < u.domains.len() && (
        #[trigger] u.domains[i]).domain == d implies u.domains[i].last_seen_at == Some(now) by {
            if i < t.domains.len() {
                assert(t.domains[i].domain != d);
            }
        }
    }
}

/// The domain of every address that is seen is in the index afterwards, with the time of the
/// sight; no other domain comes with it.
pub proof fn law_domain_of_every_sight(
    t: Tables,
    a: AddressText,
    headers: Option<Seq<char>>,
    now: Seq<char>,
    d: Seq<char>,
)
    requires
        email_of(a.email) is Some,
    ensures
        has_domain(see_address(t, a, headers, now), d) <==> has_domain(t, d) || d == (email_of(
            a.email,
        )->0).domain,
        forall|i: int|
            0 <= i < see_address(t, a, headers, now).domains.len() && (#[trigger] see_address(
                t,
                a,
                headers,
                now,
            ).domains[i]).domain == (email_of(a.email)->0).domain ==> see_address(
                t,
                a,
                headers,
                now,
            ).domains[i].last_seen_at == Some(now),
{
    lemma_domain_seen(t, a, headers, now);
    let u = see_address(t, a, headers, now);
    let x = (email_of(a.email)->0).domain;
    if has_domain(t, d) {
        let i = choose|i: int| 0 <= i < t.domains.len() && (#[trigger] t.domains[i]).domain == d;
        assert(u.domains[i].domain == d);
    }
    if has_domain(u, d) {
        let i = choose|i: int| 0 <= i < u.domains.len() && (#[trigger] u.domains[i]).domain == d;
        if i < t.domains.len() {
            assert(t.domains[i].domain == d);
        } else {
            assert(u.domains[i].domain == x);
        }
    }
}

/// A domain that is seen for the first time is there with one contact, no message and the time of
/// the sight; one that is seen again keeps all but the time of the last sight.
pub proof fn law_row_of_a_domain(
    t: Tables,
    a: AddressText,
    headers: Option<Seq<char>>,
    now: Seq<char>,
    i: int,
)
    requires
        email_of(a.email) is Some,
        0 <= i < see_address(t, a, headers, now).domains.len(),
    ensures
        ({
            let d = (email_of(a.email)->0).domain;
            let row = see_address(t, a, headers, now).domains[i];
            &&& i >= t.domains.len() ==> row.domain == d && row.contact_count == 1
                && row.message_count == 0 && row.first_seen_at == Some(now) && row.last_seen_at
                == Some(now)
            &&& i < t.domains.len() && t.domains[i].domain != d ==> row == t.domains[i]
            &&& i < t.domains.len() && t.domains[i].domain == d ==> row.last_seen_at == Some(now)
                && row.first_seen_at == t.domains[i].first_seen_at && row.message_count
                == t.domains[i].message_count && row.contact_count == t.domains[i].contact_count
        }),
{
    let d = (email_of(a.email)->0).domain;
    if !has_domain(t, d) && i < t.domains.len() {
        assert(t.domains[i].domain != d);
    }
}

// ---------------------------------------------------------------------------------------
// Whose rows they are
// ---------------------------------------------------------------------------------------

/// Whether a recipient's row says what an entry of a list says.
pub open spec fn is_row_for(row: RecipientText, a: AddressText) -> bool {
    email_of(a.email) matches Some(e) && row.email == e.address && row.domain == Some(e.domain)
        && row.display_name == a.name
}

/// Whether a recipient's row says what some entry of a list says.
pub open spec fn stems_from(row: RecipientText, list: Seq<AddressText>) -> bool {
    exists|i: int| 0 <= i < list.len() && is_row_for(row, #[trigger] list[i])
}

/// Whether a recipient's row belongs to the contact of its address.
pub open spec fn has_its_contact(t: Tables, row: RecipientText) -> bool {
    row.contact_id matches Some(id) && belongs(t, row.email, id)
}

proof fn lemma_belongs_on(t: Tables, u: Tables, email: Seq<char>, id: i64)
    requires
        belongs(t, email, id),
        t.addresses.is_prefix_of(u.addresses),
    ensures
        belongs(u, email, id),
{
    let k = choose|k: int|
        0 <= k < t.addresses.len() && (#[trigger] t.addresses[k]).email == email
            && t.addresses[k].contact_id == id;
    assert(u.addresses.subrange(0, t.addresses.len() as int)[k] == u.addresses[k]);
    assert(u.addresses[k] == t.addresses[k]);
}

proof fn lemma_seen_belongs(
    t: Tables,
    a: AddressText,
    headers: Option<Seq<char>>,
    now: Seq<char>,
)
    ensures
        t.addresses.is_prefix_of(see_address(t, a, headers, now).addresses),
        email_of(a.email) matches Some(e) ==> (seen_contact(t, a) matches Some(id) && belongs(
            see_address(t, a, headers, now),
            e.address,
            id,
        )),
{
    let u = see_address(t, a, headers, now);
    assert(u.addresses.subrange(0, t.addresses.len() as int) =~= t.addresses);
    if let Some(e) = email_of(a.email) {
        if has_address(t, e.address) {
            let k = choose|k: int|
                0 <= k < t.addresses.len() && (#[trigger] t.addresses[k]).email == e.address;
            assert(u.addresses[k].email == e.address);
        } else {
            assert(u.addresses[t.addresses.len() as int].email == e.address);
        }
    }
}

proof fn lemma_rows_stem(
    t: Tables,
    id: i64,
    kind: Seq<char>,
    list: Seq<AddressText>,
    now: Seq<char>,
)
    ensures
        ({
            let u = add_recipients(t, id, kind, list, now);
            &&& t.addresses.is_prefix_of(u.addresses)
            &&& forall|i: int|
                t.recipients.len() <= i < u.recipients.len() ==> stems_from(
                    #[trigger] u.recipients[i],
                    list,
                ) && has_its_contact(u, u.recipients[i])
        }),
    decreases list.len(),
{
    let u = add_recipients(t, id, kind, list, now);
    if list.len() == 0 {
        assert(u.addresses.subrange(0, t.addresses.len() as int) =~= t.addresses);
    } else {
        let d = list.drop_last();
        let a = list.last();
        let s = add_recipients(t, id, kind, d, now);
        lemma_rows_stem(t, id, kind, d, now);
        lemma_part(t, id, kind, d, now);
        lemma_seen_belongs(s, a, None, now);
        let n = t.addresses.len() as int;
        assert(u.addresses.subrange(0, n) =~= t.addresses) by {
            assert forall|i: int| 0 <= i < n implies u.addresses[i] == t.addresses[i] by {
                assert(u.addresses.subrange(0, s.addresses.len() as int)[i] == u.addresses[i]);
                assert(s.addresses.subrange(0, n)[i] == s.addresses[i]);
            }
        }
        assert forall|i: int| t.recipients.len() <= i < u.recipients.len() implies stems_from(
            #[trigger] u.recipients[i],
            list,
        ) && has_its_contact(u, u.recipients[i]) by {
            if i < s.recipients.len() {
                assert(u.recipients[i] == s.recipients[i]);
                let k = choose|k: int|
                    0 <= k < d.len() && is_row_for(s.recipients[i], #[trigger] d[k]);
                assert(list[k] == d[k]);
                lemma_belongs_on(s, u, s.recipients[i].email, s.recipients[i].contact_id->0);
            } else {
                assert(is_row_for(u.recipients[i], list[list.len() - 1]));
            }
        }
    }
}

/// Each recipient's row of a new message says what the message says of that recipient, and belongs
/// to the contact of its address.
pub proof fn law_rows_belong_to_their_contacts(
    t: Tables,
    scan_id: i64,
    m: MessageText,
    now: Seq<char>,
    i: int,
)
    requires
        sound(t),
        insert_result(t, scan_id, m, now).0 == Ok::<bool, DbError>(true),
        t.recipients.len() <= i < insert_result(t, scan_id, m, now).1.recipients.len(),
    ensures
        ({
            let u = insert_result(t, scan_id, m, now).1;
            let row = u.recipients[i];
            &&& has_its_contact(u, row)
            &&& stems_from(row, m.to) || stems_from(row, m.cc) || stems_from(row, m.bcc)
        }),
{
    let id = message_row(t, scan_id, m).id;
    let stored = stored_message(t, scan_id, m, now);
    let with_to = add_recipients(stored, id, "to"@, m.to, now);
    let with_cc = add_recipients(with_to, id, "cc"@, m.cc, now);
    let u = add_recipients(with_cc, id, "bcc"@, m.bcc, now);
    lemma_rows_stem(stored, id, "to"@, m.to, now);
    lemma_rows_stem(with_to, id, "cc"@, m.cc, now);
    lemma_rows_stem(with_cc, id, "bcc"@, m.bcc, now);
    lemma_part(with_to, id, "cc"@, m.cc, now);
    lemma_part(with_cc, id, "bcc"@, m.bcc, now);
    lemma_index_grown(t, scan_id, m, now);
    if i < with_cc.recipients.len() {
        assert(u.recipients.subrange(0, with_cc.recipients.len() as int)[i] == u.recipients[i]);
        assert(with_cc.recipients[i] == u.recipients[i]);
        if i < with_to.recipients.len() {
            assert(with_cc.recipients.subrange(0, with_to.recipients.len() as int)[i]
                == with_cc.recipients[i]);
            assert(with_to.recipients[i] == u.recipients[i]);
            let row = with_to.recipients[i];
            lemma_belongs_on(with_to, with_cc, row.email, row.contact_id->0);
        }
        let row = with_cc.recipients[i];
        lemma_belongs_on(with_cc, u, row.email, row.contact_id->0);
    }
}

/// The row of a new message belongs to the contact of the address that it was sent from.
pub proof fn law_message_belongs_to_its_sender(
    t: Tables,
    scan_id: i64,
    m: MessageText,
    now: Seq<char>,
)
    requires
        sound(t),
        insert_result(t, scan_id, m, now).0 == Ok::<bool, DbError>(true),
    ensures
        ({
            let u = insert_result(t, scan_id, m, now).1;
            let row = u.messages.last();
            &&& row.sender_email is Some <==> row.sender_contact_id is Some
            &&& row.sender_email is Some ==> belongs(
                u,
                row.sender_email->0,
                row.sender_contact_id->0,
            )
        }),
{
    let id = message_row(t, scan_id, m).id;
    let stored = stored_message(t, scan_id, m, now);
    let with_to = add_recipients(stored, id, "to"@, m.to, now);
    let with_cc = add_recipients(with_to, id, "cc"@, m.cc, now);
    let u = add_recipients(with_cc, id, "bcc"@, m.bcc, now);
    lemma_index_grown(t, scan_id, m, now);
    assert(u.messages.last() == message_row(t, scan_id, m));
    lemma_rows_stem(stored, id, "to"@, m.to, now);
    lemma_rows_stem(with_to, id, "cc"@, m.cc, now);
    lemma_rows_stem(with_cc, id, "bcc"@, m.bcc, now);
    if let Some(a) = message_sender(m) {
        if let Some(e) = email_of(a.email) {
            lemma_seen_belongs(t, a, m.headers, now);
            let c = seen_contact(t, a)->0;
            let seen = see_sender(t, m, now);
            assert(stored.addresses == seen.addresses);
            assert(stored.addresses.subrange(0, seen.addresses.len() as int) =~= seen.addresses);
            lemma_belongs_on(seen, stored, e.address, c);
            lemma_belongs_on(stored, with_to, e.address, c);
            lemma_belongs_on(with_to, with_cc, e.address, c);
            lemma_belongs_on(with_cc, u, e.address, c);
        }
    }
}

// ---------------------------------------------------------------------------------------
// Room
// ---------------------------------------------------------------------------------------

/// Where there is room, a message of a scan on record is taken, and one of no scan is refused
/// unless it is in the index already; whatever is refused leaves everything as it is.
pub proof fn law_what_is_taken(t: Tables, scan_id: i64, m: MessageText, now: Seq<char>)
    requires
        sound(t),
    ensures
        ({
            let (r, u) = insert_result(t, scan_id, m, now);
            let on_record = exists|i: int|
                0 <= i < t.scans.len() && (#[trigger] t.scans[i]).id == scan_id;
            &&& r is Err ==> u == t
            &&& has_room(t, rows_needed(m)) && on_record ==> r is Ok
            &&& has_room(t, rows_needed(m)) && r is Err ==> r == Err::<bool, DbError>(
                DbError::UnknownScan,
            )
            &&& !on_record ==> (r matches Ok(added) ==> !added)
        }),
{
    if has_room(t, rows_needed(m)) {
        law_message_fits(t, scan_id, m, now);
    }
}

/// A scan that begins gets the next id and a record that says that it is running; without room
/// nothing is changed.
pub proof fn law_scan_begins(t: Tables, path: Seq<char>, now: Seq<char>)
    ensures
        ({
            let (r, u) = begin_result(t, path, now);
            &&& r is Ok <==> has_scan_room(t)
            &&& r matches Ok(id) ==> {
                let record = u.scans.last();
                &&& id == t.ids.scans + 1
                &&& u.scans.drop_last() == t.scans
                &&& u.scans.len() == t.scans.len() + 1
                &&& record.id == id
                &&& record.archive_path == path
                &&& record.status == "running"@
                &&& record.started_at == now
                &&& record.finished_at is None
                &&& record.messages_seen == 0
                &&& record.messages_indexed == 0
                &&& record.malformed_messages == 0
                &&& record.error is None
                &&& u.messages == t.messages && u.contacts == t.contacts && u.addresses
                    == t.addresses && u.domains == t.domains && u.recipients == t.recipients
            }
            &&& r is Err ==> u == t && r == Err::<i64, DbError>(DbError::Full)
        }),
{
    let u = begin_result(t, path, now).1;
    if has_scan_room(t) {
        assert(u.scans.drop_last() =~= t.scans);
    }
}

// ---------------------------------------------------------------------------------------
// Soundness
// ---------------------------------------------------------------------------------------

/// What sound rows are: no table is over its limit; ids grow and were given out; no domain, no
/// address, no message and no recipient of a message in one part is there twice; every address has
/// a contact and every recipient a message, in the order of the messages.
pub proof fn law_sound_rows(t: Tables)
    requires
        sound(t),
    ensures
        t.scans.len() <= ROW_LIMIT && t.domains.len() <= ROW_LIMIT && t.contacts.len() <= ROW_LIMIT
            && t.addresses.len() <= ROW_LIMIT && t.messages.len() <= ROW_LIMIT
            && t.recipients.len() <= ROW_LIMIT,
        forall|i: int, j: int|
            0 <= i < j < t.contacts.len() ==> (#[trigger] t.contacts[i]).id < (
            #[trigger] t.contacts[j]).id && t.contacts[j].id <= t.ids.contacts,
        forall|i: int, j: int|
            0 <= i < j < t.messages.len() ==> (#[trigger] t.messages[i]).id < (
            #[trigger] t.messages[j]).id && t.messages[j].id <= t.ids.messages,
        forall|i: int, j: int|
            0 <= i < j < t.addresses.len() ==> (#[trigger] t.addresses[i]).email != (
            #[trigger] t.addresses[j]).email && t.addresses[i].id < t.addresses[j].id,
        forall|i: int, j: int|
            0 <= i < j < t.scans.len() ==> (#[trigger] t.scans[i]).id < (#[trigger] t.scans[j]).id,
        forall|i: int, j: int|
            0 <= i < j < t.domains.len() ==> (#[trigger] t.domains[i]).domain != (
            #[trigger] t.domains[j]).domain,
        forall|i: int, j: int|
            0 <= i < j < t.recipients.len() ==> (#[trigger] t.recipients[i]).message_id <= (
            #[trigger] t.recipients[j]).message_id && !(t.recipients[i].message_id
                == t.recipients[j].message_id && t.recipients[i].kind == t.recipients[j].kind
                && t.recipients[i].email == t.recipients[j].email),
        forall|i: int|
            0 <= i < t.addresses.len() ==> exists|k: int|
                0 <= k < t.contacts.len() && (#[trigger] t.contacts[k]).id == (
                #[trigger] t.addresses[i]).contact_id,
        forall|i: int|
            0 <= i < t.recipients.len() ==> exists|k: int|
                0 <= k < t.messages.len() && (#[trigger] t.messages[k]).id == (
                #[trigger] t.recipients[i]).message_id,
{
    assert forall|i: int, j: int| 0 <= i < j < t.recipients.len() implies (
    #[trigger] t.recipients[i]).message_id <= (#[trigger] t.recipients[j]).message_id && !(
    t.recipients[i].message_id == t.recipients[j].message_id && t.recipients[i].kind
        == t.recipients[j].kind && t.recipients[i].email == t.recipients[j].email) by {
        assert(!same_recipient(t.recipients[i], t.recipients[j]));
    }
    assert forall|i: int| 0 <= i < t.addresses.len() implies exists|k: int|
        0 <= k < t.contacts.len() && (#[trigger] t.contacts[k]).id == (
        #[trigger] t.addresses[i]).contact_id by {
        assert(has_contact(t.contacts, t.addresses[i].contact_id));
    }
    assert forall|i: int| 0 <= i < t.recipients.len() implies exists|k: int|
        0 <= k < t.messages.len() && (#[trigger] t.messages[k]).id == (
        #[trigger] t.recipients[i]).message_id by {
        assert(has_message(t.messages, t.recipients[i].message_id));
    }
}

/// Rows that are put together by hand are sound if all that holds: nothing else is asked of them.
pub proof fn law_rows_that_are_sound(t: Tables)
    requires
        t.scans.len() <= ROW_LIMIT && t.domains.len() <= ROW_LIMIT && t.contacts.len() <= ROW_LIMIT
            && t.addresses.len() <= ROW_LIMIT && t.messages.len() <= ROW_LIMIT
            && t.recipients.len() <= ROW_LIMIT,
        t.ids.scans >= 0 && t.ids.contacts >= 0 && t.ids.addresses >= 0 && t.ids.messages >= 0,
        forall|i: int| 0 <= i < t.scans.len() ==> (#[trigger] t.scans[i]).id <= t.ids.scans,
        forall|i: int| 0 <= i < t.contacts.len()
            ==> (#[trigger] t.contacts[i]).id <= t.ids.contacts,
        forall|i: int|
            0 <= i < t.addresses.len() ==> (#[trigger] t.addresses[i]).id <= t.ids.addresses,
        forall|i: int| 0 <= i < t.messages.len()
            ==> (#[trigger] t.messages[i]).id <= t.ids.messages,
        forall|i: int, j: int|
            0 <= i < j < t.scans.len() ==> (#[trigger] t.scans[i]).id < (#[trigger] t.scans[j]).id,
        forall|i: int, j: int|
            0 <= i < j < t.contacts.len() ==> (#[trigger] t.contacts[i]).id < (
            #[trigger] t.contacts[j]).id,
        forall|i: int, j: int|
            0 <= i < j < t.addresses.len() ==> (#[trigger] t.addresses[i]).email != (
            #[trigger] t.addresses[j]).email && t.addresses[i].id < t.addresses[j].id,
        forall|i: int, j: int|
            0 <= i < j < t.domains.len() ==> (#[trigger] t.domains[i]).domain != (
            #[trigger] t.domains[j]).domain,
        forall|i: int, j: int|
            0 <= i < j < t.messages.len() ==> {
                &&& (#[trigger] t.messages[i]).id < (#[trigger] t.messages[j]).id
                &&& t.messages[i].source_id is Some ==> t.messages[i].source_id
                    != t.messages[j].source_id
                &&& t.messages[i].internet_message_id is Some ==> t.messages[i].internet_message_id
                    != t.messages[j].internet_message_id
            },
        forall|i: int, j: int|
            0 <= i < j < t.recipients.len() ==> (#[trigger] t.recipients[i]).message_id <= (
            #[trigger] t.recipients[j]).message_id && !(t.recipients[i].message_id
                == t.recipients[j].message_id && t.recipients[i].kind == t.recipients[j].kind
                && t.recipients[i].email == t.recipients[j].email),
        forall|i: int|
            0 <= i < t.addresses.len() ==> exists|k: int|
                0 <= k < t.contacts.len() && (#[trigger] t.contacts[k]).id == (
                #[trigger] t.addresses[i]).contact_id,
        forall|i: int|
            0 <= i < t.recipients.len() ==> exists|k: int|
                0 <= k < t.messages.len() && (#[trigger] t.messages[k]).id == (
                #[trigger] t.recipients[i]).message_id,
    ensures
        sound(t),
{
    assert forall|i: int| 0 <= i < t.recipients.len() implies (
    #[trigger] t.recipients[i]).message_id <= last_message_id(t) by {
        let k = choose|k: int|
            0 <= k < t.messages.len() && (#[trigger] t.messages[k]).id
                == t.recipients[i].message_id;
        if k < t.messages.len() - 1 {
            assert(t.messages[k].id < t.messages[t.messages.len() - 1].id);
        }
    }
    assert(messages_unique(t));
    assert(recipients_unique(t));
    assert(contacts_known(t));
    assert(messages_known(t));
}

// ---------------------------------------------------------------------------------------
// Rows from elsewhere
// ---------------------------------------------------------------------------------------

/// Rows that come from elsewhere keep all that they hold; the ids that count as given out are the
/// highest of those that were said to be, those of the last rows, and 0.
pub proof fn law_ids_of_given_rows(t: Tables)
    ensures
        ({
            let u = with_ids(t);
            &&& u.scans == t.scans && u.domains == t.domains && u.contacts == t.contacts
                && u.addresses == t.addresses && u.messages == t.messages && u.recipients
                == t.recipients
            &&& u.ids.scans >= t.ids.scans && u.ids.scans >= 0
            &&& u.ids.contacts >= t.ids.contacts && u.ids.contacts >= 0
            &&& u.ids.addresses >= t.ids.addresses && u.ids.addresses >= 0
            &&& u.ids.messages >= t.ids.messages && u.ids.messages >= 0
            &&& t.scans.len() > 0 ==> u.ids.scans >= t.scans.last().id
            &&& t.contacts.len() > 0 ==> u.ids.contacts >= t.contacts.last().id
            &&& t.addresses.len() > 0 ==> u.ids.addresses >= t.addresses.last().id
            &&& t.messages.len() > 0 ==> u.ids.messages >= t.messages.last().id
            &&& u.ids.scans == t.ids.scans || u.ids.scans == 0 || t.scans.len() > 0 && u.ids.scans
                == t.scans.last().id
            &&& u.ids.contacts == t.ids.contacts || u.ids.contacts == 0 || t.contacts.len() > 0
                && u.ids.contacts == t.contacts.last().id
            &&& u.ids.addresses == t.ids.addresses || u.ids.addresses == 0 || t.addresses.len() > 0
                && u.ids.addresses == t.addresses.last().id
            &&& u.ids.messages == t.ids.messages || u.ids.messages == 0 || t.messages.len() > 0
                && u.ids.messages == t.messages.last().id
        }),
{
}

/// A list of changes names every row that is new or was changed, by its table and its position,
/// and names no row that there is not.
pub proof fn law_changes_are_named(before: Tables, after: Tables, log: Seq<RowRef>, i: int, k: int)
    requires
        lists_changes(before, after, log),
        names_rows(after, log),
        0 <= i <= usize::MAX,
        0 <= k < log.len(),
    ensures
        i < after.scans.len() && (i >= before.scans.len() || before.scans[i] != after.scans[i])
            ==> log.contains(RowRef::Scan(i as usize)),
        i < after.domains.len() && (i >= before.domains.len() || before.domains[i]
            != after.domains[i]) ==> log.contains(RowRef::Domain(i as usize)),
        i < after.contacts.len() && (i >= before.contacts.len() || before.contacts[i]
            != after.contacts[i]) ==> log.contains(RowRef::Contact(i as usize)),
        i < after.addresses.len() && (i >= before.addresses.len() || before.addresses[i]
            != after.addresses[i]) ==> log.contains(RowRef::Address(i as usize)),
        i < after.messages.len() && (i >= before.messages.len() || before.messages[i]
            != after.messages[i]) ==> log.contains(RowRef::Message(i as usize)),
        i < after.recipients.len() && (i >= before.recipients.len() || before.recipients[i]
            != after.recipients[i]) ==> log.contains(RowRef::Recipient(i as usize)),
        match log[k] {
            RowRef::Scan(n) => n < after.scans.len(),
            RowRef::Domain(n) => n < after.domains.len(),
            RowRef::Contact(n) => n < after.contacts.len(),
            RowRef::Address(n) => n < after.addresses.len(),
            RowRef::Message(n) => n < after.messages.len(),
            RowRef::Recipient(n) => n < after.recipients.len(),
        },
{
    assert(scan_ref()(i) == RowRef::Scan(i as usize));
    assert(domain_ref()(i) == RowRef::Domain(i as usize));
    assert(contact_ref()(i) == RowRef::Contact(i as usize));
    assert(address_ref()(i) == RowRef::Address(i as usize));
    assert(message_ref()(i) == RowRef::Message(i as usize));
    assert(recipient_ref()(i) == RowRef::Recipient(i as usize));
}

} // verus!
