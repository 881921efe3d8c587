//! What the numbers about an index count, told by its rows.
use vstd::prelude::*;

use crate::classify::{filtered_kind, kind_name, law_only_people_pass, SenderKind};
use crate::listing::{belongs, lemma_belongs};
use crate::lists::{lemma_filter_none, lemma_filter_step};
use crate::people::own_rows;
use crate::ranking::{owner_of, sender_of};
use crate::sort::text_le;
use crate::stats::{has_kind, recipients, recipients_of_kind, senders, stats_of, tally_text, Stats};
use crate::tables::{sound, AddressRowText, ContactText, MessageRowText, Tables};

verus! {

/// Whether a message was sent from an address.
pub open spec fn sent_from_address(t: Tables, email: Seq<char>) -> bool {
    exists|i: int|
        0 <= i < t.messages.len() && (#[trigger] t.messages[i]).sender_email == Some(email)
}

/// Whether a message went to an address in one of its parts.
pub open spec fn got_in_part(t: Tables, email: Seq<char>, kind: Seq<char>) -> bool {
    exists|i: int|
        0 <= i < t.recipients.len() && (#[trigger] t.recipients[i]).email == email
            && t.recipients[i].kind == kind
}

/// Whether a message went to an address in any of its parts.
pub open spec fn got_anywhere(t: Tables, email: Seq<char>) -> bool {
    exists|i: int| 0 <= i < t.recipients.len() && (#[trigger] t.recipients[i]).email == email
}

/// The contacts of the addresses that have a property.
spec fn contacts_of(t: Tables, p: spec_fn(Seq<char>) -> bool) -> Set<i64> {
    Set::new(|id: i64| exists|e: Seq<char>| #[trigger] p(e) && belongs(t, e, id))
}

/// The contacts of the first addresses that have a property, one by one.
proof fn lemma_count(t: Tables, p: spec_fn(Seq<char>) -> bool, n: int) -> (s: Set<i64>)
    requires
        own_rows(t),
        0 <= n <= t.addresses.len(),
    ensures
        s.finite(),
        s.len() == t.addresses.take(n).filter(|a: AddressRowText| p(a.email)).len(),
        forall|id: i64| #[trigger]
            s.contains(id) <==> exists|k: int|
                0 <= k < n && p((#[trigger] t.addresses[k]).email) && t.addresses[k].contact_id
                    == id,
    decreases n,
{
    let q = |a: AddressRowText| p(a.email);
    if n == 0 {
        lemma_filter_none(t.addresses, q);
        Set::empty()
    } else {
        let s = lemma_count(t, p, n - 1);
        let a = t.addresses[n - 1];
        lemma_filter_step(t.addresses, n - 1, q);
        let r = if p(a.email) {
            assert(!s.contains(a.contact_id)) by {
                if s.contains(a.contact_id) {
                    let k = choose|k: int|
                        0 <= k < n - 1 && p((#[trigger] t.addresses[k]).email)
                            && t.addresses[k].contact_id == a.contact_id;
                    assert(t.addresses[k].contact_id != t.addresses[n - 1].contact_id);
                }
            }
            s.insert(a.contact_id)
        } else {
            s
        };
        assert forall|id: i64| #[trigger] r.contains(id) <==> exists|k: int|
            0 <= k < n && p((#[trigger] t.addresses[k]).email) && t.addresses[k].contact_id
                == id by {
            if s.contains(id) {
                let k = choose|k: int|
                    0 <= k < n - 1 && p((#[trigger] t.addresses[k]).email)
                        && t.addresses[k].contact_id == id;
                assert(p(t.addresses[k].email));
            }
            if exists|k: int|
                0 <= k < n && p((#[trigger] t.addresses[k]).email) && t.addresses[k].contact_id
                    == id {
                let k = choose|k: int|
                    0 <= k < n && p((#[trigger] t.addresses[k]).email)
                        && t.addresses[k].contact_id == id;
                if k < n - 1 {
                    assert(s.contains(id));
                }
            }
        }
        r
    }
}

proof fn lemma_contacts_of(t: Tables, p: spec_fn(Seq<char>) -> bool)
    requires
        own_rows(t),
    ensures
        contacts_of(t, p).len() == t.addresses.filter(|a: AddressRowText| p(a.email)).len(),
{
    let n = t.addresses.len() as int;
    let s = lemma_count(t, p, n);
    assert(t.addresses.take(n) =~= t.addresses);
    assert forall|id: i64| #[trigger] s.contains(id) == contacts_of(t, p).contains(id) by {
        if s.contains(id) {
            let k = choose|k: int|
                0 <= k < n && p((#[trigger] t.addresses[k]).email) && t.addresses[k].contact_id
                    == id;
            let e = t.addresses[k].email;
            assert(p(e) && belongs(t, e, id));
        }
        if contacts_of(t, p).contains(id) {
            let e = choose|e: Seq<char>| #[trigger] p(e) && belongs(t, e, id);
            let k = choose|k: int|
                0 <= k < t.addresses.len() && (#[trigger] t.addresses[k]).email == e
                    && t.addresses[k].contact_id == id;
            assert(p(t.addresses[k].email));
        }
    }
    assert(s =~= contacts_of(t, p));
}

/// Senders are the addresses that a message was sent from; recipients those that a message went
/// to, in each part and in any of them.
pub proof fn law_roles_are_counted(t: Tables, s: Stats)
    requires
        sound(t),
        own_rows(t),
        stats_of(t, s),
    ensures
        s.sender_contacts == t.addresses.filter(
            |a: AddressRowText| sent_from_address(t, a.email),
        ).len(),
        s.recipient_contacts == t.addresses.filter(
            |a: AddressRowText| got_anywhere(t, a.email),
        ).len(),
        s.to_contacts == t.addresses.filter(
            |a: AddressRowText| got_in_part(t, a.email, "to"@),
        ).len(),
        s.cc_contacts == t.addresses.filter(
            |a: AddressRowText| got_in_part(t, a.email, "cc"@),
        ).len(),
        s.bcc_contacts == t.addresses.filter(
            |a: AddressRowText| got_in_part(t, a.email, "bcc"@),
        ).len(),
{
    lemma_senders(t);
    lemma_recipients(t);
    lemma_part(t, "to"@);
    lemma_part(t, "cc"@);
    lemma_part(t, "bcc"@);
}

proof fn lemma_senders(t: Tables)
    requires
        sound(t),
        own_rows(t),
    ensures
        senders(t).len() == t.addresses.filter(
            |a: AddressRowText| sent_from_address(t, a.email),
        ).len(),
{
    let p = |e: Seq<char>| sent_from_address(t, e);
    let set = contacts_of(t, p);
    assert forall|id: i64| #[trigger] senders(t).contains(id) == set.contains(id) by {
        if senders(t).contains(id) {
            let i = choose|i: int|
                0 <= i < t.messages.len() && sender_of(t, #[trigger] t.messages[i]) == Some(id);
            let e = t.messages[i].sender_email->0;
            lemma_belongs(t, e, id);
            assert(sent_from_address(t, e));
            assert(p(e) && belongs(t, e, id));
        }
        if set.contains(id) {
            let e = choose|e: Seq<char>| #[trigger] p(e) && belongs(t, e, id);
            let i = choose|i: int|
                0 <= i < t.messages.len() && (#[trigger] t.messages[i]).sender_email == Some(e);
            lemma_belongs(t, e, id);
            assert(sender_of(t, t.messages[i]) == Some(id));
        }
    }
    assert(senders(t) =~= set);
    lemma_contacts_of(t, p);
    let f = |a: AddressRowText| p(a.email);
    let g = |a: AddressRowText| sent_from_address(t, a.email);
    assert(f =~= g);
}

proof fn lemma_recipients(t: Tables)
    requires
        sound(t),
        own_rows(t),
    ensures
        recipients(t).len() == t.addresses.filter(
            |a: AddressRowText| got_anywhere(t, a.email),
        ).len(),
{
    let p = |e: Seq<char>| got_anywhere(t, e);
    let set = contacts_of(t, p);
    assert forall|id: i64| #[trigger] recipients(t).contains(id) == set.contains(id) by {
        if recipients(t).contains(id) {
            let i = choose|i: int|
                0 <= i < t.recipients.len() && owner_of(t, (#[trigger] t.recipients[i]).email)
                    == Some(id);
            let e = t.recipients[i].email;
            lemma_belongs(t, e, id);
            assert(got_anywhere(t, e));
            assert(p(e) && belongs(t, e, id));
        }
        if set.contains(id) {
            let e = choose|e: Seq<char>| #[trigger] p(e) && belongs(t, e, id);
            let i = choose|i: int|
                0 <= i < t.recipients.len() && (#[trigger] t.recipients[i]).email == e;
            lemma_belongs(t, e, id);
            assert(owner_of(t, t.recipients[i].email) == Some(id));
        }
    }
    assert(recipients(t) =~= set);
    lemma_contacts_of(t, p);
    let f = |a: AddressRowText| p(a.email);
    let g = |a: AddressRowText| got_anywhere(t, a.email);
    assert(f =~= g);
}

proof fn lemma_part(t: Tables, kind: Seq<char>)
    requires
        sound(t),
        own_rows(t),
    ensures
        recipients_of_kind(t, kind).len() == t.addresses.filter(
            |a: AddressRowText| got_in_part(t, a.email, kind),
        ).len(),
{
    let p = |e: Seq<char>| got_in_part(t, e, kind);
    let set = contacts_of(t, p);
    let part = recipients_of_kind(t, kind);
    assert forall|id: i64| #[trigger] part.contains(id) == set.contains(id) by {
        if part.contains(id) {
            let i = choose|i: int|
                0 <= i < t.recipients.len() && (#[trigger] t.recipients[i]).kind == kind
                    && owner_of(t, t.recipients[i].email) == Some(id);
            let e = t.recipients[i].email;
            lemma_belongs(t, e, id);
            assert(got_in_part(t, e, kind));
            assert(p(e) && belongs(t, e, id));
        }
        if set.contains(id) {
            let e = choose|e: Seq<char>| #[trigger] p(e) && belongs(t, e, id);
            let i = choose|i: int|
                0 <= i < t.recipients.len() && (#[trigger] t.recipients[i]).email == e
                    && t.recipients[i].kind == kind;
            lemma_belongs(t, e, id);
            assert(t.recipients[i].kind == kind && owner_of(t, t.recipients[i].email) == Some(id));
        }
    }
    assert(part =~= set);
    lemma_contacts_of(t, p);
    let f = |a: AddressRowText| p(a.email);
    let g = |a: AddressRowText| got_in_part(t, a.email, kind);
    assert(f =~= g);
}

/// Contacts are counted by their kinds: people are valid, every other kind is filtered.
pub proof fn law_kinds_are_counted(t: Tables, s: Stats)
    requires
        stats_of(t, s),
        forall|i: int|
            0 <= i < t.contacts.len() ==> exists|k: SenderKind| (
            #[trigger] t.contacts[i]).sender_kind == #[trigger] kind_name(k),
    ensures
        s.valid_contacts == t.contacts.filter(|c: ContactText| c.sender_kind == "person"@).len(),
        s.scans == t.scans.len(),
        s.messages == t.messages.len(),
        s.contacts == t.contacts.len(),
        s.domains == t.domains.len(),
        s.attachments_flagged == t.messages.filter(|m: MessageRowText| m.has_attachments).len(),
        forall|i: int|
            0 <= i < t.contacts.len() && (#[trigger] t.contacts[i]).sender_kind != "person"@
                ==> filtered_kind(t.contacts[i].sender_kind),
{
    let p = |c: ContactText| !filtered_kind(c.sender_kind);
    let q = |c: ContactText| c.sender_kind == "person"@;
    assert forall|i: int| 0 <= i < t.contacts.len() implies p(#[trigger] t.contacts[i]) == q(
        t.contacts[i],
    ) by {
        let k = choose|k: SenderKind| t.contacts[i].sender_kind == #[trigger] kind_name(k);
        law_only_people_pass(k);
        law_only_people_pass(SenderKind::Person);
    }
    lemma_same_filter(t.contacts, p, q, t.contacts.len() as int);
    assert(t.contacts.take(t.contacts.len() as int) =~= t.contacts);
}

proof fn lemma_same_filter<T>(s: Seq<T>, p: spec_fn(T) -> bool, q: spec_fn(T) -> bool, n: int)
    requires
        0 <= n <= s.len(),
        forall|i: int| 0 <= i < s.len() ==> p(#[trigger] s[i]) == q(s[i]),
    ensures
        s.take(n).filter(p) == s.take(n).filter(q),
    decreases n,
{
    if n == 0 {
        lemma_filter_none(s, p);
        lemma_filter_none(s, q);
    } else {
        lemma_same_filter(s, p, q, n - 1);
        lemma_filter_step(s, n - 1, p);
        lemma_filter_step(s, n - 1, q);
        assert(p(s[n - 1]) == q(s[n - 1]));
    }
}

/// The list of kinds has each kind of a contact once, with the number of its contacts, the most
/// frequent first and equals by name.
pub proof fn law_tally(t: Tables, s: Stats, i: int, j: int, k: int)
    requires
        stats_of(t, s),
        0 <= i < j < s.kind_counts@.len(),
        0 <= k < t.contacts.len(),
    ensures
        ({
            let list = s.kind_counts@;
            &&& list[i].0@ != list[j].0@
            &&& list[i].1 >= list[j].1
            &&& list[i].1 == list[j].1 ==> text_le(list[i].0@, list[j].0@)
            &&& list[i].1 == t.contacts.filter(
                |c: ContactText| c.sender_kind == list[i].0@,
            ).len()
            &&& list[i].1 > 0
            &&& exists|n: int|
                0 <= n < list.len() && (#[trigger] list[n]).0@ == t.contacts[k].sender_kind
        }),
{
    let text = tally_text(s.kind_counts@);
    assert(text[i] == (s.kind_counts@[i].0@, s.kind_counts@[i].1 as int));
    assert(text[j] == (s.kind_counts@[j].0@, s.kind_counts@[j].1 as int));
    assert(has_kind(text, t.contacts[k].sender_kind));
    let n = choose|n: int|
        0 <= n < text.len() && (#[trigger] text[n]).0 == t.contacts[k].sender_kind;
    assert(s.kind_counts@[n].0@ == t.contacts[k].sender_kind);
}

} // verus!
