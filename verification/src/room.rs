//! Whether there is room for what a message adds to the tables.
use vstd::prelude::*;

use crate::archive::{addresses, AddressText, RawAddress, RawMessage};
use crate::db::{insert_error, DbError, Rows};
use crate::indexing::is_recipient;
use crate::lists::lemma_push_contains;
use crate::normalize::{email_of, normalize_email, NormalizedEmail};
use crate::pieces::is_one_of;
use crate::soundness::{law_message_fits, lemma_index_grown};
use crate::tables::{
    add_recipient, add_recipients, fits, has_address, has_domain, has_message, has_room, has_scan,
    index_message, is_indexed, message_row, same_recipient, see_address, see_sender, seen_contact,
    sound, stored_message, AddressRowText, DomainText, RecipientText, Tables, ROW_LIMIT,
};
use crate::text::{same_text, texts};

verus! {

/// The addresses that are there.
spec fn emails_of(t: Tables) -> Seq<Seq<char>> {
    t.addresses.map_values(|a: AddressRowText| a.email)
}

/// The domains that are there.
spec fn domains_of(t: Tables) -> Seq<Seq<char>> {
    t.domains.map_values(|d: DomainText| d.domain)
}

proof fn lemma_known(t: Tables, x: Seq<char>)
    ensures
        has_address(t, x) == emails_of(t).contains(x),
        has_domain(t, x) == domains_of(t).contains(x),
{
    if has_address(t, x) {
        let i = choose|i: int| 0 <= i < t.addresses.len() && (#[trigger] t.addresses[i]).email == x;
        assert(emails_of(t)[i] == x);
    }
    if emails_of(t).contains(x) {
        let i = choose|i: int| 0 <= i < emails_of(t).len() && emails_of(t)[i] == x;
        assert(t.addresses[i].email == x);
    }
    if has_domain(t, x) {
        let i = choose|i: int| 0 <= i < t.domains.len() && (#[trigger] t.domains[i]).domain == x;
        assert(domains_of(t)[i] == x);
    }
    if domains_of(t).contains(x) {
        let i = choose|i: int| 0 <= i < domains_of(t).len() && domains_of(t)[i] == x;
        assert(t.domains[i].domain == x);
    }
}

proof fn lemma_add_contains(a: Seq<Seq<char>>, b: Seq<Seq<char>>, x: Seq<char>)
    ensures
        (a + b).contains(x) == (a.contains(x) || b.contains(x)),
{
    if a.contains(x) {
        let i = choose|i: int| 0 <= i < a.len() && a[i] == x;
        assert((a + b)[i] == x);
    }
    if b.contains(x) {
        let i = choose|i: int| 0 <= i < b.len() && b[i] == x;
        assert((a + b)[a.len() + i] == x);
    }
    if (a + b).contains(x) {
        let i = choose|i: int| 0 <= i < (a + b).len() && (a + b)[i] == x;
        if i < a.len() {
            assert(a[i] == x);
        } else {
            assert(b[i - a.len()] == x);
        }
    }
}

fn knows_address(rows: &Rows, email: &str) -> (r: bool)
    ensures
        r == has_address(rows@, email@),
{
    let mut i: usize = 0;
    while i < rows.addresses.len()
        invariant
            0 <= i <= rows.addresses.len(),
            forall|j: int| 0 <= j < i ==> (#[trigger] rows@.addresses[j]).email != email@,
        decreases rows.addresses.len() - i,
    {
        assert(rows@.addresses[i as int] == rows.addresses@[i as int]@);
        if same_text(rows.addresses[i].email.as_str(), email) {
            return true;
        }
        i = i + 1;
    }
    false
}

fn knows_domain(rows: &Rows, domain: &str) -> (r: bool)
    ensures
        r == has_domain(rows@, domain@),
{
    let mut i: usize = 0;
    while i < rows.domains.len()
        invariant
            0 <= i <= rows.domains.len(),
            forall|j: int| 0 <= j < i ==> (#[trigger] rows@.domains[j]).domain != domain@,
        decreases rows.domains.len() - i,
    {
        assert(rows@.domains[i as int] == rows.domains@[i as int]@);
        if same_text(rows.domains[i].domain.as_str(), domain) {
            return true;
        }
        i = i + 1;
    }
    false
}

/// What a message adds to the tables: addresses, each with its contact, domains, and
/// recipients by their part.
struct Additions {
    emails: Vec<String>,
    domains: Vec<String>,
    recipients: Vec<(String, String)>,
}

/// The texts of some pairs.
spec fn pair_texts(v: Seq<(String, String)>) -> Seq<(Seq<char>, Seq<char>)> {
    v.map_values(|p: (String, String)| (p.0@, p.1@))
}

impl Additions {
    /// Whether the additions lead from tables to others, for the message with an id.
    spec fn lead(&self, t: Tables, s: Tables, id: i64) -> bool {
        &&& s.scans == t.scans
        &&& emails_of(s) == emails_of(t) + texts(self.emails@)
        &&& domains_of(s) == domains_of(t) + texts(self.domains@)
        &&& s.contacts.len() == t.contacts.len() + self.emails@.len()
        &&& s.recipients.len() == t.recipients.len() + self.recipients@.len()
        &&& forall|kind: Seq<char>, email: Seq<char>| #[trigger]
            is_recipient(s, id, kind, email) <==> pair_texts(self.recipients@).contains(
                (kind, email),
            )
    }

    fn none() -> (r: Additions)
        ensures
            r.emails@.len() == 0,
            r.domains@.len() == 0,
            r.recipients@.len() == 0,
    {
        Additions { emails: Vec::new(), domains: Vec::new(), recipients: Vec::new() }
    }

    /// Takes in that an address is seen.
    fn see(
        &mut self,
        rows: &Rows,
        e: &NormalizedEmail,
        a: Ghost<AddressText>,
        headers: Ghost<Option<Seq<char>>>,
        now: Ghost<Seq<char>>,
        s: Ghost<Tables>,
        id: Ghost<i64>,
    )
        requires
            old(self).lead(rows@, s@, id@),
            email_of(a@.email) == Some(e@),
        ensures
            final(self).lead(rows@, see_address(s@, a@, headers@, now@), id@),
    {
        let ghost t = rows@;
        let ghost u = see_address(s@, a@, headers@, now@);
        let ghost emails0 = texts(self.emails@);
        let ghost domains0 = texts(self.domains@);
        proof {
            lemma_known(s@, e@.address);
            lemma_known(t, e@.address);
            lemma_known(s@, e@.domain);
            lemma_known(t, e@.domain);
            lemma_add_contains(emails_of(t), emails0, e@.address);
            lemma_add_contains(domains_of(t), domains0, e@.domain);
        }
        let new_domain = !knows_domain(rows, e.domain.as_str()) && !is_one_of(
            e.domain.as_str(),
            &self.domains,
        );
        if new_domain {
            self.domains.push(e.domain.clone());
            assert(texts(self.domains@) =~= domains0.push(e@.domain));
        }
        let new_address = !knows_address(rows, e.address.as_str()) && !is_one_of(
            e.address.as_str(),
            &self.emails,
        );
        if new_address {
            self.emails.push(e.address.clone());
            assert(texts(self.emails@) =~= emails0.push(e@.address));
        }
        proof {
            assert(new_domain == !has_domain(s@, e@.domain));
            assert(new_address == !has_address(s@, e@.address));
            assert(domains_of(u) =~= domains_of(t) + texts(self.domains@)) by {
                if new_domain {
                    assert(domains_of(u) =~= domains_of(s@).push(e@.domain));
                } else {
                    assert(domains_of(u) =~= domains_of(s@));
                }
            }
            assert(emails_of(u) =~= emails_of(t) + texts(self.emails@)) by {
                if new_address {
                    assert(emails_of(u) =~= emails_of(s@).push(e@.address));
                } else {
                    assert(emails_of(u) =~= emails_of(s@));
                }
            }
            assert(u.recipients == s@.recipients);
            assert forall|kind: Seq<char>, email: Seq<char>| #[trigger]
                is_recipient(u, id@, kind, email) <==> pair_texts(self.recipients@).contains(
                    (kind, email),
                ) by {
                assert(is_recipient(u, id@, kind, email) == is_recipient(s@, id@, kind, email));
            }
        }
    }

    fn lists(&self, kind: &str, email: &str) -> (r: bool)
        ensures
            r == pair_texts(self.recipients@).contains((kind@, email@)),
    {
        let ghost all = pair_texts(self.recipients@);
        let mut i: usize = 0;
        while i < self.recipients.len()
            invariant
                0 <= i <= self.recipients.len(),
                all == pair_texts(self.recipients@),
                forall|j: int| 0 <= j < i ==> #[trigger] all[j] != (kind@, email@),
            decreases self.recipients.len() - i,
        {
            assert(all[i as int] == (self.recipients@[i as int].0@, self.recipients@[i as int].1@));
            if same_text(self.recipients[i].0.as_str(), kind) && same_text(
                self.recipients[i].1.as_str(),
                email,
            ) {
                return true;
            }
            i = i + 1;
        }
        false
    }

    /// Takes in a recipient.
    fn add(
        &mut self,
        rows: &Rows,
        kind: &str,
        a: &RawAddress,
        now: Ghost<Seq<char>>,
        s: Ghost<Tables>,
        id: Ghost<i64>,
    )
        requires
            old(self).lead(rows@, s@, id@),
        ensures
            final(self).lead(rows@, add_recipient(s@, id@, kind@, a@, now@), id@),
    {
        let e = match normalize_email(a.email.as_str()) {
            Some(e) => e,
            None => {
                return ;
            },
        };
        let listed = self.lists(kind, e.address.as_str());
        self.see(rows, &e, Ghost(a@), Ghost(None), now, s, id);
        let ghost seen = see_address(s@, a@, None, now@);
        let ghost u = add_recipient(s@, id@, kind@, a@, now@);
        let ghost before = pair_texts(self.recipients@);
        let ghost row = RecipientText {
            message_id: id@,
            contact_id: seen_contact(s@, a@),
            kind: kind@,
            email: e@.address,
            display_name: a@.name,
            domain: Some(e@.domain),
        };
        proof {
            assert(is_recipient(s@, id@, kind@, e@.address) == listed);
            if listed {
                let i = choose|i: int|
                    0 <= i < s@.recipients.len() && (#[trigger] s@.recipients[i]).message_id == id@
                        && s@.recipients[i].kind == kind@ && s@.recipients[i].email == e@.address;
                assert(same_recipient(s@.recipients[i], row));
                assert(u == seen);
            } else {
                assert forall|i: int| 0 <= i < s@.recipients.len() implies !same_recipient(
                    #[trigger] s@.recipients[i],
                    row,
                ) by {
                    if same_recipient(s@.recipients[i], row) {
                        assert(is_recipient(s@, id@, kind@, e@.address));
                    }
                }
                assert(u == Tables { recipients: s@.recipients.push(row), ..seen });
            }
        }
        if !listed {
            self.recipients.push((kind.to_owned(), e.address));
            proof {
                assert(pair_texts(self.recipients@) =~= before.push((kind@, e@.address)));
                assert forall|k: Seq<char>, m: Seq<char>| #[trigger]
                    is_recipient(u, id@, k, m) <==> pair_texts(self.recipients@).contains(
                        (k, m),
                    ) by {
                    lemma_push_contains(before, (kind@, e@.address), (k, m));
                    if is_recipient(u, id@, k, m) {
                        let i = choose|i: int|
                            0 <= i < u.recipients.len() && (#[trigger] u.recipients[i]).message_id
                                == id@ && u.recipients[i].kind == k && u.recipients[i].email == m;
                        if i < s@.recipients.len() {
                            assert(seen.recipients[i] == u.recipients[i]);
                            assert(is_recipient(seen, id@, k, m));
                        }
                    }
                    if is_recipient(seen, id@, k, m) {
                        let i = choose|i: int|
                            0 <= i < seen.recipients.len() && (
                            #[trigger] seen.recipients[i]).message_id == id@
                                && seen.recipients[i].kind == k && seen.recipients[i].email == m;
                        assert(u.recipients[i] == seen.recipients[i]);
                    }
                    if (k, m) == (kind@, e@.address) {
                        assert(u.recipients[s@.recipients.len() as int] == row);
                    }
                }
                assert(emails_of(u) =~= emails_of(seen));
                assert(domains_of(u) =~= domains_of(seen));
            }
        }
    }

    /// Takes in the recipients in one part.
    fn add_all(
        &mut self,
        rows: &Rows,
        kind: &str,
        list: &Vec<RawAddress>,
        now: Ghost<Seq<char>>,
        s: Ghost<Tables>,
        id: Ghost<i64>,
    )
        requires
            old(self).lead(rows@, s@, id@),
        ensures
            final(self).lead(
                rows@,
                add_recipients(s@, id@, kind@, addresses(list@), now@),
                id@,
            ),
    {
        let ghost all = addresses(list@);
        let mut i: usize = 0;
        assert(all.take(0) =~= Seq::empty());
        while i < list.len()
            invariant
                0 <= i <= list.len(),
                all == addresses(list@),
                self.lead(rows@, add_recipients(s@, id@, kind@, all.take(i as int), now@), id@),
            decreases list.len() - i,
        {
            let ghost done = add_recipients(s@, id@, kind@, all.take(i as int), now@);
            proof {
                assert(all.take(i + 1).drop_last() =~= all.take(i as int));
                assert(all.take(i + 1).last() == list@[i as int]@);
            }
            self.add(rows, kind, &list[i], now, Ghost(done), id);
            i = i + 1;
        }
        assert(all.take(i as int) =~= all);
    }

    /// Whether there is room for the additions and some messages.
    fn fit(&self, rows: &Rows, messages: u128, s: Ghost<Tables>, id: Ghost<i64>) -> (r: bool)
        requires
            sound(rows@),
            messages <= 1,
            self.lead(rows@, s@, id@),
            s@.messages.len() == rows@.messages.len() + messages,
        ensures
            r == fits(rows@, s@),
    {
        let limit: u128 = ROW_LIMIT as u128;
        let top: u128 = i64::MAX as u128;
        let emails: u128 = self.emails.len() as u128;
        proof {
            assert(emails_of(s@).len() == s@.addresses.len());
            assert(domains_of(s@).len() == s@.domains.len());
        }
        rows.domains.len() as u128 + self.domains.len() as u128 <= limit
            && rows.contacts.len() as u128 + emails <= limit
            && rows.addresses.len() as u128 + emails <= limit
            && rows.messages.len() as u128 + messages <= limit
            && rows.recipients.len() as u128 + self.recipients.len() as u128 <= limit
            && rows.ids.contacts as u128 + emails <= top
            && rows.ids.addresses as u128 + emails <= top
    }
}

fn has_much_room(rows: &Rows, n: u128) -> (r: bool)
    requires
        sound(rows@),
        n <= 0x4_0000_0000_0000_0000u128,
    ensures
        r == has_room(rows@, n as int),
{
    let limit: u128 = ROW_LIMIT as u128;
    let top: u128 = i64::MAX as u128;
    rows.domains.len() as u128 + n <= limit && rows.contacts.len() as u128 + n <= limit
        && rows.addresses.len() as u128 + n <= limit && rows.messages.len() as u128 + n <= limit
        && rows.recipients.len() as u128 + n <= limit && rows.ids.contacts as u128 + n <= top
        && rows.ids.addresses as u128 + n <= top && rows.ids.messages as u128 + n <= top
}

/// What keeps a message from being indexed, given whether it is there already and whether its
/// scan is known.
pub(crate) fn find_insert_error(
    rows: &Rows,
    scan_id: Ghost<i64>,
    message: &RawMessage,
    now: Ghost<Seq<char>>,
    indexed: bool,
    scan_known: bool,
) -> (r: Option<DbError>)
    requires
        sound(rows@),
        indexed == is_indexed(rows@, message@),
        scan_known == has_scan(rows@, scan_id@),
    ensures
        r == insert_error(rows@, scan_id@, message@, now@),
{
    let ghost t = rows@;
    let ghost m = message@;
    let ghost row = message_row(t, scan_id@, m);
    let needed: u128 = 1 + message.to.len() as u128 + message.cc.len() as u128
        + message.bcc.len() as u128;
    if has_much_room(rows, needed) {
        proof {
            law_message_fits(t, scan_id@, m, now@);
        }
        if !indexed && !scan_known {
            return Some(DbError::UnknownScan);
        }
        return None;
    }
    if rows.ids.messages == i64::MAX {
        return Some(DbError::Full);
    }
    proof {
        lemma_index_grown(t, scan_id@, m, now@);
    }
    let mut adds = Additions::none();
    let sender = match &message.sender {
        Some(a) => Some(a),
        None => match &message.from {
            Some(a) => Some(a),
            None => None,
        },
    };
    proof {
        assert(emails_of(t) + texts(adds.emails@) =~= emails_of(t));
        assert(domains_of(t) + texts(adds.domains@) =~= domains_of(t));
        assert forall|kind: Seq<char>, email: Seq<char>| #[trigger]
            is_recipient(t, row.id, kind, email) <==> pair_texts(adds.recipients@).contains(
                (kind, email),
            ) by {
            if is_recipient(t, row.id, kind, email) {
                let i = choose|i: int|
                    0 <= i < t.recipients.len() && (#[trigger] t.recipients[i]).message_id == row.id
                        && t.recipients[i].kind == kind && t.recipients[i].email == email;
                assert(has_message(t.messages, t.recipients[i].message_id));
                let k = choose|k: int|
                    0 <= k < t.messages.len() && (#[trigger] t.messages[k]).id
                        == t.recipients[i].message_id;
                assert(t.messages[k].id <= t.ids.messages);
            }
        }
        assert(adds.lead(t, t, row.id));
    }
    if let Some(a) = sender {
        if let Some(e) = normalize_email(a.email.as_str()) {
            adds.see(rows, &e, Ghost(a@), Ghost(m.headers), now, Ghost(t), Ghost(row.id));
        }
    }
    let ghost seen = see_sender(t, m, now@);
    assert(adds.lead(t, seen, row.id));
    if !adds.fit(rows, 0, Ghost(seen), Ghost(row.id)) {
        return Some(DbError::Full);
    }
    if indexed {
        return None;
    }
    let ghost stored = stored_message(t, scan_id@, m, now@);
    proof {
        assert(emails_of(stored) =~= emails_of(seen));
        assert(domains_of(stored) =~= domains_of(seen));
        assert forall|kind: Seq<char>, email: Seq<char>| #[trigger]
            is_recipient(stored, row.id, kind, email) <==> pair_texts(adds.recipients@).contains(
                (kind, email),
            ) by {
            assert(is_recipient(stored, row.id, kind, email) == is_recipient(
                seen,
                row.id,
                kind,
                email,
            ));
        }
        assert(adds.lead(t, stored, row.id));
    }
    if !adds.fit(rows, 1, Ghost(stored), Ghost(row.id)) {
        return Some(DbError::Full);
    }
    if !scan_known {
        return Some(DbError::UnknownScan);
    }
    adds.add_all(rows, "to", &message.to, now, Ghost(stored), Ghost(row.id));
    let ghost with_to = add_recipients(stored, row.id, "to"@, m.to, now@);
    adds.add_all(rows, "cc", &message.cc, now, Ghost(with_to), Ghost(row.id));
    let ghost with_cc = add_recipients(with_to, row.id, "cc"@, m.cc, now@);
    adds.add_all(rows, "bcc", &message.bcc, now, Ghost(with_cc), Ghost(row.id));
    if !adds.fit(rows, 1, Ghost(index_message(t, scan_id@, m, now@)), Ghost(row.id)) {
        return Some(DbError::Full);
    }
    None
}

} // verus!
