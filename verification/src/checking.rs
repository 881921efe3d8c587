//! Checking rows from outside before they are taken into the index.
use vstd::prelude::*;

use crate::db::Rows;
use crate::sort::all_distinct;
use crate::tables::{
    contacts_known, has_contact, has_message, ids_grow, last_message_id, messages_known,
    messages_unique, names_unique, recipients_unique, same_identity, same_recipient, sound,
    AddressRow, ContactRow, DomainRow, MessageRow, MessageRowText, ScanRow, ROW_LIMIT,
};
use crate::text::texts;

verus! {

/// Rows with an id.
trait Numbered {
    spec fn number(&self) -> i64;

    fn get_number(&self) -> (r: i64)
        ensures
            r == self.number(),
    ;
}

impl Numbered for ScanRow {
    spec fn number(&self) -> i64 {
        self.id
    }

    fn get_number(&self) -> (r: i64) {
        self.id
    }
}

impl Numbered for ContactRow {
    spec fn number(&self) -> i64 {
        self.id
    }

    fn get_number(&self) -> (r: i64) {
        self.id
    }
}

impl Numbered for AddressRow {
    spec fn number(&self) -> i64 {
        self.id
    }

    fn get_number(&self) -> (r: i64) {
        self.id
    }
}

impl Numbered for MessageRow {
    spec fn number(&self) -> i64 {
        self.id
    }

    fn get_number(&self) -> (r: i64) {
        self.id
    }
}

/// The ids grow, up to the last one that was given out.
spec fn numbers_grow<R: Numbered>(rows: Seq<R>, last: i64) -> bool {
    &&& last >= 0
    &&& forall|i: int| 0 <= i < rows.len() ==> (#[trigger] rows[i]).number() <= last
    &&& forall|i: int, j: int|
        0 <= i < j < rows.len() ==> (#[trigger] rows[i]).number() < (#[trigger] rows[j]).number()
}

fn check_numbers<R: Numbered>(rows: &Vec<R>, last: i64) -> (r: bool)
    ensures
        r == numbers_grow(rows@, last),
{
    if last < 0 {
        return false;
    }
    let mut i: usize = 0;
    while i < rows.len()
        invariant
            0 <= i <= rows.len(),
            last >= 0,
            numbers_grow(rows@.take(i as int), last),
        decreases rows.len() - i,
    {
        let ghost done = rows@.take(i as int);
        let ghost next = rows@.take(i + 1);
        let n = rows[i].get_number();
        if n > last {
            assert(rows@[i as int].number() > last);
            return false;
        }
        if i > 0 && rows[i - 1].get_number() >= n {
            assert(rows@[i - 1].number() >= rows@[i as int].number());
            return false;
        }
        assert forall|a: int, b: int| 0 <= a < b < next.len() implies (
        #[trigger] next[a]).number() < (#[trigger] next[b]).number() by {
            assert(next[a] == rows@[a]);
            if b < i {
                assert(done[a].number() < done[b].number());
            } else if a < i - 1 {
                assert(done[a].number() < done[i - 1].number());
            }
        }
        assert forall|a: int| 0 <= a < next.len() implies (#[trigger] next[a]).number() <= last by {
            if a < i {
                assert(done[a].number() <= last);
            }
        }
        i = i + 1;
    }
    assert(rows@.take(i as int) =~= rows@);
    true
}

/// Rows with a name.
trait Named {
    spec fn name(&self) -> Seq<char>;

    fn get_name(&self) -> (r: String)
        ensures
            r@ == self.name(),
    ;
}

impl Named for DomainRow {
    spec fn name(&self) -> Seq<char> {
        self.domain@
    }

    fn get_name(&self) -> (r: String) {
        self.domain.clone()
    }
}

impl Named for AddressRow {
    spec fn name(&self) -> Seq<char> {
        self.email@
    }

    fn get_name(&self) -> (r: String) {
        self.email.clone()
    }
}

/// No name occurs twice.
spec fn names_differ<R: Named>(rows: Seq<R>) -> bool {
    forall|i: int, j: int|
        0 <= i < j < rows.len() ==> (#[trigger] rows[i]).name() != (#[trigger] rows[j]).name()
}

fn check_names<R: Named>(rows: &Vec<R>) -> (r: bool)
    ensures
        r == names_differ(rows@),
{
    let mut names: Vec<String> = Vec::new();
    let mut i: usize = 0;
    while i < rows.len()
        invariant
            0 <= i <= rows.len(),
            names.len() == i,
            forall|j: int| 0 <= j < i ==> (#[trigger] names@[j])@ == rows@[j].name(),
        decreases rows.len() - i,
    {
        names.push(rows[i].get_name());
        i = i + 1;
    }
    let ghost t = texts(names@);
    let r = all_distinct(names);
    proof {
        assert forall|j: int| 0 <= j < rows@.len() implies t[j] == (#[trigger] rows@[j]).name() by {
            assert(t[j] == names@[j]@);
        }
        if names_differ(rows@) {
            assert forall|a: int, b: int|
                0 <= a < t.len() && 0 <= b < t.len() && a != b implies t[a] != t[b] by {
                if a < b {
                    assert(rows@[a].name() != rows@[b].name());
                } else {
                    assert(rows@[b].name() != rows@[a].name());
                }
            }
        }
        if t.no_duplicates() {
            assert forall|a: int, b: int| 0 <= a < b < rows@.len() implies (
            #[trigger] rows@[a]).name() != (#[trigger] rows@[b]).name() by {
                assert(t[a] != t[b]);
            }
        }
    }
    r
}

/// One of the two identities of a message.
spec fn identity(m: MessageRowText, by_source: bool) -> Option<Seq<char>> {
    if by_source {
        m.source_id
    } else {
        m.internet_message_id
    }
}

/// The texts that are there.
spec fn present(s: Seq<MessageRowText>, by_source: bool) -> Seq<Seq<char>>
    decreases s.len(),
{
    if s.len() == 0 {
        Seq::empty()
    } else {
        match identity(s.last(), by_source) {
            Some(x) => present(s.drop_last(), by_source).push(x),
            None => present(s.drop_last(), by_source),
        }
    }
}

/// No identity occurs twice.
spec fn identities_differ(s: Seq<MessageRowText>, by_source: bool) -> bool {
    forall|i: int, j: int|
        0 <= i < j < s.len() ==> !(identity(#[trigger] s[i], by_source) is Some && identity(
            s[i],
            by_source,
        ) == identity(#[trigger] s[j], by_source))
}

proof fn lemma_present_contains(s: Seq<MessageRowText>, by_source: bool, x: Seq<char>)
    ensures
        present(s, by_source).contains(x) <==> exists|i: int|
            0 <= i < s.len() && identity(#[trigger] s[i], by_source) == Some(x),
    decreases s.len(),
{
    if s.len() > 0 {
        let t = s.drop_last();
        lemma_present_contains(t, by_source, x);
        let p = present(t, by_source);
        if present(s, by_source).contains(x) {
            if p.contains(x) {
                let i = choose|i: int|
                    0 <= i < t.len() && identity(#[trigger] t[i], by_source) == Some(x);
                assert(s[i] == t[i]);
            } else {
                assert(identity(s[s.len() - 1], by_source) == Some(x));
            }
        }
        if exists|i: int| 0 <= i < s.len() && identity(#[trigger] s[i], by_source) == Some(x) {
            let i = choose|i: int|
                0 <= i < s.len() && identity(#[trigger] s[i], by_source) == Some(x);
            if i < t.len() {
                assert(t[i] == s[i]);
                let k = choose|k: int| 0 <= k < p.len() && p[k] == x;
                assert(present(s, by_source)[k] == x);
            } else {
                assert(present(s, by_source)[p.len() as int] == x);
            }
        }
    }
}

proof fn lemma_present_distinct(s: Seq<MessageRowText>, by_source: bool)
    ensures
        present(s, by_source).no_duplicates() <==> identities_differ(s, by_source),
    decreases s.len(),
{
    if s.len() > 0 {
        let t = s.drop_last();
        let p = present(t, by_source);
        let q = present(s, by_source);
        lemma_present_distinct(t, by_source);
        assert(identities_differ(s, by_source) ==> identities_differ(t, by_source)) by {
            if identities_differ(s, by_source) {
                assert forall|i: int, j: int| 0 <= i < j < t.len() implies !(identity(
                    #[trigger] t[i],
                    by_source,
                ) is Some && identity(t[i], by_source) == identity(#[trigger] t[j], by_source)) by {
                    assert(t[i] == s[i] && t[j] == s[j]);
                }
            }
        }
        match identity(s.last(), by_source) {
            Some(x) => {
                lemma_present_contains(t, by_source, x);
                if q.no_duplicates() {
                    assert forall|a: int, b: int|
                        0 <= a < p.len() && 0 <= b < p.len() && a != b implies p[a] != p[b] by {
                        assert(q[a] != q[b]);
                    }
                    assert(!p.contains(x)) by {
                        if p.contains(x) {
                            let k = choose|k: int| 0 <= k < p.len() && p[k] == x;
                            assert(q[k] == q[p.len() as int]);
                        }
                    }
                    assert forall|i: int, j: int| 0 <= i < j < s.len() implies !(identity(
                        #[trigger] s[i],
                        by_source,
                    ) is Some && identity(s[i], by_source) == identity(
                        #[trigger] s[j],
                        by_source,
                    )) by {
                        assert(t[i] == s[i]);
                        if j < t.len() {
                            assert(t[j] == s[j]);
                        }
                    }
                }
                if identities_differ(s, by_source) {
                    assert(!p.contains(x)) by {
                        if p.contains(x) {
                            let i = choose|i: int|
                                0 <= i < t.len() && identity(#[trigger] t[i], by_source) == Some(x);
                            assert(s[i] == t[i]);
                            assert(identity(s[i], by_source) == identity(
                                s[s.len() - 1],
                                by_source,
                            ));
                        }
                    }
                    assert forall|a: int, b: int|
                        0 <= a < q.len() && 0 <= b < q.len() && a != b implies q[a] != q[b] by {
                        if a == p.len() {
                            assert(p.contains(p[b]));
                        } else if b == p.len() {
                            assert(p.contains(p[a]));
                        }
                    }
                }
            },
            None => {
                if identities_differ(t, by_source) {
                    assert forall|i: int, j: int| 0 <= i < j < s.len() implies !(identity(
                        #[trigger] s[i],
                        by_source,
                    ) is Some && identity(s[i], by_source) == identity(
                        #[trigger] s[j],
                        by_source,
                    )) by {
                        assert(t[i] == s[i]);
                        if j < t.len() {
                            assert(t[j] == s[j]);
                        }
                    }
                }
            },
        }
    }
}

fn check_identities(rows: &Vec<MessageRow>, by_source: bool) -> (r: bool)
    ensures
        r == identities_differ(rows@.map_values(|m: MessageRow| m@), by_source),
{
    let ghost s = rows@.map_values(|m: MessageRow| m@);
    let mut found: Vec<String> = Vec::new();
    let mut i: usize = 0;
    assert(texts(found@) =~= Seq::empty());
    while i < rows.len()
        invariant
            0 <= i <= rows.len(),
            s == rows@.map_values(|m: MessageRow| m@),
            texts(found@) == present(s.take(i as int), by_source),
        decreases rows.len() - i,
    {
        let ghost next = s.take(i + 1);
        let ghost before = texts(found@);
        assert(next.drop_last() =~= s.take(i as int));
        assert(next.last() == rows@[i as int]@);
        let id = if by_source {
            &rows[i].source_id
        } else {
            &rows[i].internet_message_id
        };
        if let Some(x) = id {
            found.push(x.clone());
            assert(texts(found@) =~= before.push(x@));
        }
        i = i + 1;
    }
    assert(s.take(i as int) =~= s);
    proof {
        lemma_present_distinct(s, by_source);
    }
    all_distinct(found)
}

fn check_recipient_messages(rows: &Rows) -> (r: bool)
    requires
        ids_grow(rows@),
        recipients_unique(rows@),
    ensures
        r == messages_known(rows@),
{
    let ghost t = rows@;
    let mut i: usize = 0;
    let mut p: usize = 0;
    while i < rows.recipients.len()
        invariant
            t == rows@,
            ids_grow(t),
            recipients_unique(t),
            0 <= i <= rows.recipients.len(),
            0 <= p <= rows.messages.len(),
            i < rows.recipients.len() ==> forall|k: int|
                0 <= k < p ==> (#[trigger] t.messages[k]).id < t.recipients[i as int].message_id,
            forall|k: int|
                0 <= k < i ==> has_message(t.messages, (#[trigger] t.recipients[k]).message_id),
        decreases rows.recipients.len() - i,
    {
        let id = rows.recipients[i].message_id;
        assert(t.recipients[i as int].message_id == id);
        while p < rows.messages.len() && rows.messages[p].id < id
            invariant
                t == rows@,
                0 <= p <= rows.messages.len(),
                forall|k: int| 0 <= k < p ==> (#[trigger] t.messages[k]).id < id,
            decreases rows.messages.len() - p,
        {
            assert(t.messages[p as int] == rows.messages@[p as int]@);
            p = p + 1;
        }
        if p == rows.messages.len() || rows.messages[p].id != id {
            proof {
                if has_message(t.messages, id) {
                    let k = choose|k: int|
                        0 <= k < t.messages.len() && (#[trigger] t.messages[k]).id == id;
                    assert(p <= k);
                    assert(t.messages[p as int] == rows.messages@[p as int]@);
                    assert(t.messages[p as int].id <= t.messages[k].id);
                }
                assert(!has_message(t.messages, t.recipients[i as int].message_id));
            }
            return false;
        }
        assert(t.messages[p as int] == rows.messages@[p as int]@);
        assert(has_message(t.messages, id));
        proof {
            if i + 1 < rows.recipients.len() {
                assert(t.recipients[i as int].message_id <= t.recipients[i + 1].message_id);
            }
        }
        i = i + 1;
    }
    true
}

fn check_recipients(rows: &Rows) -> (r: bool)
    requires
        ids_grow(rows@),
    ensures
        r == recipients_unique(rows@),
{
    let n = rows.messages.len();
    let last: i64 = if n > 0 {
        assert(rows@.messages.last() == rows.messages@[n - 1]@);
        rows.messages[n - 1].id
    } else {
        0
    };
    let list = &rows.recipients;
    let ghost t = rows@.recipients;
    let mut i: usize = 0;
    while i < list.len()
        invariant
            list@.len() == t.len(),
            list == &rows.recipients,
            t == rows@.recipients,
            last == last_message_id(rows@),
            forall|k: int| 0 <= k < t.len() ==> #[trigger] t[k] == list@[k]@,
            0 <= i <= list.len(),
            forall|a: int, b: int|
                0 <= a < b < i ==> !same_recipient(#[trigger] t[a], #[trigger] t[b]),
            forall|a: int, b: int|
                0 <= a < b < i ==> (#[trigger] t[a]).message_id <= (#[trigger] t[b]).message_id,
            forall|a: int| 0 <= a < i ==> (#[trigger] t[a]).message_id <= last,
        decreases list.len() - i,
    {
        let id = list[i].message_id;
        assert(t[i as int].message_id == id);
        if id > last {
            return false;
        }
        if i > 0 && list[i - 1].message_id > id {
            assert(t[i - 1].message_id > t[i as int].message_id);
            return false;
        }
        assert(i > 0 ==> t[i - 1].message_id <= id);
        let mut j: usize = i;
        while j > 0 && list[j - 1].message_id == id
            invariant
                0 <= j <= i < list.len(),
                list@.len() == t.len(),
                list == &rows.recipients,
                t == rows@.recipients,
                t[i as int].message_id == id,
                forall|k: int| 0 <= k < t.len() ==> #[trigger] t[k] == list@[k]@,
                forall|k: int| j <= k < i ==> !same_recipient(#[trigger] t[k], t[i as int]),
            decreases j,
        {
            j = j - 1;
            assert(t[j as int] == list@[j as int]@);
            assert(t[i as int] == list@[i as int]@);
            if list[j].kind == list[i].kind && list[j].email == list[i].email {
                assert(same_recipient(t[j as int], t[i as int]));
                return false;
            }
        }
        proof {
            assert forall|k: int| 0 <= k < i implies !same_recipient(
                #[trigger] t[k],
                t[i as int],
            ) && t[k].message_id <= id by {
                if k < i - 1 {
                    assert(t[k].message_id <= t[i - 1].message_id);
                }
                if k < j {
                    assert(t[j - 1].message_id != id);
                    if k < j - 1 {
                        assert(t[k].message_id <= t[j - 1].message_id);
                    }
                    if j < i {
                        assert(t[j - 1].message_id <= t[j as int].message_id);
                    }
                    if j - 1 < i - 1 {
                        assert(t[j - 1].message_id <= t[i - 1].message_id);
                    }
                }
            }
        }
        i = i + 1;
    }
    true
}

fn knows_contact(rows: &Rows, id: i64) -> (r: bool)
    ensures
        r == has_contact(rows@.contacts, id),
{
    let mut i: usize = 0;
    while i < rows.contacts.len()
        invariant
            0 <= i <= rows.contacts.len(),
            forall|j: int| 0 <= j < i ==> (#[trigger] rows@.contacts[j]).id != id,
        decreases rows.contacts.len() - i,
    {
        assert(rows@.contacts[i as int] == rows.contacts@[i as int]@);
        if rows.contacts[i].id == id {
            return true;
        }
        i = i + 1;
    }
    false
}

fn check_contacts(rows: &Rows) -> (r: bool)
    ensures
        r == contacts_known(rows@),
{
    let mut i: usize = 0;
    while i < rows.addresses.len()
        invariant
            0 <= i <= rows.addresses.len(),
            forall|j: int|
                0 <= j < i ==> has_contact(
                    rows@.contacts,
                    (#[trigger] rows@.addresses[j]).contact_id,
                ),
        decreases rows.addresses.len() - i,
    {
        assert(rows@.addresses[i as int] == rows.addresses@[i as int]@);
        if !knows_contact(rows, rows.addresses[i].contact_id) {
            return false;
        }
        i = i + 1;
    }
    true
}

fn check_ids(rows: &Rows) -> (r: bool)
    ensures
        r == ids_grow(rows@),
{
    let a = check_numbers(&rows.scans, rows.ids.scans);
    let b = check_numbers(&rows.contacts, rows.ids.contacts);
    let c = check_numbers(&rows.addresses, rows.ids.addresses);
    let d = check_numbers(&rows.messages, rows.ids.messages);
    proof {
        let t = rows@;
        assert forall|i: int| 0 <= i < t.scans.len() implies (#[trigger] t.scans[i]).id
            == rows.scans@[i].number() by {}
        assert forall|i: int| 0 <= i < t.contacts.len() implies (#[trigger] t.contacts[i]).id
            == rows.contacts@[i].number() by {}
        assert forall|i: int| 0 <= i < t.addresses.len() implies (#[trigger] t.addresses[i]).id
            == rows.addresses@[i].number() by {}
        assert forall|i: int| 0 <= i < t.messages.len() implies (#[trigger] t.messages[i]).id
            == rows.messages@[i].number() by {}
        if ids_grow(t) {
            assert forall|i: int, j: int| 0 <= i < j < rows.scans@.len() implies (
            #[trigger] rows.scans@[i]).number() < (#[trigger] rows.scans@[j]).number() by {
                assert(t.scans[i].id < t.scans[j].id);
            }
            assert forall|i: int| 0 <= i < rows.scans@.len() implies (
            #[trigger] rows.scans@[i]).number() <= t.ids.scans by {
                assert(t.scans[i].id <= t.ids.scans);
            }
            assert forall|i: int, j: int| 0 <= i < j < rows.contacts@.len() implies (
            #[trigger] rows.contacts@[i]).number() < (#[trigger] rows.contacts@[j]).number() by {
                assert(t.contacts[i].id < t.contacts[j].id);
            }
            assert forall|i: int| 0 <= i < rows.contacts@.len() implies (
            #[trigger] rows.contacts@[i]).number() <= t.ids.contacts by {
                assert(t.contacts[i].id <= t.ids.contacts);
            }
            assert forall|i: int, j: int| 0 <= i < j < rows.addresses@.len() implies (
            #[trigger] rows.addresses@[i]).number() < (#[trigger] rows.addresses@[j]).number() by {
                assert(t.addresses[i].id < t.addresses[j].id);
            }
            assert forall|i: int| 0 <= i < rows.addresses@.len() implies (
            #[trigger] rows.addresses@[i]).number() <= t.ids.addresses by {
                assert(t.addresses[i].id <= t.ids.addresses);
            }
            assert forall|i: int, j: int| 0 <= i < j < rows.messages@.len() implies (
            #[trigger] rows.messages@[i]).number() < (#[trigger] rows.messages@[j]).number() by {
                assert(t.messages[i].id < t.messages[j].id);
            }
            assert forall|i: int| 0 <= i < rows.messages@.len() implies (
            #[trigger] rows.messages@[i]).number() <= t.ids.messages by {
                assert(t.messages[i].id <= t.ids.messages);
            }
        }
    }
    a && b && c && d
}

/// Decides whether rows are sound.
pub fn check_rows(rows: &Rows) -> (r: bool)
    ensures
        r == sound(rows@),
{
    if rows.scans.len() as u64 > ROW_LIMIT || rows.domains.len() as u64 > ROW_LIMIT
        || rows.contacts.len() as u64 > ROW_LIMIT || rows.addresses.len() as u64 > ROW_LIMIT
        || rows.messages.len() as u64 > ROW_LIMIT || rows.recipients.len() as u64 > ROW_LIMIT {
        return false;
    }
    if !check_ids(rows) {
        return false;
    }
    let domains = check_names(&rows.domains);
    let emails = check_names(&rows.addresses);
    proof {
        let t = rows@;
        assert forall|i: int| 0 <= i < t.domains.len() implies (#[trigger] t.domains[i]).domain
            == rows.domains@[i].name() by {}
        assert forall|i: int| 0 <= i < t.addresses.len() implies (#[trigger] t.addresses[i]).email
            == rows.addresses@[i].name() by {}
        if names_unique(t) {
            assert forall|i: int, j: int| 0 <= i < j < rows.domains@.len() implies (
            #[trigger] rows.domains@[i]).name() != (#[trigger] rows.domains@[j]).name() by {
                assert(t.domains[i].domain != t.domains[j].domain);
            }
            assert forall|i: int, j: int| 0 <= i < j < rows.addresses@.len() implies (
            #[trigger] rows.addresses@[i]).name() != (#[trigger] rows.addresses@[j]).name() by {
                assert(t.addresses[i].email != t.addresses[j].email);
            }
        }
        assert(names_unique(t) == (domains && emails));
    }
    if !domains || !emails {
        return false;
    }
    let sources = check_identities(&rows.messages, true);
    let ids = check_identities(&rows.messages, false);
    proof {
        let m = rows@.messages;
        if messages_unique(rows@) {
            assert forall|i: int, j: int| 0 <= i < j < m.len() implies !(identity(
                #[trigger] m[i],
                true,
            ) is Some && identity(m[i], true) == identity(#[trigger] m[j], true)) by {
                assert(!same_identity(m[i], m[j]));
            }
            assert forall|i: int, j: int| 0 <= i < j < m.len() implies !(identity(
                #[trigger] m[i],
                false,
            ) is Some && identity(m[i], false) == identity(#[trigger] m[j], false)) by {
                assert(!same_identity(m[i], m[j]));
            }
        }
        if sources && ids {
            assert forall|i: int, j: int| 0 <= i < j < m.len() implies !same_identity(
                #[trigger] m[i],
                #[trigger] m[j],
            ) by {
                assert(!(identity(m[i], true) is Some && identity(m[i], true) == identity(
                    m[j],
                    true,
                )));
                assert(!(identity(m[i], false) is Some && identity(m[i], false) == identity(
                    m[j],
                    false,
                )));
            }
        }
        assert(messages_unique(rows@) == (sources && ids));
    }
    if !sources || !ids {
        return false;
    }
    check_recipients(rows) && check_contacts(rows) && check_recipient_messages(rows)
}

} // verus!
