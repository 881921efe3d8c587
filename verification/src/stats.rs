//! Numbers about the index as a whole.
use vstd::prelude::*;

use crate::classify::{filtered_kind, is_filtered_sender_kind};
use crate::db::Rows;
use crate::lists::{lemma_filter_none, lemma_filter_step, lemma_map_multiset, lemma_push_contains};
use crate::people::{is_part, own_rows};
use crate::ranking::{find_owners, owner_of, sender_of, Owners};
use crate::sort::{
    count_distinct, lemma_text_total, lemma_text_transitive, not_after, sort, sort_distinct,
    text_le, Ranked,
};
use crate::tables::{has_contact, sound, ContactText, MessageRowText, Tables, ROW_LIMIT};
use crate::text::{same_text, texts};

verus! {

/// Numbers about an index.
#[derive(Debug, PartialEq, Eq)]
pub struct Stats {
    pub scans: i64,
    pub messages: i64,
    pub contacts: i64,
    /// Contacts that are people.
    pub valid_contacts: i64,
    /// Contacts that are not.
    pub filtered_contacts: i64,
    pub domains: i64,
    /// Messages with attachments.
    pub attachments_flagged: i64,
    pub sender_contacts: i64,
    pub recipient_contacts: i64,
    pub to_contacts: i64,
    pub cc_contacts: i64,
    pub bcc_contacts: i64,
    /// The contacts of each kind, the most frequent kind first.
    pub kind_counts: Vec<(String, i64)>,
}

/// Kinds with their numbers.
pub open spec fn tally_text(v: Seq<(String, i64)>) -> Seq<(Seq<char>, int)> {
    v.map_values(|p: (String, i64)| (p.0@, p.1 as int))
}

/// The contacts that sent a message.
pub open spec fn senders(t: Tables) -> Set<i64> {
    Set::new(
        |id: i64|
            exists|i: int|
                0 <= i < t.messages.len() && sender_of(t, #[trigger] t.messages[i]) == Some(id),
    )
}

/// The contacts that got a message.
pub open spec fn recipients(t: Tables) -> Set<i64> {
    Set::new(
        |id: i64|
            exists|i: int|
                0 <= i < t.recipients.len() && owner_of(t, (#[trigger] t.recipients[i]).email)
                    == Some(id),
    )
}

/// The contacts that got a message as a recipient of a kind.
pub open spec fn recipients_of_kind(t: Tables, kind: Seq<char>) -> Set<i64> {
    Set::new(
        |id: i64|
            exists|i: int|
                0 <= i < t.recipients.len() && (#[trigger] t.recipients[i]).kind == kind
                    && owner_of(t, t.recipients[i].email) == Some(id),
    )
}

/// The number of contacts of a kind.
pub open spec fn kind_count(contacts: Seq<ContactText>, kind: Seq<char>) -> nat {
    contacts.filter(|c: ContactText| c.sender_kind == kind).len()
}

/// The order of kinds: by number, from the highest down, and then by name.
pub open spec fn counts_before(a: (Seq<char>, int), b: (Seq<char>, int)) -> bool {
    a.1 > b.1 || a.1 == b.1 && text_le(a.0, b.0)
}

/// Whether a list holds each kind that occurs once, with the number of its contacts, in order.
pub open spec fn is_tally(contacts: Seq<ContactText>, list: Seq<(Seq<char>, int)>) -> bool {
    &&& forall|i: int|
        0 <= i < list.len() ==> (#[trigger] list[i]).1 == kind_count(contacts, list[i].0)
            && list[i].1 > 0
    &&& forall|i: int|
        0 <= i < contacts.len() ==> has_kind(list, (#[trigger] contacts[i]).sender_kind)
    &&& forall|i: int, j: int|
        0 <= i < j < list.len() ==> (#[trigger] list[i]).0 != (#[trigger] list[j]).0
            && counts_before(list[i], list[j])
}

/// Whether a kind is in a list.
pub open spec fn has_kind(list: Seq<(Seq<char>, int)>, kind: Seq<char>) -> bool {
    exists|i: int| 0 <= i < list.len() && (#[trigger] list[i]).0 == kind
}

/// Whether the numbers are those of the tables.
pub open spec fn stats_of(t: Tables, s: Stats) -> bool {
    &&& s.scans == t.scans.len()
    &&& s.messages == t.messages.len()
    &&& s.contacts == t.contacts.len()
    &&& s.valid_contacts == t.contacts.filter(
        |c: ContactText| !filtered_kind(c.sender_kind),
    ).len()
    &&& s.filtered_contacts == t.contacts.filter(
        |c: ContactText| filtered_kind(c.sender_kind),
    ).len()
    &&& s.domains == t.domains.len()
    &&& s.attachments_flagged == t.messages.filter(|m: MessageRowText| m.has_attachments).len()
    &&& s.sender_contacts == senders(t).len()
    &&& s.recipient_contacts == recipients(t).len()
    &&& s.to_contacts == recipients_of_kind(t, "to"@).len()
    &&& s.cc_contacts == recipients_of_kind(t, "cc"@).len()
    &&& s.bcc_contacts == recipients_of_kind(t, "bcc"@).len()
    &&& is_tally(t.contacts, tally_text(s.kind_counts@))
}

/// How many contacts are filtered, or how many are not.
fn count_filtered(rows: &Rows, filtered: bool) -> (r: i64)
    requires
        sound(rows@),
    ensures
        r == rows@.contacts.filter(
            |c: ContactText| filtered_kind(c.sender_kind) == filtered,
        ).len(),
{
    let ghost t = rows@;
    let ghost p = |c: ContactText| filtered_kind(c.sender_kind) == filtered;
    let mut n: i64 = 0;
    let mut i: usize = 0;
    proof {
        lemma_filter_none(t.contacts, p);
    }
    while i < rows.contacts.len()
        invariant
            t == rows@,
            t.contacts.len() <= ROW_LIMIT,
            p == (|c: ContactText| filtered_kind(c.sender_kind) == filtered),
            0 <= i <= rows.contacts.len(),
            0 <= n <= i,
            n == t.contacts.take(i as int).filter(p).len(),
        decreases rows.contacts.len() - i,
    {
        proof {
            lemma_filter_step(t.contacts, i as int, p);
            assert(t.contacts[i as int] == rows.contacts@[i as int]@);
        }
        if is_filtered_sender_kind(rows.contacts[i].sender_kind.as_str()) == filtered {
            n = n + 1;
        }
        i = i + 1;
    }
    assert(t.contacts.take(i as int) =~= t.contacts);
    n
}

fn count_attachments(rows: &Rows) -> (r: i64)
    requires
        sound(rows@),
    ensures
        r == rows@.messages.filter(|m: MessageRowText| m.has_attachments).len(),
{
    let ghost t = rows@;
    let ghost p = |m: MessageRowText| m.has_attachments;
    let mut n: i64 = 0;
    let mut i: usize = 0;
    proof {
        lemma_filter_none(t.messages, p);
    }
    while i < rows.messages.len()
        invariant
            t == rows@,
            t.messages.len() <= ROW_LIMIT,
            p == (|m: MessageRowText| m.has_attachments),
            0 <= i <= rows.messages.len(),
            0 <= n <= i,
            n == t.messages.take(i as int).filter(p).len(),
        decreases rows.messages.len() - i,
    {
        proof {
            lemma_filter_step(t.messages, i as int, p);
            assert(t.messages[i as int] == rows.messages@[i as int]@);
        }
        if rows.messages[i].has_attachments {
            n = n + 1;
        }
        i = i + 1;
    }
    assert(t.messages.take(i as int) =~= t.messages);
    n
}

fn count_senders(rows: &Rows, owners: &Owners) -> (r: i64)
    requires
        sound(rows@),
        owners.of(rows@),
    ensures
        r == senders(rows@).len(),
{
    let ghost t = rows@;
    let mut ids: Vec<i64> = Vec::new();
    let mut i: usize = 0;
    while i < owners.senders.len()
        invariant
            t == rows@,
            owners.of(t),
            0 <= i <= owners.senders.len(),
            ids@.len() <= i,
            forall|id: i64| #[trigger]
                ids@.contains(id) <==> exists|j: int|
                    0 <= j < i && sender_of(t, #[trigger] t.messages[j]) == Some(id),
        decreases owners.senders.len() - i,
    {
        let ghost before = ids@;
        if let Some(id) = owners.senders[i] {
            ids.push(id);
        }
        proof {
            assert(owners.senders@[i as int] == sender_of(t, t.messages[i as int]));
            assert forall|id: i64| #[trigger] ids@.contains(id) <==> exists|j: int|
                0 <= j < i + 1 && sender_of(t, #[trigger] t.messages[j]) == Some(id) by {
                if let Some(x) = owners.senders@[i as int] {
                    lemma_push_contains(before, x, id);
                }
                if before.contains(id) {
                    let j = choose|j: int|
                        0 <= j < i && sender_of(t, #[trigger] t.messages[j]) == Some(id);
                    assert(sender_of(t, t.messages[j]) == Some(id));
                }
            }
        }
        i = i + 1;
    }
    assert(ids@.to_set() =~= senders(t));
    count_distinct(ids) as i64
}

fn count_recipients(rows: &Rows, owners: &Owners, kind: Option<&str>) -> (r: i64)
    requires
        sound(rows@),
        owners.of(rows@),
    ensures
        r == match kind {
            Some(k) => recipients_of_kind(rows@, k@).len(),
            None => recipients(rows@).len(),
        },
{
    let ghost t = rows@;
    let mut ids: Vec<i64> = Vec::new();
    let mut i: usize = 0;
    while i < owners.recipients.len()
        invariant
            t == rows@,
            owners.of(t),
            0 <= i <= owners.recipients.len(),
            ids@.len() <= i,
            forall|id: i64| #[trigger]
                ids@.contains(id) <==> exists|j: int|
                    0 <= j < i && (kind matches Some(k) ==> (#[trigger] t.recipients[j]).kind == k@)
                        && owner_of(t, t.recipients[j].email) == Some(id),
        decreases owners.recipients.len() - i,
    {
        let ghost before = ids@;
        assert(t.recipients[i as int] == rows.recipients@[i as int]@);
        let fits = match kind {
            Some(k) => same_text(rows.recipients[i].kind.as_str(), k),
            None => true,
        };
        if fits {
            if let Some(id) = owners.recipients[i] {
                ids.push(id);
            }
        }
        proof {
            assert(owners.recipients@[i as int] == owner_of(t, t.recipients[i as int].email));
            assert forall|id: i64| #[trigger] ids@.contains(id) <==> exists|j: int|
                0 <= j < i + 1 && (kind matches Some(k) ==> (#[trigger] t.recipients[j]).kind == k@)
                    && owner_of(t, t.recipients[j].email) == Some(id) by {
                if let Some(x) = owners.recipients@[i as int] {
                    lemma_push_contains(before, x, id);
                }
                if before.contains(id) {
                    let j = choose|j: int|
                        0 <= j < i && (kind matches Some(k) ==> (#[trigger] t.recipients[j]).kind
                            == k@) && owner_of(t, t.recipients[j].email) == Some(id);
                    assert(owner_of(t, t.recipients[j].email) == Some(id));
                }
            }
        }
        i = i + 1;
    }
    proof {
        match kind {
            Some(k) => {
                assert(ids@.to_set() =~= recipients_of_kind(t, k@));
            },
            None => {
                assert(ids@.to_set() =~= recipients(t));
            },
        }
    }
    count_distinct(ids) as i64
}

impl Ranked for (String, i64) {
    open spec fn le(self, other: Self) -> bool {
        counts_before((self.0@, self.1 as int), (other.0@, other.1 as int))
    }

    proof fn total(a: Self, b: Self) {
        lemma_text_total(a.0@, b.0@);
    }

    proof fn transitive(a: Self, b: Self, c: Self) {
        if text_le(a.0@, b.0@) && text_le(b.0@, c.0@) {
            lemma_text_transitive(a.0@, b.0@, c.0@);
        }
    }

    fn is_le(&self, other: &Self) -> (r: bool) {
        if self.1 != other.1 {
            return self.1 > other.1;
        }
        not_after(self.0.as_str(), other.0.as_str())
    }
}

fn count_kind(rows: &Rows, kind: &str) -> (r: i64)
    requires
        sound(rows@),
    ensures
        r == kind_count(rows@.contacts, kind@),
{
    let ghost t = rows@;
    let ghost p = |c: ContactText| c.sender_kind == kind@;
    let mut n: i64 = 0;
    let mut i: usize = 0;
    proof {
        lemma_filter_none(t.contacts, p);
    }
    while i < rows.contacts.len()
        invariant
            t == rows@,
            t.contacts.len() <= ROW_LIMIT,
            p == (|c: ContactText| c.sender_kind == kind@),
            0 <= i <= rows.contacts.len(),
            0 <= n <= i,
            n == t.contacts.take(i as int).filter(p).len(),
        decreases rows.contacts.len() - i,
    {
        proof {
            lemma_filter_step(t.contacts, i as int, p);
            assert(t.contacts[i as int] == rows.contacts@[i as int]@);
        }
        if same_text(rows.contacts[i].sender_kind.as_str(), kind) {
            n = n + 1;
        }
        i = i + 1;
    }
    assert(t.contacts.take(i as int) =~= t.contacts);
    n
}

proof fn lemma_kind_occurs(contacts: Seq<ContactText>, i: int)
    requires
        0 <= i < contacts.len(),
    ensures
        kind_count(contacts, contacts[i].sender_kind) > 0,
{
    let p = |c: ContactText| c.sender_kind == contacts[i].sender_kind;
    contacts.lemma_filter_contains(p, i);
    let f = contacts.filter(p);
    let k = choose|k: int| 0 <= k < f.len() && f[k] == contacts[i];
    assert(0 <= k < f.len());
}

/// The kinds that occur, each with the number of its contacts.
fn tally_kinds(rows: &Rows) -> (r: Vec<(String, i64)>)
    requires
        sound(rows@),
    ensures
        is_tally(rows@.contacts, tally_text(r@)),
{
    broadcast use vstd::seq_lib::group_to_multiset_ensures;

    let ghost t = rows@;
    let mut names: Vec<String> = Vec::new();
    let mut i: usize = 0;
    while i < rows.contacts.len()
        invariant
            t == rows@,
            0 <= i <= rows.contacts.len(),
            names@.len() == i,
            forall|j: int| 0 <= j < i ==> (#[trigger] names@[j])@ == t.contacts[j].sender_kind,
        decreases rows.contacts.len() - i,
    {
        assert(t.contacts[i as int] == rows.contacts@[i as int]@);
        names.push(rows.contacts[i].sender_kind.clone());
        i = i + 1;
    }
    let ghost all = texts(names@);
    assert forall|j: int| 0 <= j < t.contacts.len() implies all[j] == (
    #[trigger] t.contacts[j]).sender_kind by {
        assert(all[j] == names@[j]@);
    }
    let kinds = sort_distinct(names);
    let ghost k = texts(kinds@);
    let mut counts: Vec<(String, i64)> = Vec::new();
    let mut i: usize = 0;
    while i < kinds.len()
        invariant
            t == rows@,
            sound(t),
            k == texts(kinds@),
            0 <= i <= kinds.len(),
            counts@.len() == i,
            forall|j: int|
                0 <= j < i ==> (#[trigger] counts@[j]).0@ == k[j] && counts@[j].1 == kind_count(
                    t.contacts,
                    k[j],
                ),
        decreases kinds.len() - i,
    {
        let n = count_kind(rows, kinds[i].as_str());
        assert(k[i as int] == kinds@[i as int]@);
        counts.push((kinds[i].clone(), n));
        i = i + 1;
    }
    let ghost c = counts@;
    let r = sort(counts);
    proof {
        let list = tally_text(r@);
        assert forall|p: (String, i64)| #[trigger] r@.contains(p) <==> c.contains(p) by {
            assert(r@.contains(p) <==> r@.to_multiset().count(p) > 0);
            assert(c.contains(p) <==> c.to_multiset().count(p) > 0);
        }
        assert forall|i: int| 0 <= i < list.len() implies (#[trigger] list[i]).1 == kind_count(
            t.contacts,
            list[i].0,
        ) && list[i].1 > 0 by {
            assert(r@.contains(r@[i]));
            let j = choose|j: int| 0 <= j < c.len() && c[j] == r@[i];
            assert(c[j].0@ == k[j]);
            assert(k.contains(k[j]));
            assert(all.contains(k[j]));
            let m = choose|m: int| 0 <= m < all.len() && all[m] == k[j];
            lemma_kind_occurs(t.contacts, m);
            assert(t.contacts[m].sender_kind == k[j]);
        }
        assert forall|i: int| 0 <= i < t.contacts.len() implies has_kind(
            list,
            (#[trigger] t.contacts[i]).sender_kind,
        ) by {
            let x = t.contacts[i].sender_kind;
            assert(all[i] == x);
            assert(all.contains(x));
            assert(k.contains(x));
            let j = choose|j: int| 0 <= j < k.len() && k[j] == x;
            assert(c[j].0@ == x);
            assert(c.contains(c[j]));
            assert(r@.contains(c[j]));
            let m = choose|m: int| 0 <= m < r@.len() && r@[m] == c[j];
            assert(list[m].0 == x);
        }
        let names = c.map_values(|p: (String, i64)| p.0@);
        assert(names =~= k);
        let sorted_names = r@.map_values(|p: (String, i64)| p.0@);
        lemma_map_multiset(r@, c, |p: (String, i64)| p.0@);
        assert(k.no_duplicates());
        k.lemma_multiset_has_no_duplicates();
        sorted_names.lemma_multiset_has_no_duplicates_conv();
        assert forall|i: int, j: int| 0 <= i < j < list.len() implies (#[trigger] list[i]).0 != (
        #[trigger] list[j]).0 && counts_before(list[i], list[j]) by {
            assert(sorted_names[i] != sorted_names[j]);
            assert(r@[i].le(r@[j]));
        }
    }
    r
}

/// The numbers about rows.
pub fn count_rows(rows: &Rows) -> (r: Stats)
    requires
        sound(rows@),
    ensures
        stats_of(rows@, r),
{
    let owners = find_owners(rows);
    let r = Stats {
        scans: rows.scans.len() as i64,
        messages: rows.messages.len() as i64,
        contacts: rows.contacts.len() as i64,
        valid_contacts: count_filtered(rows, false),
        filtered_contacts: count_filtered(rows, true),
        domains: rows.domains.len() as i64,
        attachments_flagged: count_attachments(rows),
        sender_contacts: count_senders(rows, &owners),
        recipient_contacts: count_recipients(rows, &owners, None),
        to_contacts: count_recipients(rows, &owners, Some("to")),
        cc_contacts: count_recipients(rows, &owners, Some("cc")),
        bcc_contacts: count_recipients(rows, &owners, Some("bcc")),
        kind_counts: tally_kinds(rows),
    };
    proof {
        let a = |c: ContactText| !filtered_kind(c.sender_kind);
        let b = |c: ContactText| filtered_kind(c.sender_kind) == false;
        assert(a =~= b);
        let a = |c: ContactText| filtered_kind(c.sender_kind);
        let b = |c: ContactText| filtered_kind(c.sender_kind) == true;
        assert(a =~= b);
    }
    r
}

// ---------------------------------------------------------------------------------------
// Laws
// ---------------------------------------------------------------------------------------

/// Every contact is either valid or filtered.
pub proof fn law_valid_and_filtered_add_up(t: Tables, s: Stats)
    requires
        stats_of(t, s),
    ensures
        s.valid_contacts + s.filtered_contacts == s.contacts,
{
    lemma_split_counts(t.contacts);
}

proof fn lemma_split_counts(c: Seq<ContactText>)
    ensures
        c.filter(|c: ContactText| !filtered_kind(c.sender_kind)).len() + c.filter(
            |c: ContactText| filtered_kind(c.sender_kind),
        ).len() == c.len(),
    decreases c.len(),
{
    reveal(Seq::filter);
    if c.len() > 0 {
        lemma_split_counts(c.drop_last());
    }
}

/// The sum of the numbers in a tally.
pub open spec fn tally_sum(list: Seq<(Seq<char>, int)>) -> int
    decreases list.len(),
{
    if list.len() == 0 {
        0
    } else {
        tally_sum(list.drop_last()) + list.last().1
    }
}

/// The kinds add up to all contacts.
pub proof fn law_kinds_add_up(t: Tables, s: Stats)
    requires
        stats_of(t, s),
    ensures
        tally_sum(tally_text(s.kind_counts@)) == s.contacts,
{
    let list = tally_text(s.kind_counts@);
    lemma_tally_sum(list, t.contacts, t.contacts.len() as int);
    assert(t.contacts.take(t.contacts.len() as int) =~= t.contacts);
    lemma_same_sum(list, t.contacts);
}

/// The sum of how often the kinds of a list occur.
spec fn occurrences(list: Seq<(Seq<char>, int)>, contacts: Seq<ContactText>) -> int
    decreases list.len(),
{
    if list.len() == 0 {
        0
    } else {
        occurrences(list.drop_last(), contacts) + kind_count(contacts, list.last().0)
    }
}

proof fn lemma_same_sum(list: Seq<(Seq<char>, int)>, contacts: Seq<ContactText>)
    requires
        forall|i: int|
            0 <= i < list.len() ==> (#[trigger] list[i]).1 == kind_count(contacts, list[i].0),
    ensures
        tally_sum(list) == occurrences(list, contacts),
    decreases list.len(),
{
    if list.len() > 0 {
        let d = list.drop_last();
        assert forall|i: int| 0 <= i < d.len() implies (#[trigger] d[i]).1 == kind_count(
            contacts,
            d[i].0,
        ) by {
            assert(d[i] == list[i]);
        }
        lemma_same_sum(d, contacts);
        assert(list[list.len() - 1].1 == kind_count(contacts, list.last().0));
    }
}

/// One more contact raises the sum by how often its kind is listed.
proof fn lemma_one_more(list: Seq<(Seq<char>, int)>, contacts: Seq<ContactText>, c: ContactText)
    requires
        forall|i: int, j: int|
            0 <= i < j < list.len() ==> (#[trigger] list[i]).0 != (#[trigger] list[j]).0,
    ensures
        occurrences(list, contacts.push(c)) == occurrences(list, contacts) + (if has_kind(
            list,
            c.sender_kind,
        ) {
            1int
        } else {
            0
        }),
    decreases list.len(),
{
    if list.len() > 0 {
        let d = list.drop_last();
        let x = list.last().0;
        lemma_one_more(d, contacts, c);
        reveal(Seq::filter);
        assert(contacts.push(c).drop_last() =~= contacts);
        if has_kind(d, c.sender_kind) {
            let i = choose|i: int| 0 <= i < d.len() && (#[trigger] d[i]).0 == c.sender_kind;
            assert(list[i].0 == c.sender_kind);
            assert(list[i].0 != list[list.len() - 1].0);
        } else if has_kind(list, c.sender_kind) {
            let i = choose|i: int| 0 <= i < list.len() && (#[trigger] list[i]).0 == c.sender_kind;
            if i < d.len() {
                assert(d[i].0 == c.sender_kind);
            }
        } else {
            assert(list[list.len() - 1].0 != c.sender_kind);
        }
        if x == c.sender_kind {
            assert(list[list.len() - 1].0 == c.sender_kind);
        }
    }
}

proof fn lemma_tally_sum(list: Seq<(Seq<char>, int)>, contacts: Seq<ContactText>, n: int)
    requires
        0 <= n <= contacts.len(),
        is_tally(contacts, list),
    ensures
        occurrences(list, contacts.take(n)) == n,
    decreases n,
{
    if n == 0 {
        lemma_no_occurrences(list, contacts.take(0));
    } else {
        lemma_tally_sum(list, contacts, n - 1);
        assert(contacts.take(n) =~= contacts.take(n - 1).push(contacts[n - 1]));
        lemma_one_more(list, contacts.take(n - 1), contacts[n - 1]);
        assert(has_kind(list, contacts[n - 1].sender_kind));
    }
}

proof fn lemma_no_occurrences(list: Seq<(Seq<char>, int)>, contacts: Seq<ContactText>)
    requires
        contacts.len() == 0,
    ensures
        occurrences(list, contacts) == 0,
    decreases list.len(),
{
    if list.len() > 0 {
        lemma_no_occurrences(list.drop_last(), contacts);
        reveal(Seq::filter);
    }
}

/// The contacts by their ids.
spec fn contact_ids(t: Tables) -> Set<i64> {
    t.contacts.map_values(|c: ContactText| c.id).to_set()
}

proof fn lemma_contact_ids(t: Tables)
    requires
        sound(t),
    ensures
        contact_ids(t).finite(),
        contact_ids(t).len() == t.contacts.len(),
        forall|e: Seq<char>|
            (#[trigger] owner_of(t, e)) is Some ==> contact_ids(t).contains(owner_of(t, e)->0),
{
    let ids = t.contacts.map_values(|c: ContactText| c.id);
    assert forall|i: int, j: int| 0 <= i < ids.len() && 0 <= j < ids.len() && i != j implies ids[i]
        != ids[j] by {
        if i < j {
            assert(t.contacts[i].id < t.contacts[j].id);
        } else {
            assert(t.contacts[j].id < t.contacts[i].id);
        }
    }
    ids.unique_seq_to_set();
    vstd::seq_lib::seq_to_set_is_finite(ids);
    assert forall|e: Seq<char>| (#[trigger] owner_of(t, e)) is Some implies contact_ids(t).contains(
        owner_of(t, e)->0,
    ) by {
        let k = choose|k: int| 0 <= k < t.addresses.len() && (#[trigger] t.addresses[k]).email == e;
        assert(has_contact(t.contacts, t.addresses[k].contact_id));
        let i = choose|i: int|
            0 <= i < t.contacts.len() && (#[trigger] t.contacts[i]).id == t.addresses[k].contact_id;
        assert(ids[i] == owner_of(t, e)->0);
    }
}

/// No number is higher than it can be: senders and recipients are contacts, who got a message in
/// a part is a recipient, and messages with attachments are messages. As long as indexing alone
/// wrote the rows, each recipient got a message in one of the three parts.
pub proof fn law_numbers_are_bounded(t: Tables, s: Stats)
    requires
        sound(t),
        stats_of(t, s),
    ensures
        s.sender_contacts <= s.contacts,
        s.recipient_contacts <= s.contacts,
        s.to_contacts <= s.recipient_contacts,
        s.cc_contacts <= s.recipient_contacts,
        s.bcc_contacts <= s.recipient_contacts,
        s.attachments_flagged <= s.messages,
        own_rows(t) ==> s.recipient_contacts <= s.to_contacts + s.cc_contacts + s.bcc_contacts,
{
    lemma_contact_ids(t);
    let all = contact_ids(t);
    assert forall|id: i64| senders(t).contains(id) implies all.contains(id) by {
        let i = choose|i: int|
            0 <= i < t.messages.len() && sender_of(t, #[trigger] t.messages[i]) == Some(id);
        assert(owner_of(t, t.messages[i].sender_email->0) == Some(id));
    }
    assert forall|id: i64| recipients(t).contains(id) implies all.contains(id) by {
        let i = choose|i: int|
            0 <= i < t.recipients.len() && owner_of(t, (#[trigger] t.recipients[i]).email) == Some(
                id,
            );
        assert(owner_of(t, t.recipients[i].email) == Some(id));
    }
    vstd::set_lib::lemma_len_subset(senders(t), all);
    vstd::set_lib::lemma_len_subset(recipients(t), all);
    let to = recipients_of_kind(t, "to"@);
    let cc = recipients_of_kind(t, "cc"@);
    let bcc = recipients_of_kind(t, "bcc"@);
    law_parts_are_recipients(t, "to"@);
    law_parts_are_recipients(t, "cc"@);
    law_parts_are_recipients(t, "bcc"@);
    vstd::set_lib::lemma_len_subset(to, recipients(t));
    vstd::set_lib::lemma_len_subset(cc, recipients(t));
    vstd::set_lib::lemma_len_subset(bcc, recipients(t));
    t.messages.lemma_filter_len(|m: MessageRowText| m.has_attachments);
    if own_rows(t) {
        let parts = to.union(cc).union(bcc);
        assert forall|id: i64| recipients(t).contains(id) implies parts.contains(id) by {
            let i = choose|i: int|
                0 <= i < t.recipients.len() && owner_of(t, (#[trigger] t.recipients[i]).email)
                    == Some(id);
            assert(is_part(t.recipients[i].kind));
            assert(recipients_of_kind(t, t.recipients[i].kind).contains(id));
        }
        vstd::set_lib::lemma_len_union(to, cc);
        vstd::set_lib::lemma_len_union(to.union(cc), bcc);
        vstd::set_lib::lemma_len_subset(recipients(t), parts);
    }
}

/// Who got a message in some part is among the recipients.
pub proof fn law_parts_are_recipients(t: Tables, kind: Seq<char>)
    ensures
        recipients_of_kind(t, kind).subset_of(recipients(t)),
{
    assert forall|id: i64| recipients_of_kind(t, kind).contains(id) implies recipients(t).contains(
        id,
    ) by {
        let i = choose|i: int|
            0 <= i < t.recipients.len() && (#[trigger] t.recipients[i]).kind == kind && owner_of(
                t,
                t.recipients[i].email,
            ) == Some(id);
        assert(owner_of(t, t.recipients[i].email) == Some(id));
    }
}

} // verus!
