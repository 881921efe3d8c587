//! Who is who in an archive: the activity of each contact, and the contacts that a query asks
//! for, those with the most real conversations first.
use vstd::prelude::*;
use vstd::hash_map::StringHashMap;

use crate::archive::either;
use crate::db::Rows;
use crate::lists::{lemma_filter_none, lemma_filter_step, lemma_map_multiset, lemma_push_contains};
use crate::pieces::{contains_any, has_any, is_one_of, split, split_on};
use crate::sort::{
    lemma_text_antisymmetric, lemma_text_total, lemma_text_transitive, not_after, sort,
    sort_distinct, text_le, Ranked,
};
use crate::tables::{
    contact_of, has_address, has_contact, has_message, sound, AddressRowText, ContactText,
    MessageRow, MessageRowText, RecipientText, Tables, ROW_LIMIT,
};
use crate::text::{opt_text, same_text, texts};

verus! {

// ---------------------------------------------------------------------------------------
// Activity
// ---------------------------------------------------------------------------------------

/// The contact that an address belongs to.
pub open spec fn owner_of(t: Tables, email: Seq<char>) -> Option<i64> {
    if has_address(t, email) {
        Some(contact_of(t, email))
    } else {
        None
    }
}

/// The contact that sent a message.
pub open spec fn sender_of(t: Tables, m: MessageRowText) -> Option<i64> {
    match m.sender_email {
        Some(e) => owner_of(t, e),
        None => None,
    }
}

/// How many messages a contact sent.
pub open spec fn sent_count(t: Tables, id: i64) -> nat {
    t.messages.filter(|m: MessageRowText| sender_of(t, m) == Some(id)).len()
}

/// How many messages a contact got as a recipient of a kind.
pub open spec fn received_count(t: Tables, id: i64, kind: Seq<char>) -> nat {
    t.recipients.filter(
        |r: RecipientText| r.kind == kind && owner_of(t, r.email) == Some(id),
    ).len()
}

/// What tells the conversation of a message: its conversation id, or else its subject, or else
/// its message id, or else where it comes from.
pub open spec fn conversation_key(m: MessageRowText) -> Option<Seq<char>> {
    either(
        m.conversation_id,
        either(m.subject, either(m.internet_message_id, m.source_id)),
    )
}

/// Whether a contact is among the recipients of a message.
pub open spec fn got(t: Tables, m: MessageRowText, id: i64) -> bool {
    exists|i: int|
        0 <= i < t.recipients.len() && (#[trigger] t.recipients[i]).message_id == m.id && owner_of(
            t,
            t.recipients[i].email,
        ) == Some(id)
}

/// Whether a contact sent or got a message.
pub open spec fn takes_part(t: Tables, m: MessageRowText, id: i64) -> bool {
    sender_of(t, m) == Some(id) || got(t, m, id)
}

/// The conversations that a contact takes part in.
pub open spec fn conversations(t: Tables, id: i64) -> Set<Seq<char>> {
    Set::new(
        |k: Seq<char>|
            exists|i: int|
                0 <= i < t.messages.len() && takes_part(t, #[trigger] t.messages[i], id)
                    && conversation_key(t.messages[i]) == Some(k),
    )
}

/// Whether a contact takes part in any message.
pub open spec fn is_active(t: Tables, id: i64) -> bool {
    exists|i: int| 0 <= i < t.messages.len() && takes_part(t, #[trigger] t.messages[i], id)
}

/// The kinds that are not shown unless they are asked for.
pub open spec fn machine_kind(kind: Seq<char>) -> bool {
    ||| kind == "no_reply"@
    ||| kind == "bulk"@
    ||| kind == "newsletter"@
    ||| kind == "promotional"@
    ||| kind == "automated"@
}

/// The score of a contact: each message and above all each conversation counts, mail in both
/// directions counts extra, and what is not a person falls far behind.
pub open spec fn rank_score(
    kind: Seq<char>,
    sent: int,
    direct: int,
    cc: int,
    bcc: int,
    conversations: int,
) -> int {
    sent * 4 + direct * 3 + cc * 2 + bcc + conversations * 6 + (if sent > 0 && direct > 0 {
        12int
    } else {
        0
    }) - (if machine_kind(kind) {
        1000int
    } else {
        0
    })
}

/// What is told of a contact.
#[derive(Debug, PartialEq, Eq)]
pub struct ContactSummary {
    pub display_name: Option<String>,
    pub email: String,
    pub domain: String,
    pub sender_kind: String,
    pub message_count: i64,
    pub sent_count: i64,
    pub direct_count: i64,
    pub cc_count: i64,
    pub bcc_count: i64,
    pub conversation_count: i64,
    pub rank_score: i64,
}

/// The texts and numbers of a contact.
pub ghost struct SummaryText {
    pub display_name: Option<Seq<char>>,
    pub email: Seq<char>,
    pub domain: Seq<char>,
    pub sender_kind: Seq<char>,
    pub message_count: int,
    pub sent_count: int,
    pub direct_count: int,
    pub cc_count: int,
    pub bcc_count: int,
    pub conversation_count: int,
    pub rank_score: int,
}

impl View for ContactSummary {
    type V = SummaryText;

    open spec fn view(&self) -> SummaryText {
        SummaryText {
            display_name: opt_text(self.display_name),
            email: self.email@,
            domain: self.domain@,
            sender_kind: self.sender_kind@,
            message_count: self.message_count as int,
            sent_count: self.sent_count as int,
            direct_count: self.direct_count as int,
            cc_count: self.cc_count as int,
            bcc_count: self.bcc_count as int,
            conversation_count: self.conversation_count as int,
            rank_score: self.rank_score as int,
        }
    }
}

/// The texts and numbers of contacts.
pub open spec fn summaries(v: Seq<ContactSummary>) -> Seq<SummaryText> {
    v.map_values(|c: ContactSummary| c@)
}

/// A contact, and whether it takes part in any message.
pub ghost struct Standing {
    pub contact: SummaryText,
    pub active: bool,
}

/// The contact with the id.
pub open spec fn contact_with(t: Tables, id: i64) -> ContactText {
    t.contacts[choose|i: int| 0 <= i < t.contacts.len() && (#[trigger] t.contacts[i]).id == id]
}

/// The contact of an address, as it stands.
pub open spec fn standing(t: Tables, a: AddressRowText) -> Standing {
    let c = contact_with(t, a.contact_id);
    let sent = sent_count(t, c.id) as int;
    let direct = received_count(t, c.id, "to"@) as int;
    let cc = received_count(t, c.id, "cc"@) as int;
    let bcc = received_count(t, c.id, "bcc"@) as int;
    let talks = conversations(t, c.id).len() as int;
    Standing {
        contact: SummaryText {
            display_name: c.display_name,
            email: a.email,
            domain: a.domain,
            sender_kind: c.sender_kind,
            message_count: c.message_count as int,
            sent_count: sent,
            direct_count: direct,
            cc_count: cc,
            bcc_count: bcc,
            conversation_count: talks,
            rank_score: rank_score(c.sender_kind, sent, direct, cc, bcc, talks),
        },
        active: is_active(t, c.id),
    }
}

/// Every contact by each of its addresses.
pub open spec fn standings(t: Tables) -> Seq<Standing> {
    t.addresses.map_values(|a: AddressRowText| standing(t, a))
}

// ---------------------------------------------------------------------------------------
// Queries
// ---------------------------------------------------------------------------------------

/// Which contacts are asked for. Lists are written with commas between their terms.
#[derive(Debug, PartialEq, Eq)]
pub struct ContactQuery {
    /// The most contacts to list; no limit if it is negative.
    pub limit: i64,
    /// Whether to list what is not a person too.
    pub include_filtered: bool,
    /// The kind to list.
    pub kind: Option<String>,
    /// The kinds to leave out.
    pub exclude_kinds: Option<String>,
    /// The domain to list.
    pub domain: Option<String>,
    /// The role to list: `sender`, `recipient`, `to`, `cc` or `bcc`.
    pub role: Option<String>,
    /// Terms of which a domain has to contain one.
    pub domain_contains: Option<String>,
    /// The addresses to leave out.
    pub exclude_emails: Option<String>,
    /// Terms of which an address must contain none.
    pub exclude_email_contains: Option<String>,
    /// The domains to leave out.
    pub exclude_domains: Option<String>,
    /// Terms of which a domain must contain none.
    pub exclude_domain_contains: Option<String>,
}

/// The texts of a query.
pub ghost struct QueryText {
    pub limit: i64,
    pub include_filtered: bool,
    pub kind: Option<Seq<char>>,
    pub exclude_kinds: Option<Seq<char>>,
    pub domain: Option<Seq<char>>,
    pub role: Option<Seq<char>>,
    pub domain_contains: Option<Seq<char>>,
    pub exclude_emails: Option<Seq<char>>,
    pub exclude_email_contains: Option<Seq<char>>,
    pub exclude_domains: Option<Seq<char>>,
    pub exclude_domain_contains: Option<Seq<char>>,
}

impl View for ContactQuery {
    type V = QueryText;

    open spec fn view(&self) -> QueryText {
        QueryText {
            limit: self.limit,
            include_filtered: self.include_filtered,
            kind: opt_text(self.kind),
            exclude_kinds: opt_text(self.exclude_kinds),
            domain: opt_text(self.domain),
            role: opt_text(self.role),
            domain_contains: opt_text(self.domain_contains),
            exclude_emails: opt_text(self.exclude_emails),
            exclude_email_contains: opt_text(self.exclude_email_contains),
            exclude_domains: opt_text(self.exclude_domains),
            exclude_domain_contains: opt_text(self.exclude_domain_contains),
        }
    }
}

/// A query for everyone who is a person, up to a limit.
pub open spec fn plain_query(limit: i64) -> QueryText {
    QueryText {
        limit,
        include_filtered: false,
        kind: None,
        exclude_kinds: None,
        domain: None,
        role: None,
        domain_contains: None,
        exclude_emails: None,
        exclude_email_contains: None,
        exclude_domains: None,
        exclude_domain_contains: None,
    }
}

impl ContactQuery {
    /// A query for everyone who is a person, up to a limit.
    pub fn new(limit: i64) -> (r: ContactQuery)
        ensures
            r@ == plain_query(limit),
    {
        ContactQuery {
            limit,
            include_filtered: false,
            kind: None,
            exclude_kinds: None,
            domain: None,
            role: None,
            domain_contains: None,
            exclude_emails: None,
            exclude_email_contains: None,
            exclude_domains: None,
            exclude_domain_contains: None,
        }
    }
}

impl Clone for ContactQuery {
    fn clone(&self) -> (r: ContactQuery)
        ensures
            r@ == self@,
    {
        ContactQuery {
            limit: self.limit,
            include_filtered: self.include_filtered,
            kind: self.kind.clone(),
            exclude_kinds: self.exclude_kinds.clone(),
            domain: self.domain.clone(),
            role: self.role.clone(),
            domain_contains: self.domain_contains.clone(),
            exclude_emails: self.exclude_emails.clone(),
            exclude_email_contains: self.exclude_email_contains.clone(),
            exclude_domains: self.exclude_domains.clone(),
            exclude_domain_contains: self.exclude_domain_contains.clone(),
        }
    }
}

/// Whether a text is one of the terms of a list.
pub open spec fn lists_text(list: Option<Seq<char>>, x: Seq<char>) -> bool {
    match list {
        Some(l) => split_on(l, ',').contains(x),
        None => false,
    }
}

/// Whether a text contains one of the terms of a list.
pub open spec fn mentions_term(list: Option<Seq<char>>, x: Seq<char>) -> bool {
    match list {
        Some(l) => has_any(x, split_on(l, ',')),
        None => false,
    }
}

/// Whether a contact was seen in a role.
pub open spec fn has_role(role: Seq<char>, c: SummaryText) -> bool {
    ||| role == "sender"@ && c.sent_count > 0
    ||| role == "to"@ && c.direct_count > 0
    ||| role == "cc"@ && c.cc_count > 0
    ||| role == "bcc"@ && c.bcc_count > 0
    ||| role == "recipient"@ && c.direct_count + c.cc_count + c.bcc_count > 0
}

/// Whether a query asks for a contact.
pub open spec fn asks_for(q: QueryText, c: SummaryText) -> bool {
    &&& q.include_filtered || !machine_kind(c.sender_kind)
    &&& q.kind is Some ==> q.kind == Some(c.sender_kind)
    &&& !lists_text(q.exclude_kinds, c.sender_kind)
    &&& q.domain is Some ==> q.domain == Some(c.domain)
    &&& q.domain_contains is Some ==> mentions_term(q.domain_contains, c.domain)
    &&& q.role matches Some(role) ==> has_role(role, c)
    &&& !lists_text(q.exclude_emails, c.email)
    &&& !mentions_term(q.exclude_email_contains, c.email)
    &&& !lists_text(q.exclude_domains, c.domain)
    &&& !mentions_term(q.exclude_domain_contains, c.domain)
}

/// The contacts that a query asks for.
pub open spec fn matching(t: Tables, q: QueryText) -> Seq<Standing> {
    standings(t).filter(|s: Standing| asks_for(q, s.contact))
}

/// The number of conversations for the order: a contact without any activity comes last.
pub open spec fn talk_order(s: Standing) -> int {
    if s.active {
        s.contact.conversation_count
    } else {
        -1
    }
}

/// The order of contacts: by score, then by conversations, then by messages, each from the
/// highest down, and then by address.
pub open spec fn ranks_before(a: Standing, b: Standing) -> bool {
    ||| a.contact.rank_score > b.contact.rank_score
    ||| a.contact.rank_score == b.contact.rank_score && (talk_order(a) > talk_order(b)
        || talk_order(a) == talk_order(b) && (a.contact.message_count > b.contact.message_count
        || a.contact.message_count == b.contact.message_count && text_le(
        a.contact.email,
        b.contact.email,
    )))
}

/// Whether contacts stand in their order.
pub open spec fn ranked(s: Seq<Standing>) -> bool {
    forall|i: int, j: int|
        0 <= i < j < s.len() ==> ranks_before(#[trigger] s[i], #[trigger] s[j])
}

/// Whether a list holds the contacts that a query asks for, in their order.
pub open spec fn is_ranking(t: Tables, q: QueryText, all: Seq<Standing>) -> bool {
    all.to_multiset() == matching(t, q).to_multiset() && ranked(all)
}

/// How many of a number of contacts are listed.
pub open spec fn listed_count(limit: i64, n: nat) -> nat {
    if 0 <= limit < n {
        limit as nat
    } else {
        n
    }
}

/// Whether a list answers a query: it holds the first contacts of the ranking.
pub open spec fn is_listing(t: Tables, q: QueryText, list: Seq<SummaryText>) -> bool {
    exists|all: Seq<Standing>| #[trigger]
        is_ranking(t, q, all) && list == all.take(
            listed_count(q.limit, all.len()) as int,
        ).map_values(|s: Standing| s.contact)
}

// ---------------------------------------------------------------------------------------
// Counting
// ---------------------------------------------------------------------------------------

/// Who sent and who got what.
pub(crate) struct Owners {
    pub(crate) senders: Vec<Option<i64>>,
    pub(crate) recipients: Vec<Option<i64>>,
    pub(crate) places: Vec<usize>,
}

impl Owners {
    /// The contact that sent each message, the contact that each recipient is, and the
    /// position of the message of each recipient.
    pub(crate) open spec fn of(&self, t: Tables) -> bool {
        &&& self.senders@.len() == t.messages.len()
        &&& self.recipients@.len() == t.recipients.len()
        &&& self.places@.len() == t.recipients.len()
        &&& forall|i: int|
            0 <= i < t.messages.len() ==> #[trigger] self.senders@[i] == sender_of(t, t.messages[i])
        &&& forall|i: int|
            0 <= i < t.recipients.len() ==> #[trigger] self.recipients@[i] == owner_of(
                t,
                t.recipients[i].email,
            )
        &&& forall|i: int|
            0 <= i < t.recipients.len() ==> (#[trigger] self.places@[i]) < t.messages.len()
                && t.messages[self.places@[i] as int].id == t.recipients[i].message_id
    }
}

/// The contact of each address.
fn address_owners(rows: &Rows) -> (r: StringHashMap<i64>)
    requires
        sound(rows@),
    ensures
        forall|e: Seq<char>| #[trigger] r@.contains_key(e) <==> has_address(rows@, e),
        forall|e: Seq<char>| #[trigger] r@.contains_key(e) ==> r@[e] == contact_of(rows@, e),
{
    let ghost t = rows@;
    let mut r: StringHashMap<i64> = StringHashMap::new();
    let mut i: usize = 0;
    while i < rows.addresses.len()
        invariant
            t == rows@,
            sound(t),
            0 <= i <= rows.addresses.len(),
            forall|e: Seq<char>| #[trigger]
                r@.contains_key(e) <==> exists|j: int|
                    0 <= j < i && (#[trigger] t.addresses[j]).email == e,
            forall|j: int|
                0 <= j < i ==> r@[(#[trigger] t.addresses[j]).email] == t.addresses[j].contact_id,
        decreases rows.addresses.len() - i,
    {
        let ghost before = r@;
        assert(t.addresses[i as int] == rows.addresses@[i as int]@);
        r.insert(rows.addresses[i].email.clone(), rows.addresses[i].contact_id);
        proof {
            let new = t.addresses[i as int].email;
            assert forall|e: Seq<char>| #[trigger] r@.contains_key(e) <==> exists|j: int|
                0 <= j < i + 1 && (#[trigger] t.addresses[j]).email == e by {
                if e == new {
                    assert(t.addresses[i as int].email == e);
                } else if before.contains_key(e) {
                    let j = choose|j: int| 0 <= j < i && (#[trigger] t.addresses[j]).email == e;
                    assert(t.addresses[j].email == e);
                } else if exists|j: int| 0 <= j < i + 1 && (#[trigger] t.addresses[j]).email == e {
                    let j = choose|j: int| 0 <= j < i + 1 && (#[trigger] t.addresses[j]).email == e;
                    assert(j < i);
                }
            }
        }
        i = i + 1;
    }
    proof {
        assert forall|e: Seq<char>| #[trigger] r@.contains_key(e) implies r@[e] == contact_of(
            t,
            e,
        ) by {
            let j = choose|j: int|
                0 <= j < t.addresses.len() && (#[trigger] t.addresses[j]).email == e;
            assert(r@[t.addresses[j].email] == t.addresses[j].contact_id);
        }
    }
    r
}

fn owner_in(owners: &StringHashMap<i64>, email: &str) -> (r: Option<i64>)
    ensures
        r == if owners@.contains_key(email@) {
            Some(owners@[email@])
        } else {
            None
        },
{
    match owners.get(email) {
        Some(id) => Some(*id),
        None => None,
    }
}

fn message_places(rows: &Rows) -> (r: Vec<usize>)
    requires
        sound(rows@),
    ensures
        r@.len() == rows@.recipients.len(),
        forall|i: int|
            0 <= i < rows@.recipients.len() ==> (#[trigger] r@[i]) < rows@.messages.len()
                && rows@.messages[r@[i] as int].id == rows@.recipients[i].message_id,
{
    let ghost t = rows@;
    let mut r: Vec<usize> = Vec::new();
    let mut i: usize = 0;
    let mut p: usize = 0;
    while i < rows.recipients.len()
        invariant
            t == rows@,
            sound(t),
            0 <= i <= rows.recipients.len(),
            0 <= p <= rows.messages.len(),
            i < rows.recipients.len() ==> forall|k: int|
                0 <= k < p ==> (#[trigger] t.messages[k]).id < t.recipients[i as int].message_id,
            r@.len() == i,
            forall|k: int|
                0 <= k < i ==> (#[trigger] r@[k]) < t.messages.len() && t.messages[r@[k] as int].id
                    == t.recipients[k].message_id,
        decreases rows.recipients.len() - i,
    {
        let id = rows.recipients[i].message_id;
        assert(t.recipients[i as int].message_id == id);
        let ghost k = choose|k: int|
            0 <= k < t.messages.len() && (#[trigger] t.messages[k]).id == id;
        assert(has_message(t.messages, t.recipients[i as int].message_id));
        while rows.messages[p].id < id
            invariant
                t == rows@,
                sound(t),
                0 <= p <= k < rows.messages.len(),
                t.messages[k].id == id,
                forall|k: int| 0 <= k < p ==> (#[trigger] t.messages[k]).id < id,
            decreases k - p,
        {
            assert(t.messages[p as int] == rows.messages@[p as int]@);
            p = p + 1;
        }
        assert(t.messages[p as int] == rows.messages@[p as int]@);
        proof {
            if p < k {
                assert(t.messages[p as int].id < t.messages[k].id);
            }
            if i + 1 < rows.recipients.len() {
                assert(t.recipients[i as int].message_id <= t.recipients[i + 1].message_id);
            }
        }
        r.push(p);
        i = i + 1;
    }
    r
}

/// Finds out who sent and who got what.
pub(crate) fn find_owners(rows: &Rows) -> (r: Owners)
    requires
        sound(rows@),
    ensures
        r.of(rows@),
{
    let ghost t = rows@;
    let owners = address_owners(rows);
    let mut senders: Vec<Option<i64>> = Vec::new();
    let mut i: usize = 0;
    while i < rows.messages.len()
        invariant
            t == rows@,
            0 <= i <= rows.messages.len(),
            forall|e: Seq<char>| #[trigger] owners@.contains_key(e) <==> has_address(t, e),
            forall|e: Seq<char>| #[trigger]
                owners@.contains_key(e) ==> owners@[e] == contact_of(t, e),
            senders@.len() == i,
            forall|k: int| 0 <= k < i ==> #[trigger] senders@[k] == sender_of(t, t.messages[k]),
        decreases rows.messages.len() - i,
    {
        assert(t.messages[i as int] == rows.messages@[i as int]@);
        let owner = match &rows.messages[i].sender_email {
            Some(e) => owner_in(&owners, e.as_str()),
            None => None,
        };
        senders.push(owner);
        i = i + 1;
    }
    let mut recipients: Vec<Option<i64>> = Vec::new();
    let mut i: usize = 0;
    while i < rows.recipients.len()
        invariant
            t == rows@,
            0 <= i <= rows.recipients.len(),
            forall|e: Seq<char>| #[trigger] owners@.contains_key(e) <==> has_address(t, e),
            forall|e: Seq<char>| #[trigger]
                owners@.contains_key(e) ==> owners@[e] == contact_of(t, e),
            recipients@.len() == i,
            forall|k: int|
                0 <= k < i ==> #[trigger] recipients@[k] == owner_of(t, t.recipients[k].email),
        decreases rows.recipients.len() - i,
    {
        assert(t.recipients[i as int] == rows.recipients@[i as int]@);
        recipients.push(owner_in(&owners, rows.recipients[i].email.as_str()));
        i = i + 1;
    }
    Owners { senders, recipients, places: message_places(rows) }
}

fn count_sent(rows: &Rows, owners: &Owners, id: i64) -> (r: i64)
    requires
        sound(rows@),
        owners.of(rows@),
    ensures
        r == sent_count(rows@, id),
        0 <= r <= ROW_LIMIT,
{
    let ghost t = rows@;
    let ghost p = |m: MessageRowText| sender_of(t, m) == Some(id);
    let mut n: i64 = 0;
    let mut i: usize = 0;
    proof {
        lemma_filter_none(t.messages, p);
    }
    while i < owners.senders.len()
        invariant
            owners.of(t),
            t.messages.len() <= ROW_LIMIT,
            p == (|m: MessageRowText| sender_of(t, m) == Some(id)),
            0 <= i <= owners.senders.len(),
            0 <= n <= i,
            n == t.messages.take(i as int).filter(p).len(),
        decreases owners.senders.len() - i,
    {
        proof {
            lemma_filter_step(t.messages, i as int, p);
        }
        if owners.senders[i] == Some(id) {
            n = n + 1;
        }
        i = i + 1;
    }
    assert(t.messages.take(i as int) =~= t.messages);
    n
}

fn count_received(rows: &Rows, owners: &Owners, id: i64, kind: &str) -> (r: i64)
    requires
        sound(rows@),
        owners.of(rows@),
    ensures
        r == received_count(rows@, id, kind@),
        0 <= r <= ROW_LIMIT,
{
    let ghost t = rows@;
    let ghost p = |r: RecipientText| r.kind == kind@ && owner_of(t, r.email) == Some(id);
    let mut n: i64 = 0;
    let mut i: usize = 0;
    proof {
        lemma_filter_none(t.recipients, p);
    }
    while i < owners.recipients.len()
        invariant
            t == rows@,
            owners.of(t),
            t.recipients.len() <= ROW_LIMIT,
            p == (|r: RecipientText| r.kind == kind@ && owner_of(t, r.email) == Some(id)),
            0 <= i <= owners.recipients.len(),
            0 <= n <= i,
            n == t.recipients.take(i as int).filter(p).len(),
        decreases owners.recipients.len() - i,
    {
        proof {
            lemma_filter_step(t.recipients, i as int, p);
            assert(t.recipients[i as int] == rows.recipients@[i as int]@);
        }
        if owners.recipients[i] == Some(id) && same_text(rows.recipients[i].kind.as_str(), kind) {
            n = n + 1;
        }
        i = i + 1;
    }
    assert(t.recipients.take(i as int) =~= t.recipients);
    n
}

/// The conversation of a message.
fn key_of(m: &MessageRow) -> (r: Option<String>)
    ensures
        opt_text(r) == conversation_key(m@),
{
    if m.conversation_id.is_some() {
        m.conversation_id.clone()
    } else if m.subject.is_some() {
        m.subject.clone()
    } else if m.internet_message_id.is_some() {
        m.internet_message_id.clone()
    } else {
        m.source_id.clone()
    }
}

spec fn sent_key(t: Tables, id: i64, n: int, k: Seq<char>) -> bool {
    exists|j: int|
        0 <= j < n && sender_of(t, #[trigger] t.messages[j]) == Some(id) && conversation_key(
            t.messages[j],
        ) == Some(k)
}

spec fn got_key(t: Tables, places: Seq<usize>, id: i64, n: int, k: Seq<char>) -> bool {
    exists|j: int|
        0 <= j < n && owner_of(t, (#[trigger] t.recipients[j]).email) == Some(id)
            && conversation_key(t.messages[places[j] as int]) == Some(k)
}

fn add_key(keys: &mut Vec<String>, m: &MessageRow)
    ensures
        final(keys)@.len() <= old(keys)@.len() + 1,
        forall|k: Seq<char>| #[trigger]
            texts(final(keys)@).contains(k) <==> texts(old(keys)@).contains(k) || conversation_key(
                m@,
            ) == Some(k),
{
    let ghost before = texts(keys@);
    if let Some(key) = key_of(m) {
        let ghost x = key@;
        keys.push(key);
        proof {
            assert(texts(keys@) =~= before.push(x));
            assert forall|k: Seq<char>| #[trigger] texts(keys@).contains(k) <==> before.contains(k)
                || Some(x) == Some(k) by {
                lemma_push_contains(before, x, k);
            }
        }
    }
}

/// How many conversations a contact takes part in, and whether it takes part in any message.
fn count_conversations(rows: &Rows, owners: &Owners, id: i64) -> (r: (i64, bool))
    requires
        sound(rows@),
        owners.of(rows@),
    ensures
        r.0 == conversations(rows@, id).len(),
        0 <= r.0 <= 2 * ROW_LIMIT,
        r.1 == is_active(rows@, id),
{
    let ghost t = rows@;
    let mut active: bool = false;
    let mut keys: Vec<String> = Vec::new();
    let mut i: usize = 0;
    while i < rows.messages.len()
        invariant
            t == rows@,
            owners.of(t),
            0 <= i <= rows.messages.len(),
            keys@.len() <= i,
            active <==> exists|j: int|
                0 <= j < i && sender_of(t, #[trigger] t.messages[j]) == Some(id),
            forall|k: Seq<char>| #[trigger]
                texts(keys@).contains(k) <==> sent_key(t, id, i as int, k),
        decreases rows.messages.len() - i,
    {
        let ghost before = texts(keys@);
        let ghost m = t.messages[i as int];
        assert(m == rows.messages@[i as int]@);
        if owners.senders[i] == Some(id) {
            assert(sender_of(t, t.messages[i as int]) == Some(id));
            active = true;
            add_key(&mut keys, &rows.messages[i]);
        }
        proof {
            assert forall|k: Seq<char>| #[trigger] texts(keys@).contains(k) <==> sent_key(
                t,
                id,
                i + 1,
                k,
            ) by {
                if sent_key(t, id, i + 1, k) && !sent_key(t, id, i as int, k) {
                    let j = choose|j: int|
                        0 <= j < i + 1 && sender_of(t, #[trigger] t.messages[j]) == Some(id)
                            && conversation_key(t.messages[j]) == Some(k);
                    assert(j == i);
                }
                if sent_key(t, id, i as int, k) {
                    let j = choose|j: int|
                        0 <= j < i && sender_of(t, #[trigger] t.messages[j]) == Some(id)
                            && conversation_key(t.messages[j]) == Some(k);
                    assert(sender_of(t, t.messages[j]) == Some(id));
                    assert(before.contains(k));
                }
            }
        }
        i = i + 1;
    }
    let ghost all = t.messages.len() as int;
    let ghost places = owners.places@;
    let ghost sent = active;
    let mut i: usize = 0;
    while i < rows.recipients.len()
        invariant
            t == rows@,
            owners.of(t),
            all == t.messages.len(),
            places == owners.places@,
            0 <= i <= rows.recipients.len(),
            keys@.len() <= all + i,
            active <==> sent || exists|j: int|
                0 <= j < i && owner_of(t, (#[trigger] t.recipients[j]).email) == Some(id),
            forall|k: Seq<char>| #[trigger]
                texts(keys@).contains(k) <==> sent_key(t, id, all, k) || got_key(
                    t,
                    places,
                    id,
                    i as int,
                    k,
                ),
        decreases rows.recipients.len() - i,
    {
        let ghost before = texts(keys@);
        if owners.recipients[i] == Some(id) {
            assert(owner_of(t, t.recipients[i as int].email) == Some(id));
            active = true;
            let p = owners.places[i];
            assert(t.messages[p as int] == rows.messages@[p as int]@);
            add_key(&mut keys, &rows.messages[p]);
        }
        proof {
            assert forall|k: Seq<char>| #[trigger] texts(keys@).contains(k) <==> sent_key(
                t,
                id,
                all,
                k,
            ) || got_key(t, places, id, i + 1, k) by {
                if got_key(t, places, id, i + 1, k) && !got_key(t, places, id, i as int, k) {
                    let j = choose|j: int|
                        0 <= j < i + 1 && owner_of(t, (#[trigger] t.recipients[j]).email) == Some(
                            id,
                        ) && conversation_key(t.messages[places[j] as int]) == Some(k);
                    assert(j == i);
                }
                if got_key(t, places, id, i as int, k) {
                    let j = choose|j: int|
                        0 <= j < i && owner_of(t, (#[trigger] t.recipients[j]).email) == Some(id)
                            && conversation_key(t.messages[places[j] as int]) == Some(k);
                    assert(owner_of(t, t.recipients[j].email) == Some(id));
                    assert(before.contains(k));
                }
                assert(before.contains(k) <==> sent_key(t, id, all, k) || got_key(
                    t,
                    places,
                    id,
                    i as int,
                    k,
                ));
            }
        }
        i = i + 1;
    }
    let ghost listed = texts(keys@);
    let ghost total = keys@.len();
    let distinct = sort_distinct(keys);
    proof {
        let d = texts(distinct@);
        lemma_keys(t, owners, id);
        assert(d.no_duplicates());
        d.unique_seq_to_set();
        assert(d.to_set() =~= conversations(t, id)) by {
            assert forall|k: Seq<char>| d.to_set().contains(k) <==> conversations(t, id).contains(
                k,
            ) by {
                assert(d.contains(k) <==> listed.contains(k));
            }
        }
        listed.lemma_cardinality_of_set();
        assert(listed.to_set() =~= d.to_set()) by {
            assert forall|k: Seq<char>| d.to_set().contains(k) <==> listed.to_set().contains(k) by {
                assert(d.contains(k) <==> listed.contains(k));
            }
        }
        assert(distinct@.len() <= total);
    }
    (distinct.len() as i64, active)
}

/// What the messages and the recipients of a contact tell of its conversations.
proof fn lemma_keys(t: Tables, owners: &Owners, id: i64)
    requires
        forall|i: int, j: int|
            0 <= i < j < t.messages.len() ==> (#[trigger] t.messages[i]).id < (
            #[trigger] t.messages[j]).id,
        owners.of(t),
    ensures
        forall|k: Seq<char>| #[trigger]
            conversations(t, id).contains(k) <==> sent_key(t, id, t.messages.len() as int, k)
                || got_key(t, owners.places@, id, t.recipients.len() as int, k),
        is_active(t, id) <==> (exists|j: int|
            0 <= j < t.messages.len() && sender_of(t, #[trigger] t.messages[j]) == Some(id)) || (
        exists|j: int|
            0 <= j < t.recipients.len() && owner_of(t, (#[trigger] t.recipients[j]).email) == Some(
                id,
            )),
{
    let places = owners.places@;
    let n = t.recipients.len() as int;
    assert forall|i: int| 0 <= i < t.messages.len() && got(t, #[trigger] t.messages[i], id) implies (
    exists|j: int|
        0 <= j < n && owner_of(t, (#[trigger] t.recipients[j]).email) == Some(id) && places[j]
            == i) by {
        let j = choose|j: int|
            0 <= j < t.recipients.len() && (#[trigger] t.recipients[j]).message_id
                == t.messages[i].id && owner_of(t, t.recipients[j].email) == Some(id);
        let p = places[j] as int;
        if p < i {
            assert(t.messages[p].id < t.messages[i].id);
        } else if i < p {
            assert(t.messages[i].id < t.messages[p].id);
        }
        assert(owner_of(t, t.recipients[j].email) == Some(id) && places[j] == i);
    }
    assert forall|j: int|
        0 <= j < n && owner_of(t, (#[trigger] t.recipients[j]).email) == Some(id) implies got(
        t,
        t.messages[places[j] as int],
        id,
    ) && 0 <= places[j] < t.messages.len() by {
        assert(places[j] < t.messages.len());
        assert(t.recipients[j].message_id == t.messages[places[j] as int].id);
    }
    assert forall|k: Seq<char>| #[trigger] conversations(t, id).contains(k) <==> sent_key(
        t,
        id,
        t.messages.len() as int,
        k,
    ) || got_key(t, places, id, n, k) by {
        if conversations(t, id).contains(k) {
            let i = choose|i: int|
                0 <= i < t.messages.len() && takes_part(t, #[trigger] t.messages[i], id)
                    && conversation_key(t.messages[i]) == Some(k);
            if sender_of(t, t.messages[i]) != Some(id) {
                assert(got(t, t.messages[i], id));
                let j = choose|j: int|
                    0 <= j < n && owner_of(t, (#[trigger] t.recipients[j]).email) == Some(id)
                        && places[j] == i;
                assert(got_key(t, places, id, n, k));
            }
        }
        if sent_key(t, id, t.messages.len() as int, k) {
            let i = choose|i: int|
                0 <= i < t.messages.len() && sender_of(t, #[trigger] t.messages[i]) == Some(id)
                    && conversation_key(t.messages[i]) == Some(k);
            assert(takes_part(t, t.messages[i], id));
        }
        if got_key(t, places, id, n, k) {
            let j = choose|j: int|
                0 <= j < n && owner_of(t, (#[trigger] t.recipients[j]).email) == Some(id)
                    && conversation_key(t.messages[places[j] as int]) == Some(k);
            assert(takes_part(t, t.messages[places[j] as int], id));
        }
    }
    if is_active(t, id) {
        let i = choose|i: int|
            0 <= i < t.messages.len() && takes_part(t, #[trigger] t.messages[i], id);
        if sender_of(t, t.messages[i]) != Some(id) {
            assert(got(t, t.messages[i], id));
        }
    }
    if exists|j: int|
        0 <= j < t.messages.len() && sender_of(t, #[trigger] t.messages[j]) == Some(id) {
        let i = choose|i: int|
            0 <= i < t.messages.len() && sender_of(t, #[trigger] t.messages[i]) == Some(id);
        assert(takes_part(t, t.messages[i], id));
    }
    if exists|j: int|
        0 <= j < n && owner_of(t, (#[trigger] t.recipients[j]).email) == Some(id) {
        let j = choose|j: int|
            0 <= j < n && owner_of(t, (#[trigger] t.recipients[j]).email) == Some(id);
        assert(takes_part(t, t.messages[places[j] as int], id));
    }
}

// ---------------------------------------------------------------------------------------
// Answering queries
// ---------------------------------------------------------------------------------------

/// A contact with its place in the order.
struct Entry {
    contact: ContactSummary,
    active: bool,
}

impl View for Entry {
    type V = Standing;

    closed spec fn view(&self) -> Standing {
        Standing { contact: self.contact@, active: self.active }
    }
}

impl Entry {
    fn talk_order(&self) -> (r: i64)
        ensures
            r == talk_order(self@),
    {
        if self.active {
            self.contact.conversation_count
        } else {
            -1
        }
    }
}

impl Ranked for Entry {
    closed spec fn le(self, other: Self) -> bool {
        ranks_before(self@, other@)
    }

    proof fn total(a: Self, b: Self) {
        lemma_text_total(a@.contact.email, b@.contact.email);
    }

    proof fn transitive(a: Self, b: Self, c: Self) {
        if text_le(a@.contact.email, b@.contact.email) && text_le(
            b@.contact.email,
            c@.contact.email,
        ) {
            lemma_text_transitive(a@.contact.email, b@.contact.email, c@.contact.email);
        }
    }

    fn is_le(&self, other: &Self) -> (r: bool) {
        if self.contact.rank_score != other.contact.rank_score {
            return self.contact.rank_score > other.contact.rank_score;
        }
        let a = self.talk_order();
        let b = other.talk_order();
        if a != b {
            return a > b;
        }
        if self.contact.message_count != other.contact.message_count {
            return self.contact.message_count > other.contact.message_count;
        }
        not_after(self.contact.email.as_str(), other.contact.email.as_str())
    }
}

fn is_machine_kind(kind: &str) -> (r: bool)
    ensures
        r == machine_kind(kind@),
{
    same_text(kind, "no_reply") || same_text(kind, "bulk") || same_text(kind, "newsletter")
        || same_text(kind, "promotional") || same_text(kind, "automated")
}

fn is_listed(list: &Option<String>, x: &str) -> (r: bool)
    ensures
        r == lists_text(opt_text(*list), x@),
{
    match list {
        Some(l) => is_one_of(x, &split(l.as_str(), ',')),
        None => false,
    }
}

fn is_mentioned(list: &Option<String>, x: &str) -> (r: bool)
    ensures
        r == mentions_term(opt_text(*list), x@),
{
    match list {
        Some(l) => contains_any(x, &split(l.as_str(), ',')),
        None => false,
    }
}

fn is_in_role(role: &str, c: &ContactSummary) -> (r: bool)
    requires
        0 <= c.sent_count,
        0 <= c.direct_count <= ROW_LIMIT,
        0 <= c.cc_count <= ROW_LIMIT,
        0 <= c.bcc_count <= ROW_LIMIT,
    ensures
        r == has_role(role@, c@),
{
    same_text(role, "sender") && c.sent_count > 0 || same_text(role, "to") && c.direct_count > 0
        || same_text(role, "cc") && c.cc_count > 0 || same_text(role, "bcc") && c.bcc_count > 0
        || same_text(role, "recipient") && c.direct_count + c.cc_count + c.bcc_count > 0
}

fn is_asked_for(q: &ContactQuery, c: &ContactSummary) -> (r: bool)
    requires
        0 <= c.sent_count,
        0 <= c.direct_count <= ROW_LIMIT,
        0 <= c.cc_count <= ROW_LIMIT,
        0 <= c.bcc_count <= ROW_LIMIT,
    ensures
        r == asks_for(q@, c@),
{
    if !q.include_filtered && is_machine_kind(c.sender_kind.as_str()) {
        return false;
    }
    if let Some(kind) = &q.kind {
        if *kind != c.sender_kind {
            return false;
        }
    }
    if let Some(domain) = &q.domain {
        if *domain != c.domain {
            return false;
        }
    }
    if let Some(role) = &q.role {
        if !is_in_role(role.as_str(), c) {
            return false;
        }
    }
    if q.domain_contains.is_some() && !is_mentioned(&q.domain_contains, c.domain.as_str()) {
        return false;
    }
    !is_listed(&q.exclude_kinds, c.sender_kind.as_str()) && !is_listed(
        &q.exclude_emails,
        c.email.as_str(),
    ) && !is_mentioned(&q.exclude_email_contains, c.email.as_str()) && !is_listed(
        &q.exclude_domains,
        c.domain.as_str(),
    ) && !is_mentioned(&q.exclude_domain_contains, c.domain.as_str())
}

fn contact_position(rows: &Rows, id: i64) -> (r: usize)
    requires
        sound(rows@),
        has_contact(rows@.contacts, id),
    ensures
        r < rows@.contacts.len(),
        rows@.contacts[r as int] == contact_with(rows@, id),
        rows@.contacts[r as int].id == id,
{
    let ghost t = rows@;
    let ghost k = choose|i: int| 0 <= i < t.contacts.len() && (#[trigger] t.contacts[i]).id == id;
    let mut lo: usize = 0;
    let mut hi: usize = rows.contacts.len();
    while lo + 1 < hi
        invariant
            t == rows@,
            sound(t),
            0 <= k < t.contacts.len(),
            t.contacts[k].id == id,
            0 <= lo <= k < hi <= rows.contacts.len(),
        decreases hi - lo,
    {
        let mid = lo + (hi - lo) / 2;
        assert(t.contacts[mid as int] == rows.contacts@[mid as int]@);
        if rows.contacts[mid].id <= id {
            assert(mid <= k) by {
                if k < mid {
                    assert(t.contacts[k].id < t.contacts[mid as int].id);
                }
            }
            lo = mid;
        } else {
            assert(k < mid) by {
                if mid < k {
                    assert(t.contacts[mid as int].id < t.contacts[k].id);
                }
            }
            hi = mid;
        }
    }
    lo
}

/// The contact of the address at a position, as it stands.
fn entry_at(rows: &Rows, owners: &Owners, i: usize) -> (r: Entry)
    requires
        sound(rows@),
        owners.of(rows@),
        i < rows@.addresses.len(),
    ensures
        r@ == standings(rows@)[i as int],
        0 <= r.contact.sent_count,
        0 <= r.contact.direct_count <= ROW_LIMIT,
        0 <= r.contact.cc_count <= ROW_LIMIT,
        0 <= r.contact.bcc_count <= ROW_LIMIT,
{
    let ghost t = rows@;
    let a = &rows.addresses[i];
    assert(t.addresses[i as int] == a@);
    let id = a.contact_id;
    let at = contact_position(rows, id);
    let c = &rows.contacts[at];
    assert(t.contacts[at as int] == c@);
    let sent_count = count_sent(rows, owners, id);
    let direct_count = count_received(rows, owners, id, "to");
    let cc_count = count_received(rows, owners, id, "cc");
    let bcc_count = count_received(rows, owners, id, "bcc");
    let (conversation_count, active) = count_conversations(rows, owners, id);
    let mut rank_score: i64 = sent_count * 4 + direct_count * 3 + cc_count * 2 + bcc_count
        + conversation_count * 6;
    if sent_count > 0 && direct_count > 0 {
        rank_score = rank_score + 12;
    }
    if is_machine_kind(c.sender_kind.as_str()) {
        rank_score = rank_score - 1000;
    }
    Entry {
        contact: ContactSummary {
            display_name: c.display_name.clone(),
            email: a.email.clone(),
            domain: a.domain.clone(),
            sender_kind: c.sender_kind.clone(),
            message_count: c.message_count,
            sent_count,
            direct_count,
            cc_count,
            bcc_count,
            conversation_count,
            rank_score,
        },
        active,
    }
}

spec fn entries(v: Seq<Entry>) -> Seq<Standing> {
    v.map_values(|e: Entry| e@)
}

/// The contacts that a query asks for, in no order of their own.
fn find_contacts(rows: &Rows, q: &ContactQuery) -> (r: Vec<Entry>)
    requires
        sound(rows@),
    ensures
        entries(r@) == matching(rows@, q@),
{
    let ghost t = rows@;
    let ghost p = |s: Standing| asks_for(q@, s.contact);
    let owners = find_owners(rows);
    let mut r: Vec<Entry> = Vec::new();
    let mut i: usize = 0;
    proof {
        lemma_filter_none(standings(t), p);
        assert(entries(r@) =~= Seq::empty());
    }
    while i < rows.addresses.len()
        invariant
            t == rows@,
            sound(t),
            owners.of(t),
            p == (|s: Standing| asks_for(q@, s.contact)),
            0 <= i <= rows.addresses.len(),
            entries(r@) == standings(t).take(i as int).filter(p),
        decreases rows.addresses.len() - i,
    {
        proof {
            lemma_filter_step(standings(t), i as int, p);
        }
        let ghost before = entries(r@);
        let e = entry_at(rows, &owners, i);
        if is_asked_for(q, &e.contact) {
            let ghost s = e@;
            r.push(e);
            assert(entries(r@) =~= before.push(s));
        }
        i = i + 1;
    }
    assert(standings(t).take(i as int) =~= standings(t));
    r
}

/// How many contacts a query asks for, whatever its limit.
pub fn count_contacts(rows: &Rows, q: &ContactQuery) -> (r: i64)
    requires
        sound(rows@),
    ensures
        r == matching(rows@, q@).len(),
{
    let found = find_contacts(rows, q);
    proof {
        standings(rows@).lemma_filter_len(|s: Standing| asks_for(q@, s.contact));
        assert(entries(found@).len() == found@.len());
    }
    found.len() as i64
}

/// The contacts that a query asks for, the highest ranks first, up to its limit.
pub fn list_contacts(rows: &Rows, q: &ContactQuery) -> (r: Vec<ContactSummary>)
    requires
        sound(rows@),
    ensures
        is_listing(rows@, q@, summaries(r@)),
        r@.len() == listed_count(q.limit, matching(rows@, q@).len()),
{
    let found = find_contacts(rows, q);
    let ghost f = found@;
    let sorted = sort(found);
    let ghost all = entries(sorted@);
    proof {
        lemma_map_multiset(sorted@, f, |e: Entry| e@);
        assert forall|i: int, j: int| 0 <= i < j < all.len() implies ranks_before(
            #[trigger] all[i],
            #[trigger] all[j],
        ) by {
            assert(sorted@[i].le(sorted@[j]));
        }
        assert(is_ranking(rows@, q@, all));
        assert(entries(f).len() == f.len());
    }
    let mut sorted = sorted;
    if 0 <= q.limit && (q.limit as u64) < sorted.len() as u64 {
        sorted.truncate(q.limit as usize);
    }
    let ghost n = listed_count(q.limit, all.len());
    assert(entries(sorted@) =~= all.take(n as int));
    let r = take_summaries(sorted);
    assert(summaries(r@) =~= all.take(n as int).map_values(|s: Standing| s.contact));
    r
}

fn take_summaries(v: Vec<Entry>) -> (r: Vec<ContactSummary>)
    ensures
        summaries(r@) == entries(v@).map_values(|s: Standing| s.contact),
        r@.len() == v@.len(),
{
    let mut r: Vec<ContactSummary> = Vec::new();
    for e in it: v.into_iter()
        invariant
            it.seq() == v@,
            r@.len() == it.index(),
            forall|j: int| 0 <= j < it.index() ==> (#[trigger] r@[j])@ == v@[j]@.contact,
    {
        r.push(e.contact);
    }
    assert(summaries(r@) =~= entries(v@).map_values(|s: Standing| s.contact));
    r
}

// ---------------------------------------------------------------------------------------
// Laws
// ---------------------------------------------------------------------------------------

proof fn lemma_matching_distinct(t: Tables, q: QueryText)
    requires
        sound(t),
    ensures
        emails_differ(matching(t, q)),
{
    let p = |s: Standing| asks_for(q, s.contact);
    lemma_filter_distinct(standings(t), p);
}

/// No two contacts with the same address.
spec fn emails_differ(s: Seq<Standing>) -> bool {
    forall|i: int, j: int|
        0 <= i < j < s.len() ==> (#[trigger] s[i]).contact.email != (#[trigger] s[j]).contact.email
}

proof fn lemma_filter_distinct(s: Seq<Standing>, p: spec_fn(Standing) -> bool)
    requires
        emails_differ(s),
    ensures
        emails_differ(s.filter(p)),
        forall|x: Standing| #[trigger] s.filter(p).contains(x) ==> s.contains(x) && p(x),
    decreases s.len(),
{
    reveal(Seq::filter);
    if s.len() > 0 {
        let d = s.drop_last();
        let f = d.filter(p);
        lemma_filter_distinct(d, p);
        let g = s.filter(p);
        assert forall|x: Standing| #[trigger] g.contains(x) implies s.contains(x) && p(x) by {
            lemma_push_contains(f, s.last(), x);
            lemma_push_contains(d, s.last(), x);
            assert(d.push(s.last()) =~= s);
        }
        assert forall|i: int, j: int| 0 <= i < j < g.len() implies (#[trigger] g[i]).contact.email
            != (#[trigger] g[j]).contact.email by {
            if j == f.len() {
                assert(f.contains(f[i]));
                assert(d.contains(f[i]));
                let k = choose|k: int| 0 <= k < d.len() && d[k] == f[i];
                assert(s[k].contact.email != s[s.len() - 1].contact.email);
            }
        }
    }
}

proof fn lemma_ranked_unique(a: Seq<Standing>, b: Seq<Standing>)
    requires
        a.to_multiset() == b.to_multiset(),
        ranked(a),
        ranked(b),
        forall|x: Standing, y: Standing|
            #![trigger b.contains(x), b.contains(y)]
            b.contains(x) && b.contains(y) && x.contact.email == y.contact.email ==> x == y,
    ensures
        a == b,
    decreases a.len(),
{
    broadcast use vstd::seq_lib::group_to_multiset_ensures;

    assert(a.len() == a.to_multiset().len());
    assert(b.len() == b.to_multiset().len());
    if a.len() == 0 {
        assert(a =~= b);
    } else {
        let x = a.last();
        let y = b.last();
        assert(a[a.len() - 1] == x);
        assert(b[b.len() - 1] == y);
        assert(a.contains(x));
        assert(b.contains(y));
        assert(b.to_multiset().count(x) > 0);
        assert(a.to_multiset().count(y) > 0);
        assert(b.contains(x));
        assert(a.contains(y));
        let i = choose|i: int| 0 <= i < a.len() && a[i] == y;
        let j = choose|j: int| 0 <= j < b.len() && b[j] == x;
        if x != y {
            assert(ranks_before(a[i], a[a.len() - 1]));
            assert(ranks_before(b[j], b[b.len() - 1]));
            lemma_text_antisymmetric(x.contact.email, y.contact.email);
        }
        let c = a.drop_last();
        let d = b.drop_last();
        assert(c =~= a.remove(a.len() - 1));
        assert(d =~= b.remove(b.len() - 1));
        assert forall|u: Standing, v: Standing|
            #![trigger d.contains(u), d.contains(v)]
            d.contains(u) && d.contains(v) && u.contact.email == v.contact.email implies u == v by {
            let m = choose|m: int| 0 <= m < d.len() && d[m] == u;
            let n = choose|n: int| 0 <= n < d.len() && d[n] == v;
            assert(b[m] == u && b[n] == v);
            assert(b.contains(u) && b.contains(v));
        }
        lemma_ranked_unique(c, d);
        assert(a =~= c.push(x));
        assert(b =~= d.push(y));
    }
}

/// A query has one ranking and so one answer: there are no ties.
pub proof fn law_one_listing(t: Tables, q: QueryText, a: Seq<SummaryText>, b: Seq<SummaryText>)
    requires
        sound(t),
        is_listing(t, q, a),
        is_listing(t, q, b),
    ensures
        a == b,
{
    broadcast use vstd::seq_lib::group_to_multiset_ensures;

    let m = matching(t, q);
    let x = choose|x: Seq<Standing>| #[trigger]
        is_ranking(t, q, x) && a == x.take(listed_count(q.limit, x.len()) as int).map_values(
            |s: Standing| s.contact,
        );
    let y = choose|y: Seq<Standing>| #[trigger]
        is_ranking(t, q, y) && b == y.take(listed_count(q.limit, y.len()) as int).map_values(
            |s: Standing| s.contact,
        );
    lemma_matching_distinct(t, q);
    assert forall|u: Standing, v: Standing|
        #![trigger y.contains(u), y.contains(v)]
        y.contains(u) && y.contains(v) && u.contact.email == v.contact.email implies u == v by {
        assert(m.to_multiset().count(u) > 0 && m.to_multiset().count(v) > 0);
        assert(m.contains(u) && m.contains(v));
        let i = choose|i: int| 0 <= i < m.len() && m[i] == u;
        let j = choose|j: int| 0 <= j < m.len() && m[j] == v;
        if i < j {
            assert(m[i].contact.email != m[j].contact.email);
        } else if j < i {
            assert(m[j].contact.email != m[i].contact.email);
        }
    }
    lemma_ranked_unique(x, y);
}

/// A listed contact is one that the query asks for.
pub proof fn law_listed_are_asked_for(t: Tables, q: QueryText, list: Seq<SummaryText>, i: int)
    requires
        sound(t),
        is_listing(t, q, list),
        0 <= i < list.len(),
    ensures
        asks_for(q, list[i]),
        exists|j: int| 0 <= j < t.addresses.len() && list[i] == standing(
            t,
            #[trigger] t.addresses[j],
        ).contact,
{
    broadcast use vstd::seq_lib::group_to_multiset_ensures;

    let all = choose|all: Seq<Standing>| #[trigger]
        is_ranking(t, q, all) && list == all.take(
            listed_count(q.limit, all.len()) as int,
        ).map_values(|s: Standing| s.contact);
    let s = all[i];
    let m = matching(t, q);
    assert(all.contains(s));
    assert(m.to_multiset().count(s) > 0);
    assert(m.contains(s));
    lemma_filter_distinct(standings(t), |s: Standing| asks_for(q, s.contact));
    assert(standings(t).contains(s));
    let j = choose|j: int| 0 <= j < standings(t).len() && standings(t)[j] == s;
    assert(standing(t, t.addresses[j]) == s);
}

/// Senders that are not people stay out unless the query includes them.
pub proof fn law_filtered_stay_out(t: Tables, q: QueryText, list: Seq<SummaryText>, i: int)
    requires
        sound(t),
        is_listing(t, q, list),
        !q.include_filtered,
        0 <= i < list.len(),
    ensures
        !machine_kind(list[i].sender_kind),
{
    law_listed_are_asked_for(t, q, list, i);
}

/// No listed contact has a higher score than one before it.
pub proof fn law_scores_fall(t: Tables, q: QueryText, list: Seq<SummaryText>, i: int, j: int)
    requires
        is_listing(t, q, list),
        0 <= i < j < list.len(),
    ensures
        list[i].rank_score >= list[j].rank_score,
{
    let all = choose|all: Seq<Standing>| #[trigger]
        is_ranking(t, q, all) && list == all.take(
            listed_count(q.limit, all.len()) as int,
        ).map_values(|s: Standing| s.contact);
    assert(ranks_before(all[i], all[j]));
}

/// With no limit in the way, a listing is as long as the count of the contacts asked for.
pub proof fn law_listing_length(t: Tables, q: QueryText, list: Seq<SummaryText>)
    requires
        is_listing(t, q, list),
    ensures
        list.len() == listed_count(q.limit, matching(t, q).len()),
{
    broadcast use vstd::seq_lib::group_to_multiset_ensures;

    let all = choose|all: Seq<Standing>| #[trigger]
        is_ranking(t, q, all) && list == all.take(
            listed_count(q.limit, all.len()) as int,
        ).map_values(|s: Standing| s.contact);
    assert(all.len() == all.to_multiset().len());
    assert(matching(t, q).len() == matching(t, q).to_multiset().len());
}

/// The count does not depend on the limit.
pub proof fn law_count_ignores_limit(t: Tables, q: QueryText, limit: i64)
    ensures
        matching(t, QueryText { limit, ..q }) == matching(t, q),
{
    let p = |s: Standing| asks_for(q, s.contact);
    let r = |s: Standing| asks_for(QueryText { limit, ..q }, s.contact);
    assert(p =~= r);
}

/// One more conversation scores more than one more message in any single role, once there is
/// mail in both directions.
pub proof fn law_conversations_score_highest(
    kind: Seq<char>,
    sent: int,
    direct: int,
    cc: int,
    bcc: int,
    talks: int,
)
    requires
        sent > 0,
        direct > 0,
    ensures
        ({
            let talk = rank_score(kind, sent, direct, cc, bcc, talks + 1);
            &&& talk > rank_score(kind, sent + 1, direct, cc, bcc, talks)
            &&& talk > rank_score(kind, sent, direct + 1, cc, bcc, talks)
            &&& talk > rank_score(kind, sent, direct, cc + 1, bcc, talks)
            &&& talk > rank_score(kind, sent, direct, cc, bcc + 1, talks)
        }),
{
}

/// With the same activity, a person is a thousand points ahead of what is not a person.
pub proof fn law_people_score_higher(
    person: Seq<char>,
    machine: Seq<char>,
    sent: int,
    direct: int,
    cc: int,
    bcc: int,
    talks: int,
)
    requires
        !machine_kind(person),
        machine_kind(machine),
    ensures
        rank_score(person, sent, direct, cc, bcc, talks) == rank_score(
            machine,
            sent,
            direct,
            cc,
            bcc,
            talks,
        ) + 1000,
{
}

} // verus!
