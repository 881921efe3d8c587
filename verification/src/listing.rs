//! What a listing of contacts shows, told by the rows of the index and the query.
use vstd::prelude::*;

use crate::classify::{kind_name, lemma_kind_name_lengths, SenderKind};
use crate::pieces::{has_any, split_on};
use crate::ranking::{
    asks_for, contact_with, conversation_key, conversations, got, is_active, is_listing, is_ranking,
    law_count_ignores_limit, law_listed_are_asked_for, law_one_listing, listed_count, lists_text,
    machine_kind, matching, mentions_term, owner_of, plain_query, rank_score, ranks_before,
    received_count, sender_of, sent_count, standing, standings, takes_part, QueryText, Standing,
    SummaryText,
};
use crate::sort::text_le;
use crate::tables::{
    contact_of, has_address, has_contact, sound, MessageRowText, RecipientText, Tables,
};
use crate::text::has_text;

verus! {

// ---------------------------------------------------------------------------------------
// Kinds
// ---------------------------------------------------------------------------------------

/// Machines are all kinds of senders but people and what has no valid address.
pub proof fn law_machine_kinds(k: SenderKind)
    ensures
        machine_kind(kind_name(k)) <==> k != SenderKind::Person && k != SenderKind::Invalid,
{
    lemma_kind_name_lengths();
}

/// Without leave, no listing shows a machine: neither what wants no reply, nor a sender of bulk
/// mail, of newsletters, of promotions or of automated mail.
pub proof fn law_no_machine_is_listed(
    t: Tables,
    q: QueryText,
    list: Seq<SummaryText>,
    i: int,
    k: SenderKind,
)
    requires
        sound(t),
        is_listing(t, q, list),
        !q.include_filtered,
        0 <= i < list.len(),
    ensures
        list[i].sender_kind == kind_name(k) ==> k == SenderKind::Person || k == SenderKind::Invalid,
        list[i].sender_kind != "no_reply"@,
        list[i].sender_kind != "bulk"@,
        list[i].sender_kind != "newsletter"@,
        list[i].sender_kind != "promotional"@,
        list[i].sender_kind != "automated"@,
{
    law_listed_are_asked_for(t, q, list, i);
    law_machine_kinds(k);
}

/// Each kind of machine costs a thousand points, and no other kind costs any.
pub proof fn law_machines_lose_points(
    k: SenderKind,
    sent: int,
    direct: int,
    cc: int,
    bcc: int,
    talks: int,
)
    ensures
        rank_score(kind_name(k), sent, direct, cc, bcc, talks) == rank_score(
            kind_name(SenderKind::Person),
            sent,
            direct,
            cc,
            bcc,
            talks,
        ) - (if k == SenderKind::NoReply || k == SenderKind::Bulk || k == SenderKind::Newsletter
            || k
            == SenderKind::Promotional || k == SenderKind::Automated {
            1000int
        } else {
            0
        }),
{
    law_machine_kinds(k);
    law_machine_kinds(SenderKind::Person);
}

/// What one thing more adds to a score: four points a message sent, three a message got, two a
/// copy, one a blind copy, six a conversation; twelve more, once, for mail in both directions. Who
/// has no mail has no points.
pub proof fn law_points(
    kind: Seq<char>,
    sent: int,
    direct: int,
    cc: int,
    bcc: int,
    talks: int,
)
    requires
        sent > 0,
        direct > 0,
    ensures
        ({
            let all = rank_score(kind, sent, direct, cc, bcc, talks);
            &&& rank_score(kind, sent + 1, direct, cc, bcc, talks) == all + 4
            &&& rank_score(kind, sent, direct + 1, cc, bcc, talks) == all + 3
            &&& rank_score(kind, sent, direct, cc + 1, bcc, talks) == all + 2
            &&& rank_score(kind, sent, direct, cc, bcc + 1, talks) == all + 1
            &&& rank_score(kind, sent, direct, cc, bcc, talks + 1) == all + 6
            &&& rank_score(kind, 0, direct, cc, bcc, talks) == all - 4 * sent - 12
            &&& rank_score(kind, sent, 0, cc, bcc, talks) == all - 3 * direct - 12
            &&& rank_score("person"@, 0, 0, 0, 0, 0) == 0
        }),
{
    law_machine_kinds(SenderKind::Person);
}

// ---------------------------------------------------------------------------------------
// Who is listed
// ---------------------------------------------------------------------------------------

/// Whether a text contains one of the terms between the commas of a list.
pub open spec fn contains_one_of(x: Seq<char>, list: Seq<char>) -> bool {
    exists|k: int|
        0 <= k < split_on(list, ',').len() && has_text(x, #[trigger] split_on(list, ',')[k])
}

/// Whether a text is one of the terms between the commas of a list.
pub open spec fn is_one_between(x: Seq<char>, list: Seq<char>) -> bool {
    exists|k: int| 0 <= k < split_on(list, ',').len() && #[trigger] split_on(list, ',')[k] == x
}

/// Whether a contact is one that a query is for: each of the query's options that is set lets it
/// pass.
pub open spec fn passes(q: QueryText, c: SummaryText) -> bool {
    &&& !q.include_filtered ==> c.sender_kind != "no_reply"@ && c.sender_kind != "bulk"@
        && c.sender_kind != "newsletter"@ && c.sender_kind != "promotional"@ && c.sender_kind
        != "automated"@
    &&& q.kind matches Some(k) ==> c.sender_kind == k
    &&& q.exclude_kinds matches Some(l) ==> !is_one_between(c.sender_kind, l)
    &&& q.domain matches Some(d) ==> c.domain == d
    &&& q.domain_contains matches Some(l) ==> contains_one_of(c.domain, l)
    &&& q.exclude_emails matches Some(l) ==> !is_one_between(c.email, l)
    &&& q.exclude_email_contains matches Some(l) ==> !contains_one_of(c.email, l)
    &&& q.exclude_domains matches Some(l) ==> !is_one_between(c.domain, l)
    &&& q.exclude_domain_contains matches Some(l) ==> !contains_one_of(c.domain, l)
    &&& q.role == Some("sender"@) ==> c.sent_count > 0
    &&& q.role == Some("to"@) ==> c.direct_count > 0
    &&& q.role == Some("cc"@) ==> c.cc_count > 0
    &&& q.role == Some("bcc"@) ==> c.bcc_count > 0
    &&& q.role == Some("recipient"@) ==> c.direct_count > 0 || c.cc_count > 0 || c.bcc_count > 0
    &&& q.role matches Some(r) ==> r == "sender"@ || r == "to"@ || r == "cc"@ || r == "bcc"@ || r
        == "recipient"@
}

proof fn lemma_roles_differ()
    ensures
        "sender"@.len() == 6,
        "to"@.len() == 2,
        "cc"@.len() == 2,
        "to"@ != "cc"@,
        "bcc"@.len() == 3,
        "recipient"@.len() == 9,
{
    reveal_strlit("sender");
    reveal_strlit("to");
    reveal_strlit("cc");
    reveal_strlit("bcc");
    reveal_strlit("recipient");
    assert("to"@[0] == 't');
    assert("cc"@[0] == 'c');
}

/// A query asks for a contact just when all of its options let the contact pass.
pub proof fn law_query_options(q: QueryText, c: SummaryText)
    requires
        c.direct_count >= 0,
        c.cc_count >= 0,
        c.bcc_count >= 0,
    ensures
        asks_for(q, c) <==> passes(q, c),
{
    lemma_roles_differ();
    lemma_listed(q.exclude_kinds, c.sender_kind);
    lemma_listed(q.exclude_emails, c.email);
    lemma_listed(q.exclude_domains, c.domain);
    lemma_mentioned(q.domain_contains, c.domain);
    lemma_mentioned(q.exclude_email_contains, c.email);
    lemma_mentioned(q.exclude_domain_contains, c.domain);
}

pub proof fn lemma_listed(list: Option<Seq<char>>, x: Seq<char>)
    ensures
        lists_text(list, x) <==> list is Some && is_one_between(x, list->0),
{
    if lists_text(list, x) {
        let p = split_on(list->0, ',');
        let k = choose|k: int| 0 <= k < p.len() && p[k] == x;
        assert(p[k] == x);
    }
}

pub proof fn lemma_mentioned(list: Option<Seq<char>>, x: Seq<char>)
    ensures
        mentions_term(list, x) <==> list is Some && contains_one_of(x, list->0),
{
    if list is Some {
        let p = split_on(list->0, ',');
        if has_any(x, p) {
            let k = choose|k: int| 0 <= k < p.len() && has_text(x, #[trigger] p[k]);
            assert(has_text(x, split_on(list->0, ',')[k]));
        }
        if contains_one_of(x, list->0) {
            let k = choose|k: int| 0 <= k < p.len() && has_text(x, #[trigger] p[k]);
            assert(has_text(x, p[k]));
        }
    }
}

/// Every contact that is listed passes all options of the query, and is the contact of an address
/// in the index.
pub proof fn law_listed_pass(t: Tables, q: QueryText, list: Seq<SummaryText>, i: int)
    requires
        sound(t),
        is_listing(t, q, list),
        0 <= i < list.len(),
    ensures
        passes(q, list[i]),
        exists|j: int|
            0 <= j < t.addresses.len() && (#[trigger] t.addresses[j]).email == list[i].email
                && t.addresses[j].domain == list[i].domain,
{
    law_listed_are_asked_for(t, q, list, i);
    let j = choose|j: int|
        0 <= j < t.addresses.len() && list[i] == standing(t, #[trigger] t.addresses[j]).contact;
    assert(t.addresses[j].email == list[i].email);
    law_query_options(q, list[i]);
}

/// Every contact that passes the options is listed, unless the limit cuts it off.
pub proof fn law_passing_are_listed(t: Tables, q: QueryText, list: Seq<SummaryText>, j: int)
    requires
        is_listing(t, q, list),
        0 <= j < t.addresses.len(),
        passes(q, standing(t, t.addresses[j]).contact),
        q.limit < 0 || t.addresses.len() <= q.limit,
    ensures
        exists|i: int| 0 <= i < list.len() && (#[trigger] list[i]).email == t.addresses[j].email,
{
    broadcast use vstd::seq_lib::group_to_multiset_ensures;

    let s = standing(t, t.addresses[j]);
    law_query_options(q, s.contact);
    let all = choose|all: Seq<Standing>| #[trigger]
        is_ranking(t, q, all) && list == all.take(
            listed_count(q.limit, all.len()) as int,
        ).map_values(|s: Standing| s.contact);
    let p = |s: Standing| asks_for(q, s.contact);
    let m = matching(t, q);
    assert(standings(t)[j] == s);
    assert(p(standings(t)[j]));
    standings(t).lemma_filter_contains(p, j);
    assert(m.contains(s));
    assert(m.to_multiset().count(s) > 0);
    assert(all.contains(s));
    let i = choose|i: int| 0 <= i < all.len() && all[i] == s;
    assert(all.len() == m.len()) by {
        assert(all.len() == all.to_multiset().len());
        assert(m.len() == m.to_multiset().len());
    }
    standings(t).lemma_filter_len(p);
    assert(list[i] == s.contact);
}

/// Everyone who is no machine is listed if nothing more is asked.
pub proof fn law_people_are_listed(t: Tables, limit: i64, list: Seq<SummaryText>, j: int)
    requires
        is_listing(t, plain_query(limit), list),
        0 <= j < t.addresses.len(),
        limit < 0 || t.addresses.len() <= limit,
        ({
            let kind = standing(t, t.addresses[j]).contact.sender_kind;
            kind == "person"@ || kind == "invalid"@
        }),
    ensures
        exists|i: int| 0 <= i < list.len() && (#[trigger] list[i]).email == t.addresses[j].email,
{
    law_machine_kinds(SenderKind::Person);
    law_machine_kinds(SenderKind::Invalid);
    law_passing_are_listed(t, plain_query(limit), list, j);
}

// ---------------------------------------------------------------------------------------
// How many are listed
// ---------------------------------------------------------------------------------------

/// The limit cuts off the end of the listing and nothing else: a listing with a limit is the
/// beginning of the one without, as long as the limit allows; a negative limit allows everything.
pub proof fn law_limit_cuts_the_end(
    t: Tables,
    q: QueryText,
    whole: Seq<SummaryText>,
    list: Seq<SummaryText>,
)
    requires
        sound(t),
        is_listing(t, QueryText { limit: -1i64, ..q }, whole),
        is_listing(t, q, list),
    ensures
        list.is_prefix_of(whole),
        q.limit < 0 || q.limit >= whole.len() ==> list.len() == whole.len(),
        0 <= q.limit < whole.len() ==> list.len() == q.limit,
        whole.len() == matching(t, q).len(),
{
    broadcast use vstd::seq_lib::group_to_multiset_ensures;

    let free = QueryText { limit: -1i64, ..q };
    law_count_ignores_limit(t, q, -1i64);
    let all = choose|all: Seq<Standing>| #[trigger]
        is_ranking(t, q, all) && list == all.take(
            listed_count(q.limit, all.len()) as int,
        ).map_values(|s: Standing| s.contact);
    let full = all.take(all.len() as int).map_values(|s: Standing| s.contact);
    assert(is_ranking(t, free, all));
    assert(is_listing(t, free, full));
    law_one_listing(t, free, full, whole);
    assert(all.len() == matching(t, q).len()) by {
        assert(all.len() == all.to_multiset().len());
        assert(matching(t, q).len() == matching(t, q).to_multiset().len());
    }
    assert(whole.subrange(0, list.len() as int) =~= list);
}

// ---------------------------------------------------------------------------------------
// What is told of a contact
// ---------------------------------------------------------------------------------------

/// Whether an address belongs to a contact.
pub open spec fn belongs(t: Tables, email: Seq<char>, id: i64) -> bool {
    exists|k: int|
        0 <= k < t.addresses.len() && (#[trigger] t.addresses[k]).email == email
            && t.addresses[k].contact_id == id
}

/// Whether a message was sent from an address of a contact.
pub open spec fn sent_by(t: Tables, m: MessageRowText, id: i64) -> bool {
    m.sender_email matches Some(e) && belongs(t, e, id)
}

/// Whether a message has a recipient with an address of a contact.
pub open spec fn got_by(t: Tables, m: MessageRowText, id: i64) -> bool {
    exists|i: int|
        0 <= i < t.recipients.len() && (#[trigger] t.recipients[i]).message_id == m.id && belongs(
            t,
            t.recipients[i].email,
            id,
        )
}

/// Whether a text tells the conversation of a message: its conversation id does, or without one
/// its subject, or without that its message id, or else its source.
pub open spec fn tells_conversation(m: MessageRowText, k: Seq<char>) -> bool {
    ||| m.conversation_id == Some(k)
    ||| m.conversation_id is None && m.subject == Some(k)
    ||| m.conversation_id is None && m.subject is None && m.internet_message_id == Some(k)
    ||| m.conversation_id is None && m.subject is None && m.internet_message_id is None
        && m.source_id == Some(k)
}

/// Whether a contact sent or got a message of a conversation.
pub open spec fn talks_in(t: Tables, id: i64, k: Seq<char>) -> bool {
    exists|i: int|
        0 <= i < t.messages.len() && (sent_by(t, #[trigger] t.messages[i], id) || got_by(
            t,
            t.messages[i],
            id,
        )) && tells_conversation(t.messages[i], k)
}

pub proof fn lemma_belongs(t: Tables, email: Seq<char>, id: i64)
    requires
        sound(t),
    ensures
        owner_of(t, email) == Some(id) <==> belongs(t, email, id),
{
    if has_address(t, email) {
        let k = choose|k: int|
            0 <= k < t.addresses.len() && (#[trigger] t.addresses[k]).email == email;
        assert(contact_of(t, email) == t.addresses[k].contact_id);
        if belongs(t, email, id) {
            let j = choose|j: int|
                0 <= j < t.addresses.len() && (#[trigger] t.addresses[j]).email == email
                    && t.addresses[j].contact_id == id;
            if j < k {
                assert(t.addresses[j].email != t.addresses[k].email);
            } else if k < j {
                assert(t.addresses[k].email != t.addresses[j].email);
            }
        }
    } else if belongs(t, email, id) {
        let j = choose|j: int|
            0 <= j < t.addresses.len() && (#[trigger] t.addresses[j]).email == email
                && t.addresses[j].contact_id == id;
        assert(t.addresses[j].email == email);
    }
}

proof fn lemma_parts(t: Tables, m: MessageRowText, id: i64)
    requires
        sound(t),
    ensures
        sender_of(t, m) == Some(id) <==> sent_by(t, m, id),
        got(t, m, id) <==> got_by(t, m, id),
        forall|k: Seq<char>| conversation_key(m) == Some(k)
            <==> #[trigger] tells_conversation(m, k),
{
    if let Some(e) = m.sender_email {
        lemma_belongs(t, e, id);
    }
    if got(t, m, id) {
        let i = choose|i: int|
            0 <= i < t.recipients.len() && (#[trigger] t.recipients[i]).message_id == m.id
                && owner_of(t, t.recipients[i].email) == Some(id);
        lemma_belongs(t, t.recipients[i].email, id);
        assert(t.recipients[i].message_id == m.id && belongs(t, t.recipients[i].email, id));
    }
    if got_by(t, m, id) {
        let i = choose|i: int|
            0 <= i < t.recipients.len() && (#[trigger] t.recipients[i]).message_id == m.id
                && belongs(t, t.recipients[i].email, id);
        lemma_belongs(t, t.recipients[i].email, id);
        assert(t.recipients[i].message_id == m.id);
    }
}

proof fn lemma_counts(t: Tables, id: i64, kind: Seq<char>)
    requires
        sound(t),
    ensures
        sent_count(t, id) == t.messages.filter(|m: MessageRowText| sent_by(t, m, id)).len(),
        received_count(t, id, kind) == t.recipients.filter(
            |r: RecipientText| r.kind == kind && belongs(t, r.email, id),
        ).len(),
        conversations(t, id) == Set::new(|k: Seq<char>| talks_in(t, id, k)),
{
    let p = |m: MessageRowText| sender_of(t, m) == Some(id);
    let q = |m: MessageRowText| sent_by(t, m, id);
    assert(p =~= q) by {
        assert forall|m: MessageRowText| #[trigger] p(m) == q(m) by {
            lemma_parts(t, m, id);
        }
    }
    let a = |r: RecipientText| r.kind == kind && owner_of(t, r.email) == Some(id);
    let b = |r: RecipientText| r.kind == kind && belongs(t, r.email, id);
    assert(a =~= b) by {
        assert forall|r: RecipientText| #[trigger] a(r) == b(r) by {
            lemma_belongs(t, r.email, id);
        }
    }
    let x = conversations(t, id);
    let y = Set::new(|k: Seq<char>| talks_in(t, id, k));
    assert forall|k: Seq<char>| #[trigger] x.contains(k) == y.contains(k) by {
        if x.contains(k) {
            let i = choose|i: int|
                0 <= i < t.messages.len() && takes_part(t, #[trigger] t.messages[i], id)
                    && conversation_key(t.messages[i]) == Some(k);
            lemma_parts(t, t.messages[i], id);
            assert(tells_conversation(t.messages[i], k));
            assert(talks_in(t, id, k));
        }
        if talks_in(t, id, k) {
            let i = choose|i: int|
                0 <= i < t.messages.len() && (sent_by(t, #[trigger] t.messages[i], id) || got_by(
                    t,
                    t.messages[i],
                    id,
                )) && tells_conversation(t.messages[i], k);
            lemma_parts(t, t.messages[i], id);
            assert(takes_part(t, t.messages[i], id));
        }
    }
    assert(x =~= y);
}

/// The numbers of a listed contact are those of the rows: the messages sent from its addresses,
/// those that it got in each part, the conversations that it takes part in, and the messages that
/// its row counts; its score is made of them, and its name and kind are those of its row.
pub proof fn law_numbers_are_those_of_the_rows(
    t: Tables,
    q: QueryText,
    list: Seq<SummaryText>,
    i: int,
    j: int,
    k: int,
)
    requires
        sound(t),
        is_listing(t, q, list),
        0 <= i < list.len(),
        0 <= j < t.addresses.len(),
        t.addresses[j].email == list[i].email,
        0 <= k < t.contacts.len(),
        t.contacts[k].id == t.addresses[j].contact_id,
    ensures
        ({
            let c = list[i];
            let id = t.contacts[k].id;
            &&& c.domain == t.addresses[j].domain
            &&& c.display_name == t.contacts[k].display_name
            &&& c.sender_kind == t.contacts[k].sender_kind
            &&& c.message_count == t.contacts[k].message_count
            &&& c.sent_count == t.messages.filter(|m: MessageRowText| sent_by(t, m, id)).len()
            &&& c.direct_count == t.recipients.filter(
                |r: RecipientText| r.kind == "to"@ && belongs(t, r.email, id),
            ).len()
            &&& c.cc_count == t.recipients.filter(
                |r: RecipientText| r.kind == "cc"@ && belongs(t, r.email, id),
            ).len()
            &&& c.bcc_count == t.recipients.filter(
                |r: RecipientText| r.kind == "bcc"@ && belongs(t, r.email, id),
            ).len()
            &&& c.conversation_count == Set::new(|x: Seq<char>| talks_in(t, id, x)).len()
            &&& c.rank_score == c.sent_count * 4 + c.direct_count * 3 + c.cc_count * 2 + c.bcc_count
                + c.conversation_count * 6 + (if c.sent_count > 0 && c.direct_count > 0 {
                12int
            } else {
                0
            }) - (if c.sender_kind == "no_reply"@ || c.sender_kind == "bulk"@ || c.sender_kind
                == "newsletter"@ || c.sender_kind == "promotional"@ || c.sender_kind
                == "automated"@ {
                1000int
            } else {
                0
            })
        }),
{
    law_listed_are_asked_for(t, q, list, i);
    let n = choose|n: int|
        0 <= n < t.addresses.len() && list[i] == standing(t, #[trigger] t.addresses[n]).contact;
    assert(n == j) by {
        assert(t.addresses[n].email == t.addresses[j].email);
    }
    let id = t.contacts[k].id;
    let w = choose|w: int| 0 <= w < t.contacts.len() && (#[trigger] t.contacts[w]).id == id;
    assert(w == k);
    lemma_counts(t, id, "to"@);
    lemma_counts(t, id, "cc"@);
    lemma_counts(t, id, "bcc"@);
}

// ---------------------------------------------------------------------------------------
// The order
// ---------------------------------------------------------------------------------------

proof fn lemma_inactive(t: Tables, id: i64)
    requires
        !is_active(t, id),
    ensures
        conversations(t, id).len() == 0,
{
    assert(conversations(t, id) =~= Set::<Seq<char>>::empty());
}

/// Contacts are listed by score, from the highest down; with the same score by conversations,
/// with the same number of them by messages, and then by address.
pub proof fn law_order_of_the_listing(
    t: Tables,
    q: QueryText,
    list: Seq<SummaryText>,
    i: int,
    j: int,
)
    requires
        sound(t),
        is_listing(t, q, list),
        0 <= i < j < list.len(),
    ensures
        ({
            let a = list[i];
            let b = list[j];
            &&& a.rank_score >= b.rank_score
            &&& a.rank_score == b.rank_score ==> a.conversation_count >= b.conversation_count
            &&& a.rank_score == b.rank_score && a.conversation_count == b.conversation_count
                && a.conversation_count > 0 ==> a.message_count >= b.message_count
            &&& a.rank_score == b.rank_score && a.conversation_count == b.conversation_count
                && a.conversation_count > 0 && a.message_count == b.message_count ==> text_le(
                a.email,
                b.email,
            )
        }),
{
    broadcast use vstd::seq_lib::group_to_multiset_ensures;

    let all = choose|all: Seq<Standing>| #[trigger]
        is_ranking(t, q, all) && list == all.take(
            listed_count(q.limit, all.len()) as int,
        ).map_values(|s: Standing| s.contact);
    assert(ranks_before(all[i], all[j]));
    lemma_stands(t, q, all, i);
    lemma_stands(t, q, all, j);
}

proof fn lemma_stands(t: Tables, q: QueryText, all: Seq<Standing>, i: int)
    requires
        is_ranking(t, q, all),
        0 <= i < all.len(),
    ensures
        !all[i].active ==> all[i].contact.conversation_count == 0,
        all[i].contact.conversation_count >= 0,
{
    broadcast use vstd::seq_lib::group_to_multiset_ensures;

    let s = all[i];
    let m = matching(t, q);
    let p = |s: Standing| asks_for(q, s.contact);
    assert(all.contains(s));
    assert(m.to_multiset().count(s) > 0);
    assert(m.contains(s));
    standings(t).lemma_filter_contains_rev(p, s);
    let k = choose|k: int| 0 <= k < standings(t).len() && standings(t)[k] == s;
    let a = t.addresses[k];
    assert(s == standing(t, a));
    let id = contact_with(t, a.contact_id).id;
    if !is_active(t, id) {
        lemma_inactive(t, id);
    }
}

/// Whether a contact sent or got any message.
pub open spec fn has_mail(t: Tables, id: i64) -> bool {
    exists|i: int|
        0 <= i < t.messages.len() && (sent_by(t, #[trigger] t.messages[i], id) || got_by(
            t,
            t.messages[i],
            id,
        ))
}

proof fn lemma_has_mail(t: Tables, id: i64)
    requires
        sound(t),
    ensures
        is_active(t, id) <==> has_mail(t, id),
{
    if is_active(t, id) {
        let i = choose|i: int|
            0 <= i < t.messages.len() && takes_part(t, #[trigger] t.messages[i], id);
        lemma_parts(t, t.messages[i], id);
        assert(sent_by(t, t.messages[i], id) || got_by(t, t.messages[i], id));
    }
    if has_mail(t, id) {
        let i = choose|i: int|
            0 <= i < t.messages.len() && (sent_by(t, #[trigger] t.messages[i], id) || got_by(
                t,
                t.messages[i],
                id,
            ));
        lemma_parts(t, t.messages[i], id);
        assert(takes_part(t, t.messages[i], id));
    }
}

/// Among contacts with the same score, those without any mail come last; among them, and among
/// those with mail but without conversations, messages and then addresses decide.
pub proof fn law_contacts_without_mail_come_last(
    t: Tables,
    q: QueryText,
    list: Seq<SummaryText>,
    i: int,
    j: int,
    m: int,
    n: int,
)
    requires
        sound(t),
        is_listing(t, q, list),
        0 <= i < j < list.len(),
        list[i].rank_score == list[j].rank_score,
        0 <= m < t.addresses.len(),
        t.addresses[m].email == list[i].email,
        0 <= n < t.addresses.len(),
        t.addresses[n].email == list[j].email,
    ensures
        ({
            let a = has_mail(t, t.addresses[m].contact_id);
            let b = has_mail(t, t.addresses[n].contact_id);
            &&& b ==> a
            &&& a == b && list[i].conversation_count == list[j].conversation_count
                ==> list[i].message_count >= list[j].message_count
            &&& a == b && list[i].conversation_count == list[j].conversation_count
                && list[i].message_count == list[j].message_count ==> text_le(
                list[i].email,
                list[j].email,
            )
        }),
{
    let all = choose|all: Seq<Standing>| #[trigger]
        is_ranking(t, q, all) && list == all.take(
            listed_count(q.limit, all.len()) as int,
        ).map_values(|s: Standing| s.contact);
    assert(ranks_before(all[i], all[j]));
    lemma_stands(t, q, all, i);
    lemma_stands(t, q, all, j);
    lemma_stands_as(t, q, all, i, m);
    lemma_stands_as(t, q, all, j, n);
    lemma_has_mail(t, t.addresses[m].contact_id);
    lemma_has_mail(t, t.addresses[n].contact_id);
}

proof fn lemma_stands_as(t: Tables, q: QueryText, all: Seq<Standing>, i: int, m: int)
    requires
        sound(t),
        is_ranking(t, q, all),
        0 <= i < all.len(),
        0 <= m < t.addresses.len(),
        t.addresses[m].email == all[i].contact.email,
    ensures
        all[i].active == is_active(t, t.addresses[m].contact_id),
{
    broadcast use vstd::seq_lib::group_to_multiset_ensures;

    let s = all[i];
    let p = |s: Standing| asks_for(q, s.contact);
    assert(all.contains(s));
    assert(matching(t, q).to_multiset().count(s) > 0);
    assert(matching(t, q).contains(s));
    standings(t).lemma_filter_contains_rev(p, s);
    let k = choose|k: int| 0 <= k < standings(t).len() && standings(t)[k] == s;
    assert(s == standing(t, t.addresses[k]));
    assert(k == m) by {
        assert(t.addresses[k].email == t.addresses[m].email);
    }
    assert(has_contact(t.contacts, t.addresses[m].contact_id));
}

/// Texts are ordered by their first characters that differ; the beginning of a text comes before
/// the text.
pub proof fn law_order_of_texts(
    same: Seq<char>,
    x: char,
    y: char,
    a: Seq<char>,
    b: Seq<char>,
)
    requires
        x < y,
    ensures
        text_le(same + seq![x] + a, same + seq![y] + b),
        !text_le(same + seq![y] + b, same + seq![x] + a),
        text_le(same, same + a),
        a.len() > 0 ==> !text_le(same + a, same),
    decreases same.len(),
{
    let u = same + seq![x] + a;
    let v = same + seq![y] + b;
    if same.len() > 0 {
        let rest = same.drop_first();
        law_order_of_texts(rest, x, y, a, b);
        assert(u.drop_first() =~= rest + seq![x] + a);
        assert(v.drop_first() =~= rest + seq![y] + b);
        assert((same + a).drop_first() =~= rest + a);
        assert(u[0] == same[0]);
        assert(v[0] == same[0]);
        assert((same + a)[0] == same[0]);
    } else {
        assert(u[0] == x);
        assert(v[0] == y);
    }
}

} // verus!
