//! What a query for contacts is made of and what its columns show, told by what was asked.
use vstd::prelude::*;

use crate::classify::{kind_name, SenderKind};
use crate::cli::{
    contact_kind, filter_list, first_unknown, law_query_lists, query_result, ArgsText, CliFault,
};
use crate::columns::{
    all_columns, column_name, column_result, column_value, columns_result, csv_columns,
    header_names, law_column_by_its_name, ContactColumn,
};
use crate::listing::{contains_one_of, is_one_between, lemma_listed, lemma_mentioned};
use crate::numbers::decimal_int;
use crate::pieces::{has_any, split_on};
use crate::ranking::{QueryText, SummaryText};
use crate::sifting::{is_term_in, law_terms_stand_between_commas, lemma_has_one};
use crate::terms::all_terms;
use crate::text::{has_text, lower_text, trimmed};

verus! {

// ---------------------------------------------------------------------------------------
// Queries
// ---------------------------------------------------------------------------------------

/// Whether a word is the name of a kind of sender.
pub open spec fn is_kind_name(word: Seq<char>) -> bool {
    exists|k: SenderKind| #[trigger] kind_name(k) == word
}

/// Whether a word is a role that contacts can have.
pub open spec fn is_role_name(word: Seq<char>) -> bool {
    word == "sender"@ || word == "recipient"@ || word == "to"@ || word == "cc"@ || word == "bcc"@
}

/// Whether an optional word is given and not blank.
pub open spec fn is_given(v: Option<Seq<char>>) -> bool {
    v matches Some(s) && trimmed(s).len() > 0
}

/// Whether an optional list of a query has this text as one of its terms.
pub open spec fn has_term(list: Option<Seq<char>>, x: Seq<char>) -> bool {
    list matches Some(l) && is_one_between(x, l)
}

/// Whether a text contains one of the terms of an optional list of a query.
pub open spec fn has_part(list: Option<Seq<char>>, x: Seq<char>) -> bool {
    list matches Some(l) && contains_one_of(x, l)
}

/// Whether a text contains one of the terms of given lists.
pub open spec fn contains_given(lists: Seq<Seq<char>>, x: Seq<char>) -> bool {
    exists|t: Seq<char>| #[trigger] has_text(x, t) && is_term_in(lists, t)
}

proof fn lemma_kind_names(word: Seq<char>)
    ensures
        contact_kind(word) <==> is_kind_name(word),
{
    assert(kind_name(SenderKind::Person) == "person"@);
    assert(kind_name(SenderKind::NoReply) == "no_reply"@);
    assert(kind_name(SenderKind::Bulk) == "bulk"@);
    assert(kind_name(SenderKind::Newsletter) == "newsletter"@);
    assert(kind_name(SenderKind::Promotional) == "promotional"@);
    assert(kind_name(SenderKind::Automated) == "automated"@);
    assert(kind_name(SenderKind::Invalid) == "invalid"@);
    if is_kind_name(word) {
        let k = choose|k: SenderKind| #[trigger] kind_name(k) == word;
        match k {
            SenderKind::Person => {},
            SenderKind::NoReply => {},
            SenderKind::Bulk => {},
            SenderKind::Newsletter => {},
            SenderKind::Promotional => {},
            SenderKind::Automated => {},
            SenderKind::Invalid => {},
        }
    }
}

proof fn lemma_first_unknown(kinds: Seq<Seq<char>>)
    ensures
        first_unknown(kinds) matches Some(k) ==> kinds.contains(k) && !is_kind_name(k),
        first_unknown(kinds) is None ==> forall|k: Seq<char>| #[trigger]
            kinds.contains(k) ==> is_kind_name(k),
    decreases kinds.len(),
{
    if kinds.len() > 0 {
        let d = kinds.drop_last();
        lemma_first_unknown(d);
        lemma_kind_names(kinds.last());
        if let Some(k) = first_unknown(d) {
            let i = choose|i: int| 0 <= i < d.len() && d[i] == k;
            assert(kinds[i] == k);
        } else if is_kind_name(kinds.last()) {
            assert forall|k: Seq<char>| #[trigger] kinds.contains(k) implies is_kind_name(k) by {
                let i = choose|i: int| 0 <= i < kinds.len() && kinds[i] == k;
                if i < d.len() {
                    assert(d[i] == k);
                    assert(d.contains(k));
                }
            }
        } else {
            assert(kinds[kinds.len() - 1] == kinds.last());
        }
    }
}

proof fn lemma_filter(lists: Seq<Seq<char>>, x: Seq<char>)
    ensures
        has_term(filter_list(lists), x) <==> is_term_in(lists, x),
        has_part(filter_list(lists), x) <==> contains_given(lists, x),
        filter_list(lists) is Some <==> exists|t: Seq<char>| #[trigger] is_term_in(lists, t),
{
    let l = filter_list(lists);
    let all = all_terms(lists);
    law_query_lists(lists, x);
    law_terms_stand_between_commas(lists, x);
    lemma_listed(l, x);
    lemma_mentioned(l, x);
    lemma_has_one(x, all);
    if has_any(x, all) {
        let t = choose|t: Seq<char>| #[trigger] has_text(x, t) && all.contains(t);
        law_terms_stand_between_commas(lists, t);
        assert(has_text(x, t) && is_term_in(lists, t));
    }
    if contains_given(lists, x) {
        let t = choose|t: Seq<char>| #[trigger] has_text(x, t) && is_term_in(lists, t);
        law_terms_stand_between_commas(lists, t);
        assert(has_text(x, t) && all.contains(t));
    }
    if all.len() > 0 {
        assert(all.contains(all[0]));
        law_terms_stand_between_commas(lists, all[0]);
        assert(is_term_in(lists, all[0]));
    }
    if exists|t: Seq<char>| #[trigger] is_term_in(lists, t) {
        let t = choose|t: Seq<char>| #[trigger] is_term_in(lists, t);
        law_terms_stand_between_commas(lists, t);
        assert(all.contains(t));
    }
}

/// Each thing that is asked for reaches the query in its own place: the limit, unless all are
/// asked for; a kind, a role and a domain as words in lower case; and the terms of each list. Who
/// asks for all or for a kind asks for what is not a person too.
pub proof fn law_what_is_asked_is_queried(a: ArgsText, x: Seq<char>)
    ensures
        query_result(a) matches Ok(q) ==> {
            &&& a.all ==> q.limit == 100_000
            &&& !a.all ==> q.limit == a.limit
            &&& q.include_filtered <==> a.all || a.include_filtered || a.kind is Some
            &&& a.kind is None ==> q.kind is None
            &&& a.kind matches Some(k) ==> q.kind == Some(lower_text(trimmed(k)))
            &&& a.role is None ==> q.role is None
            &&& a.role matches Some(r) ==> q.role == Some(lower_text(trimmed(r)))
            &&& is_given(a.domain) ==> q.domain == Some(lower_text(trimmed(a.domain->0)))
            &&& !is_given(a.domain) ==> q.domain is None
            &&& has_term(q.exclude_kinds, x) <==> is_term_in(a.exclude_kind, x)
            &&& has_term(q.exclude_emails, x) <==> is_term_in(a.exclude_email, x)
            &&& has_term(q.exclude_domains, x) <==> is_term_in(a.exclude_domain, x)
            &&& has_part(q.domain_contains, x) <==> contains_given(a.domain_contains, x)
            &&& has_part(q.exclude_email_contains, x) <==> contains_given(
                a.exclude_email_contains,
                x,
            )
            &&& has_part(q.exclude_domain_contains, x) <==> contains_given(
                a.exclude_domain_contains,
                x,
            )
            &&& q.domain_contains is Some <==> exists|t: Seq<char>| #[trigger]
                is_term_in(a.domain_contains, t)
        },
{
    lemma_filter(a.exclude_kind, x);
    lemma_filter(a.exclude_email, x);
    lemma_filter(a.exclude_domain, x);
    lemma_filter(a.domain_contains, x);
    lemma_filter(a.exclude_email_contains, x);
    lemma_filter(a.exclude_domain_contains, x);
}

/// What is refused: a limit below one, unless all are asked for; a kind that there is not, as the
/// one to list or one to leave out; a domain that is given whole and in part; a role that there is
/// not. The first of these counts, and everything else is accepted.
pub proof fn law_what_is_refused(a: ArgsText)
    ensures
        ({
            let r = query_result(a);
            let low = !a.all && a.limit < 1;
            let kind = a.kind matches Some(k) && !is_kind_name(lower_text(trimmed(k)));
            let left_out = exists|t: Seq<char>| #[trigger]
                is_term_in(a.exclude_kind, t) && !is_kind_name(t);
            let twice = is_given(a.domain) && exists|t: Seq<char>| #[trigger]
                is_term_in(a.domain_contains, t);
            let role = a.role matches Some(w) && !is_role_name(lower_text(trimmed(w)));
            &&& r is Ok <==> !low && !kind && !left_out && !twice && !role
            &&& low <==> r == Err::<QueryText, CliFault>(CliFault::BadLimit)
            &&& !low && kind ==> r == Err::<QueryText, CliFault>(
                CliFault::UnknownKind(lower_text(trimmed(a.kind->0))),
            )
            &&& !low && !kind && left_out ==> (r matches Err(CliFault::UnknownExcludedKind(t))
                && is_term_in(a.exclude_kind, t) && !is_kind_name(t))
            &&& !low && !kind && !left_out && twice ==> r == Err::<QueryText, CliFault>(
                CliFault::DomainTwice,
            )
            &&& !low && !kind && !left_out && !twice && role ==> r == Err::<QueryText, CliFault>(
                CliFault::UnknownRole(lower_text(trimmed(a.role->0))),
            )
        }),
{
    if let Some(k) = a.kind {
        lemma_kind_names(lower_text(trimmed(k)));
    }
    let all = all_terms(a.exclude_kind);
    lemma_first_unknown(all);
    if let Some(t) = first_unknown(all) {
        law_terms_stand_between_commas(a.exclude_kind, t);
        assert(is_term_in(a.exclude_kind, t) && !is_kind_name(t));
    } else {
        assert forall|t: Seq<char>| #[trigger] is_term_in(a.exclude_kind, t) implies is_kind_name(
            t,
        ) by {
            law_terms_stand_between_commas(a.exclude_kind, t);
            assert(all.contains(t));
        }
    }
    lemma_filter(a.domain_contains, Seq::empty());
}

// ---------------------------------------------------------------------------------------
// Columns
// ---------------------------------------------------------------------------------------

/// Under its name, each column shows what the name says of a contact.
pub proof fn law_columns_show(c: ContactColumn, s: SummaryText)
    ensures
        ({
            let name = column_name(c);
            let shown = column_value(c, s);
            &&& name == "email"@ ==> shown == s.email
            &&& name == "display_name"@ && s.display_name is Some ==> shown == s.display_name->0
            &&& name == "display_name"@ && s.display_name is None ==> shown.len() == 0
            &&& name == "domain"@ ==> shown == s.domain
            &&& name == "kind"@ ==> shown == s.sender_kind
            &&& name == "messages"@ ==> shown == decimal_int(s.message_count)
            &&& name == "sent"@ ==> shown == decimal_int(s.sent_count)
            &&& name == "to"@ ==> shown == decimal_int(s.direct_count)
            &&& name == "cc"@ ==> shown == decimal_int(s.cc_count)
            &&& name == "bcc"@ ==> shown == decimal_int(s.bcc_count)
            &&& name == "conversations"@ ==> shown == decimal_int(s.conversation_count)
            &&& name == "rank_score"@ ==> shown == decimal_int(s.rank_score)
            &&& name == "email"@ || name == "display_name"@ || name == "domain"@ || name == "kind"@
                || name == "messages"@ || name == "sent"@ || name == "to"@ || name == "cc"@ || name
                == "bcc"@ || name == "conversations"@ || name == "rank_score"@
        }),
{
    law_column_by_its_name(c);
    law_column_by_its_name(ContactColumn::Email);
    law_column_by_its_name(ContactColumn::DisplayName);
    law_column_by_its_name(ContactColumn::Domain);
    law_column_by_its_name(ContactColumn::Kind);
    law_column_by_its_name(ContactColumn::Messages);
    law_column_by_its_name(ContactColumn::Sent);
    law_column_by_its_name(ContactColumn::To);
    law_column_by_its_name(ContactColumn::Cc);
    law_column_by_its_name(ContactColumn::Bcc);
    law_column_by_its_name(ContactColumn::Conversations);
    law_column_by_its_name(ContactColumn::RankScore);
    match c {
        ContactColumn::Email => {},
        ContactColumn::DisplayName => {},
        ContactColumn::Domain => {},
        ContactColumn::Kind => {},
        ContactColumn::Messages => {},
        ContactColumn::Sent => {},
        ContactColumn::To => {},
        ContactColumn::Cc => {},
        ContactColumn::Bcc => {},
        ContactColumn::Conversations => {},
        ContactColumn::RankScore => {},
    }
}

/// Whether a word stands for a column.
pub open spec fn is_word_for(w: Seq<char>, c: ContactColumn) -> bool {
    match c {
        ContactColumn::Email => w == "email"@,
        ContactColumn::DisplayName => w == "display_name"@ || w == "display-name"@ || w == "name"@,
        ContactColumn::Domain => w == "domain"@,
        ContactColumn::Kind => w == "kind"@ || w == "sender_kind"@ || w == "sender-kind"@,
        ContactColumn::Messages => w == "messages"@ || w == "message_count"@ || w
            == "message-count"@,
        ContactColumn::Sent => w == "sent"@ || w == "sent_count"@ || w == "sent-count"@,
        ContactColumn::To => w == "to"@ || w == "direct"@ || w == "direct_count"@ || w
            == "direct-count"@,
        ContactColumn::Cc => w == "cc"@ || w == "cc_count"@ || w == "cc-count"@,
        ContactColumn::Bcc => w == "bcc"@ || w == "bcc_count"@ || w == "bcc-count"@,
        ContactColumn::Conversations => w == "conversations"@ || w == "conversation_count"@ || w
            == "conversation-count"@,
        ContactColumn::RankScore => w == "rank_score"@ || w == "rank-score"@ || w == "score"@,
    }
}

/// What tells the words for columns apart: their lengths and two of their characters.
proof fn lemma_words()
    ensures
        "email"@.len() == 5 && "email"@[0] == 'e',
        "display_name"@.len() == 12 && "display_name"@[2] == 's',
        "display-name"@.len() == 12 && "display-name"@[2] == 's',
        "name"@.len() == 4 && "name"@[0] == 'n',
        "domain"@.len() == 6 && "domain"@[1] == 'o',
        "kind"@.len() == 4 && "kind"@[0] == 'k',
        "sender_kind"@.len() == 11,
        "sender-kind"@.len() == 11,
        "messages"@.len() == 8 && "messages"@[0] == 'm',
        "message_count"@.len() == 13 && "message_count"@[0] == 'm',
        "message-count"@.len() == 13 && "message-count"@[0] == 'm',
        "sent"@.len() == 4 && "sent"@[0] == 's',
        "sent_count"@.len() == 10 && "sent_count"@[0] == 's',
        "sent-count"@.len() == 10 && "sent-count"@[0] == 's',
        "to"@.len() == 2 && "to"@[0] == 't',
        "direct"@.len() == 6 && "direct"@[1] == 'i',
        "direct_count"@.len() == 12 && "direct_count"@[2] == 'r',
        "direct-count"@.len() == 12 && "direct-count"@[2] == 'r',
        "cc"@.len() == 2 && "cc"@[0] == 'c',
        "cc_count"@.len() == 8 && "cc_count"@[0] == 'c',
        "cc-count"@.len() == 8 && "cc-count"@[0] == 'c',
        "bcc"@.len() == 3,
        "bcc_count"@.len() == 9,
        "bcc-count"@.len() == 9,
        "conversations"@.len() == 13 && "conversations"@[0] == 'c',
        "conversation_count"@.len() == 18,
        "conversation-count"@.len() == 18,
        "rank_score"@.len() == 10 && "rank_score"@[0] == 'r',
        "rank-score"@.len() == 10 && "rank-score"@[0] == 'r',
        "score"@.len() == 5 && "score"@[0] == 's',
{
    reveal_strlit("email");
    reveal_strlit("display_name");
    reveal_strlit("display-name");
    reveal_strlit("name");
    reveal_strlit("domain");
    reveal_strlit("kind");
    reveal_strlit("sender_kind");
    reveal_strlit("sender-kind");
    reveal_strlit("messages");
    reveal_strlit("message_count");
    reveal_strlit("message-count");
    reveal_strlit("sent");
    reveal_strlit("sent_count");
    reveal_strlit("sent-count");
    reveal_strlit("to");
    reveal_strlit("direct");
    reveal_strlit("direct_count");
    reveal_strlit("direct-count");
    reveal_strlit("cc");
    reveal_strlit("cc_count");
    reveal_strlit("cc-count");
    reveal_strlit("bcc");
    reveal_strlit("bcc_count");
    reveal_strlit("bcc-count");
    reveal_strlit("conversations");
    reveal_strlit("conversation_count");
    reveal_strlit("conversation-count");
    reveal_strlit("rank_score");
    reveal_strlit("rank-score");
    reveal_strlit("score");
}

/// A column is asked for by one of its words, in upper or lower case and with or without space
/// around it; a blank is no column, and any other word is unknown.
pub proof fn law_columns_by_word(asked: Seq<char>, c: ContactColumn)
    ensures
        ({
            let w = lower_text(trimmed(asked));
            let r = column_result(asked);
            &&& is_word_for(w, c) ==> r == Ok::<ContactColumn, CliFault>(c)
            &&& r == Ok::<ContactColumn, CliFault>(c) ==> is_word_for(w, c)
            &&& r matches Err(e) ==> (if w.len() == 0 {
                e == CliFault::EmptyColumn
            } else {
                e == CliFault::UnknownColumn(w)
            })
        }),
{
    lemma_words();
}

/// Columns that are asked for by a list of words are those of the words, in their order; if one of
/// the words stands for no column, the first such one is refused.
pub proof fn law_columns_by_list(asked: Seq<char>, i: int)
    requires
        0 <= i < split_on(asked, ',').len(),
    ensures
        ({
            let words = split_on(asked, ',');
            let r = csv_columns(Some(asked), None);
            &&& r matches Ok(list) ==> list.len() == words.len() && column_result(words[i]) == Ok::<
                ContactColumn,
                CliFault,
            >(list[i])
            &&& column_result(words[i]) is Err && (forall|k: int|
                0 <= k < i ==> column_result(#[trigger] words[k]) is Ok) ==> r == Err::<
                Seq<ContactColumn>,
                CliFault,
            >(column_result(words[i])->Err_0)
        }),
{
    lemma_columns(split_on(asked, ','), i);
}

proof fn lemma_columns(words: Seq<Seq<char>>, i: int)
    requires
        0 <= i < words.len(),
    ensures
        columns_result(words) matches Ok(list) ==> list.len() == words.len() && column_result(
            words[i],
        ) == Ok::<ContactColumn, CliFault>(list[i]),
        column_result(words[i]) is Err && (forall|k: int|
            0 <= k < i ==> column_result(#[trigger] words[k]) is Ok) ==> columns_result(words)
            == Err::<Seq<ContactColumn>, CliFault>(column_result(words[i])->Err_0),
    decreases words.len(),
{
    let d = words.drop_last();
    if i < d.len() {
        assert(d[i] == words[i]);
        lemma_columns(d, i);
        if forall|k: int| 0 <= k < i ==> column_result(#[trigger] words[k]) is Ok {
            assert forall|k: int| 0 <= k < i implies column_result(#[trigger] d[k]) is Ok by {
                assert(d[k] == words[k]);
            }
        }
    } else {
        if d.len() > 0 {
            lemma_columns(d, 0);
        } else {
            assert(columns_result(d) == Ok::<Seq<ContactColumn>, CliFault>(Seq::empty()));
        }
        if forall|k: int| 0 <= k < i ==> column_result(#[trigger] words[k]) is Ok {
            lemma_all_columns(d, words);
        }
    }
}

proof fn lemma_all_columns(d: Seq<Seq<char>>, words: Seq<Seq<char>>)
    requires
        d.len() <= words.len(),
        d == words.take(d.len() as int),
        forall|k: int| 0 <= k < d.len() ==> column_result(#[trigger] words[k]) is Ok,
    ensures
        columns_result(d) is Ok,
    decreases d.len(),
{
    if d.len() > 0 {
        let e = d.drop_last();
        assert(e =~= words.take(e.len() as int));
        assert(d.last() == words[d.len() - 1]);
        lemma_all_columns(e, words);
    }
}

/// Without a list, a preset names the columns, and without a preset all of them are written; both
/// at once are refused, and so is a preset that there is not.
pub proof fn law_presets(asked: Seq<char>, other: Seq<char>)
    ensures
        ({
            let w = lower_text(trimmed(asked));
            let r = csv_columns(None, Some(asked));
            let all = seq![
                "email"@,
                "display_name"@,
                "domain"@,
                "kind"@,
                "messages"@,
                "sent"@,
                "to"@,
                "cc"@,
                "bcc"@,
                "conversations"@,
                "rank_score"@,
            ];
            &&& csv_columns(None, None) matches Ok(list) && header_names(list) == all
            &&& w == "full"@ ==> (r matches Ok(list) && header_names(list) == all)
            &&& w == "address-book"@ || w == "address_book"@ ==> (r matches Ok(list)
                && header_names(list) == seq!["email"@, "display_name"@, "domain"@, "kind"@])
            &&& w == "ranked"@ ==> (r matches Ok(list) && header_names(list) == seq![
                "email"@,
                "display_name"@,
                "domain"@,
                "kind"@,
                "messages"@,
                "conversations"@,
                "rank_score"@,
            ])
            &&& w != "full"@ && w != "address-book"@ && w != "address_book"@ && w != "ranked"@ ==> r
                == Err::<Seq<ContactColumn>, CliFault>(CliFault::UnknownPreset(w))
            &&& csv_columns(Some(other), Some(asked)) == Err::<Seq<ContactColumn>, CliFault>(
                CliFault::ColumnsAndPreset,
            )
        }),
{
    reveal_strlit("full");
    reveal_strlit("address-book");
    reveal_strlit("address_book");
    reveal_strlit("ranked");
    assert("full"@.len() == 4);
    assert("address-book"@.len() == 12);
    assert("address_book"@.len() == 12);
    assert("ranked"@.len() == 6);
    assert(header_names(all_columns()) =~= seq![
        "email"@,
        "display_name"@,
        "domain"@,
        "kind"@,
        "messages"@,
        "sent"@,
        "to"@,
        "cc"@,
        "bcc"@,
        "conversations"@,
        "rank_score"@,
    ]);
}

} // verus!
