//! What the reports and lines tell, told by the numbers and texts that they are about.
use vstd::prelude::*;

use crate::clean::{
    clean_error_text, clean_list_result, clean_result, explanation, reason_text, report_text,
    CleanFault, CleanText, DropReason, DroppedText, Progress, Summary,
};
use crate::cli::{cli_error_text, query_result, ArgsText, CliFault};
use crate::columns::{csv_columns, csv_text};
use crate::csv::{rows_of, CsvError};
use crate::listing::{law_query_options, passes};
use crate::lists::{lemma_filter_none, lemma_filter_step};
use crate::numbers::{decimal, decimal_int};
use crate::pieces::{join_with, lemma_split_single, lines_of, split_on};
use crate::ranking::{
    asks_for, is_listing, matching, standing, standings, QueryText, Standing, SummaryText,
};
use crate::reading::{lacks, lemma_part_of_join, lemma_split_after};
use crate::reports::{
    answers, asked_columns, contact_line, contact_lines, contacts_summary_text, contacts_text,
    duration_text, filter_labels, kind_lines, label, number_line, refusal, scan_report_text,
    stats_report_text,
};
use crate::scanner::ScanSummary;
use crate::stats::{tally_text, Stats};
use crate::tables::{AddressRowText, Tables};
use crate::text::{begins_with, has_text, occurs_at};
use crate::words::law_number_reads_back;

verus! {

proof fn lemma_has_self(a: Seq<char>)
    ensures
        has_text(a, a),
{
    assert(a.subrange(0, a.len() as int) =~= a);
    assert(occurs_at(a, a, 0));
}

/// What a text contains, it still contains when something is put behind it.
proof fn lemma_grows(a: Seq<char>, b: Seq<char>)
    ensures
        has_text(a + b, b),
        forall|x: Seq<char>| #[trigger] has_text(a, x) ==> has_text(a + b, x),
{
    let n = a.len() as int;
    assert((a + b).subrange(n, n + b.len()) =~= b);
    assert(occurs_at(a + b, b, n));
    assert forall|x: Seq<char>| #[trigger] has_text(a, x) implies has_text(a + b, x) by {
        let i = choose|i: int| #[trigger] occurs_at(a, x, i);
        assert((a + b).subrange(i, i + x.len()) =~= a.subrange(i, i + x.len()));
        assert(occurs_at(a + b, x, i));
    }
}

// ---------------------------------------------------------------------------------------
// Numbers
// ---------------------------------------------------------------------------------------

/// The report on the index tells each number under its own name, and the number of contacts of
/// each kind.
pub proof fn law_stats_are_told(s: Stats, i: int)
    ensures
        ({
            let text = stats_report_text(s);
            let tally = tally_text(s.kind_counts@);
            &&& has_text(text, "scans: "@ + decimal_int(s.scans as int) + "\n"@)
            &&& has_text(text, "messages: "@ + decimal_int(s.messages as int) + "\n"@)
            &&& has_text(text, "domains: "@ + decimal_int(s.domains as int) + "\n"@)
            &&& has_text(text, "messages_with_attachments: "@
                + decimal_int(s.attachments_flagged as int) + "\n"@)
            &&& has_text(text, "contacts_total: "@ + decimal_int(s.contacts as int) + "\n"@)
            &&& has_text(text, "contacts_valid: "@ + decimal_int(s.valid_contacts as int) + "\n"@)
            &&& has_text(text, "contacts_filtered: "@ + decimal_int(s.filtered_contacts as int)
                + "\n"@)
            &&& has_text(text, "contacts_as_senders: "@ + decimal_int(s.sender_contacts as int)
                + "\n"@)
            &&& has_text(text, "contacts_as_recipients: "@
                + decimal_int(s.recipient_contacts as int) + "\n"@)
            &&& has_text(text, "contacts_to: "@ + decimal_int(s.to_contacts as int) + "\n"@)
            &&& has_text(text, "contacts_cc: "@ + decimal_int(s.cc_contacts as int) + "\n"@)
            &&& has_text(text, "contacts_bcc: "@ + decimal_int(s.bcc_contacts as int) + "\n"@)
            &&& 0 <= i < tally.len() ==> has_text(
                text,
                "  "@ + tally[i].0 + ": "@ + decimal_int(tally[i].1) + "\n"@,
            )
        }),
{
    let tally = tally_text(s.kind_counts@);
    let tail = "\nUseful exports:\n  cargo run -- contacts --csv --preset address-book > valid-contacts.csv\n  cargo run -- contacts --all --csv --preset address-book > all-contacts.csv\n  cargo run -- contacts --role cc --all --csv --preset address-book > cc-contacts.csv\n"@;
    let kinds = if tally.len() > 0 {
        "\ncontacts_by_kind:\n"@ + kind_lines(tally)
    } else {
        Seq::empty()
    };
    let p0 = number_line("scans: "@, s.scans as int);
    lemma_has_self(p0);
    let p1 = p0 + number_line("messages: "@, s.messages as int);
    lemma_grows(p0, number_line("messages: "@, s.messages as int));
    let p2 = p1 + number_line("domains: "@, s.domains as int);
    lemma_grows(p1, number_line("domains: "@, s.domains as int));
    let p3 = p2 + number_line("messages_with_attachments: "@, s.attachments_flagged as int);
    lemma_grows(p2, number_line("messages_with_attachments: "@, s.attachments_flagged as int));
    let p4 = p3 + "\n"@;
    lemma_grows(p3, "\n"@);
    let p5 = p4 + number_line("contacts_total: "@, s.contacts as int);
    lemma_grows(p4, number_line("contacts_total: "@, s.contacts as int));
    let p6 = p5 + number_line("contacts_valid: "@, s.valid_contacts as int);
    lemma_grows(p5, number_line("contacts_valid: "@, s.valid_contacts as int));
    let p7 = p6 + number_line("contacts_filtered: "@, s.filtered_contacts as int);
    lemma_grows(p6, number_line("contacts_filtered: "@, s.filtered_contacts as int));
    let p8 = p7 + number_line("contacts_as_senders: "@, s.sender_contacts as int);
    lemma_grows(p7, number_line("contacts_as_senders: "@, s.sender_contacts as int));
    let p9 = p8 + number_line("contacts_as_recipients: "@, s.recipient_contacts as int);
    lemma_grows(p8, number_line("contacts_as_recipients: "@, s.recipient_contacts as int));
    let p10 = p9 + number_line("contacts_to: "@, s.to_contacts as int);
    lemma_grows(p9, number_line("contacts_to: "@, s.to_contacts as int));
    let p11 = p10 + number_line("contacts_cc: "@, s.cc_contacts as int);
    lemma_grows(p10, number_line("contacts_cc: "@, s.cc_contacts as int));
    let p12 = p11 + number_line("contacts_bcc: "@, s.bcc_contacts as int);
    lemma_grows(p11, number_line("contacts_bcc: "@, s.bcc_contacts as int));
    let p13 = p12 + kinds;
    lemma_grows(p12, kinds);
    let p14 = p13 + tail;
    lemma_grows(p13, tail);
    assert(stats_report_text(s) == p14);
    if 0 <= i < tally.len() {
        lemma_kind_line(tally, i);
        lemma_behind("\ncontacts_by_kind:\n"@, kind_lines(tally));
        lemma_behind(p12, kinds);
    }
}

/// What a text contains, it still contains when something is put before it.
proof fn lemma_behind(a: Seq<char>, b: Seq<char>)
    ensures
        forall|x: Seq<char>| #[trigger] has_text(b, x) ==> has_text(a + b, x),
{
    let n = a.len() as int;
    assert forall|x: Seq<char>| #[trigger] has_text(b, x) implies has_text(a + b, x) by {
        let i = choose|i: int| #[trigger] occurs_at(b, x, i);
        assert((a + b).subrange(n + i, n + i + x.len()) =~= b.subrange(i, i + x.len()));
        assert(occurs_at(a + b, x, n + i));
    }
}

proof fn lemma_kind_line(list: Seq<(Seq<char>, int)>, i: int)
    requires
        0 <= i < list.len(),
    ensures
        has_text(kind_lines(list), "  "@ + list[i].0 + ": "@ + decimal_int(list[i].1) + "\n"@),
    decreases list.len(),
{
    let d = list.drop_last();
    let last = list.last();
    lemma_grows(kind_lines(d), number_line("  "@ + last.0 + ": "@, last.1));
    if i < d.len() {
        assert(d[i] == list[i]);
        lemma_kind_line(d, i);
    }
}

/// The report on a scan tells each of its numbers under its own name, the database and the time
/// that it took.
pub proof fn law_scan_is_told(s: ScanSummary, db: Seq<char>, seconds: nat, millis: nat)
    ensures
        ({
            let text = scan_report_text(s, db, seconds, millis);
            &&& has_text(text, "Database: "@ + db + "\n"@)
            &&& has_text(text, "Elapsed: "@ + duration_text(seconds, millis) + "\n"@)
            &&& has_text(text, "Scan ID: "@ + decimal_int(s.scan_id as int) + "\n"@)
            &&& has_text(text, "Messages seen: "@ + decimal_int(s.messages_seen as int) + "\n"@)
            &&& has_text(text, "Messages indexed: "@ + decimal_int(s.messages_indexed as int)
                + "\n"@)
            &&& has_text(text, "Already indexed: "@
                + decimal_int(s.messages_already_indexed as int) + "\n"@)
            &&& has_text(text, "Malformed messages: "@ + decimal_int(s.malformed_messages as int)
                + "\n"@)
        }),
{
    let tail = "\nNext commands:\n1. cargo run -- stats\n2. cargo run -- contacts --all\n3. cargo run -- contacts --all --csv --preset address-book > all-contacts.csv\n"@;
    let p0 = "Mailgraph scan complete\n"@;
    lemma_has_self(p0);
    let p1 = p0 + "Database: "@;
    lemma_grows(p0, "Database: "@);
    let p2 = p1 + db;
    lemma_grows(p1, db);
    let p3 = p2 + "\n"@;
    lemma_grows(p2, "\n"@);
    let p4 = p3 + "Elapsed: "@;
    lemma_grows(p3, "Elapsed: "@);
    let p5 = p4 + duration_text(seconds, millis);
    lemma_grows(p4, duration_text(seconds, millis));
    let p6 = p5 + "\n"@;
    lemma_grows(p5, "\n"@);
    let p7 = p6 + number_line("Scan ID: "@, s.scan_id as int);
    lemma_grows(p6, number_line("Scan ID: "@, s.scan_id as int));
    let p8 = p7 + number_line("Messages seen: "@, s.messages_seen as int);
    lemma_grows(p7, number_line("Messages seen: "@, s.messages_seen as int));
    let p9 = p8 + number_line("Messages indexed: "@, s.messages_indexed as int);
    lemma_grows(p8, number_line("Messages indexed: "@, s.messages_indexed as int));
    let p10 = p9 + number_line("Already indexed: "@, s.messages_already_indexed as int);
    lemma_grows(p9, number_line("Already indexed: "@, s.messages_already_indexed as int));
    let p11 = p10 + number_line("Malformed messages: "@, s.malformed_messages as int);
    lemma_grows(p10, number_line("Malformed messages: "@, s.malformed_messages as int));
    let p12 = p11 + tail;
    lemma_grows(p11, tail);
    assert(scan_report_text(s, db, seconds, millis) == p12);
    let place = "Database: "@ + db + "\n"@;
    assert(p3 =~= p0 + place);
    lemma_grows(p0, place);
    let time = "Elapsed: "@ + duration_text(seconds, millis) + "\n"@;
    assert(p6 =~= p3 + time);
    lemma_grows(p3, time);
}

/// What stands above a list of contacts tells how many matched, how many are listed, the limit, and
/// each filter.
pub proof fn law_listing_is_told(q: QueryText, listed: nat, matched: int, i: int)
    requires
        0 <= i < filter_labels(q).len(),
    ensures
        ({
            let text = contacts_summary_text(q, listed, matched);
            &&& has_text(text, "Contacts matched: "@ + decimal_int(matched) + "\n"@)
            &&& has_text(text, "Contacts listed: "@ + decimal(listed) + "\n"@)
            &&& has_text(text, "Limit: "@ + decimal_int(q.limit as int) + "\n"@)
            &&& has_text(text, filter_labels(q)[i])
        }),
{
    let labels = join_with(filter_labels(q), ", "@);
    let p0 = number_line("Contacts matched: "@, matched);
    lemma_has_self(p0);
    let p1 = p0 + "Contacts listed: "@;
    lemma_grows(p0, "Contacts listed: "@);
    let p2 = p1 + decimal(listed);
    lemma_grows(p1, decimal(listed));
    let p3 = p2 + "\n"@;
    lemma_grows(p2, "\n"@);
    let p4 = p3 + number_line("Limit: "@, q.limit as int);
    lemma_grows(p3, number_line("Limit: "@, q.limit as int));
    let p5 = p4 + "Filters: "@;
    lemma_grows(p4, "Filters: "@);
    let p6 = p5 + labels;
    lemma_grows(p5, labels);
    let p7 = p6 + "\n\n"@;
    lemma_grows(p6, "\n\n"@);
    assert(contacts_summary_text(q, listed, matched) == p7);
    let count = "Contacts listed: "@ + decimal(listed) + "\n"@;
    assert(p3 =~= p0 + count);
    lemma_grows(p0, count);
    lemma_part_of_join(filter_labels(q), ", "@, i);
    lemma_behind(p5, labels);
}

/// One for an option that is set.
pub open spec fn set_one(v: Option<Seq<char>>) -> nat {
    if v is Some {
        1
    } else {
        0
    }
}

/// Each option of a query that is set has a label of its own; there is no other label, but for the
/// first, which tells whether only people are listed.
pub proof fn law_filters_are_labelled(q: QueryText)
    ensures
        ({
            let labels = filter_labels(q);
            &&& labels[0] == if q.include_filtered {
                "include_filtered=true"@
            } else {
                "valid_only=true"@
            }
            &&& q.kind matches Some(v) ==> labels.contains("kind="@ + v)
            &&& q.exclude_kinds matches Some(v) ==> labels.contains("exclude_kind="@ + v)
            &&& q.domain matches Some(v) ==> labels.contains("domain="@ + v)
            &&& q.domain_contains matches Some(v) ==> labels.contains("domain_contains="@ + v)
            &&& q.role matches Some(v) ==> labels.contains("role="@ + v)
            &&& q.exclude_emails matches Some(v) ==> labels.contains("exclude_email="@ + v)
            &&& q.exclude_email_contains matches Some(v)
                ==> labels.contains("exclude_email_contains="@ + v)
            &&& q.exclude_domains matches Some(v) ==> labels.contains("exclude_domain="@ + v)
            &&& q.exclude_domain_contains matches Some(v)
                ==> labels.contains("exclude_domain_contains="@ + v)
            &&& labels.len() == 1 + set_one(q.kind) + set_one(q.exclude_kinds) + set_one(q.domain)
                + set_one(q.domain_contains) + set_one(q.role) + set_one(q.exclude_emails)
                + set_one(q.exclude_email_contains) + set_one(q.exclude_domains)
                + set_one(q.exclude_domain_contains)
        }),
{
    let l0 = seq![
        if q.include_filtered {
            "include_filtered=true"@
        } else {
            "valid_only=true"@
        },
    ];
    let l1 = put(l0, "kind="@, q.kind);
    lemma_label(l0, "kind="@, q.kind);
    let l2 = put(l1, "exclude_kind="@, q.exclude_kinds);
    lemma_label(l1, "exclude_kind="@, q.exclude_kinds);
    let l3 = put(l2, "domain="@, q.domain);
    lemma_label(l2, "domain="@, q.domain);
    let l4 = put(l3, "domain_contains="@, q.domain_contains);
    lemma_label(l3, "domain_contains="@, q.domain_contains);
    let l5 = put(l4, "role="@, q.role);
    lemma_label(l4, "role="@, q.role);
    let l6 = put(l5, "exclude_email="@, q.exclude_emails);
    lemma_label(l5, "exclude_email="@, q.exclude_emails);
    let l7 = put(l6, "exclude_email_contains="@, q.exclude_email_contains);
    lemma_label(l6, "exclude_email_contains="@, q.exclude_email_contains);
    let l8 = put(l7, "exclude_domain="@, q.exclude_domains);
    lemma_label(l7, "exclude_domain="@, q.exclude_domains);
    let l9 = put(l8, "exclude_domain_contains="@, q.exclude_domain_contains);
    lemma_label(l8, "exclude_domain_contains="@, q.exclude_domain_contains);
    let all = filter_labels(q);
    lemma_labels_put(q);
    lemma_holds(all, "kind="@, q.kind);
    lemma_holds(all, "exclude_kind="@, q.exclude_kinds);
    lemma_holds(all, "domain="@, q.domain);
    lemma_holds(all, "domain_contains="@, q.domain_contains);
    lemma_holds(all, "role="@, q.role);
    lemma_holds(all, "exclude_email="@, q.exclude_emails);
    lemma_holds(all, "exclude_email_contains="@, q.exclude_email_contains);
    lemma_holds(all, "exclude_domain="@, q.exclude_domains);
    lemma_holds(all, "exclude_domain_contains="@, q.exclude_domain_contains);
}

/// The labels, one after the other.
proof fn lemma_labels_put(q: QueryText)
    ensures
        ({
            let l0 = seq![
                if q.include_filtered {
                    "include_filtered=true"@
                } else {
                    "valid_only=true"@
                },
            ];
            let l1 = put(l0, "kind="@, q.kind);
            let l2 = put(l1, "exclude_kind="@, q.exclude_kinds);
            let l3 = put(l2, "domain="@, q.domain);
            let l4 = put(l3, "domain_contains="@, q.domain_contains);
            let l5 = put(l4, "role="@, q.role);
            let l6 = put(l5, "exclude_email="@, q.exclude_emails);
            let l7 = put(l6, "exclude_email_contains="@, q.exclude_email_contains);
            let l8 = put(l7, "exclude_domain="@, q.exclude_domains);
            let l9 = put(l8, "exclude_domain_contains="@, q.exclude_domain_contains);
            filter_labels(q) == l9
        }),
{
    reveal(put);
}

/// A list of labels with one more, if its option is set.
#[verifier::opaque]
spec fn put(before: Seq<Seq<char>>, name: Seq<char>, v: Option<Seq<char>>) -> Seq<Seq<char>> {
    before + label(name, v)
}

proof fn lemma_label(before: Seq<Seq<char>>, name: Seq<char>, v: Option<Seq<char>>)
    requires
        before.len() > 0,
    ensures
        ({
            let after = put(before, name, v);
            &&& after.len() == before.len() + set_one(v)
            &&& after[0] == before[0]
            &&& v is Some ==> holds(after, name + v->0)
            &&& forall|x: Seq<char>| #[trigger] holds(before, x) ==> holds(after, x)
        }),
{
    reveal(holds);
    reveal(put);
    let after = put(before, name, v);
    if v is Some {
        assert(after[before.len() as int] == name + v->0);
    }
    assert forall|x: Seq<char>| #[trigger] holds(before, x) implies holds(after, x) by {
        let i = choose|i: int| 0 <= i < before.len() && before[i] == x;
        assert(after[i] == x);
    }
}

/// Whether a label is in a list.
#[verifier::opaque]
spec fn holds(labels: Seq<Seq<char>>, x: Seq<char>) -> bool {
    labels.contains(x)
}

proof fn lemma_holds(labels: Seq<Seq<char>>, name: Seq<char>, v: Option<Seq<char>>)
    requires
        v is Some ==> holds(labels, name + v->0),
    ensures
        v matches Some(x) ==> labels.contains(name + x),
{
    reveal(holds);
}

/// The names of the numbers, with and without the tab before them.
proof fn lemma_number_names()
    ensures
        "\tmessages="@ == seq!['\t'] + "messages="@ && lacks("messages="@, '\t'),
        "\tsent="@ == seq!['\t'] + "sent="@ && lacks("sent="@, '\t'),
        "\tto="@ == seq!['\t'] + "to="@ && lacks("to="@, '\t'),
        "\tcc="@ == seq!['\t'] + "cc="@ && lacks("cc="@, '\t'),
        "\tbcc="@ == seq!['\t'] + "bcc="@ && lacks("bcc="@, '\t'),
        "\tconversations="@ == seq!['\t'] + "conversations="@ && lacks("conversations="@, '\t'),
        "\tscore="@ == seq!['\t'] + "score="@ && lacks("score="@, '\t'),
{
    reveal_strlit("\tmessages=");
    reveal_strlit("messages=");
    assert("\tmessages="@ =~= seq!['\t'] + "messages="@);
    reveal_strlit("\tsent=");
    reveal_strlit("sent=");
    assert("\tsent="@ =~= seq!['\t'] + "sent="@);
    reveal_strlit("\tto=");
    reveal_strlit("to=");
    assert("\tto="@ =~= seq!['\t'] + "to="@);
    reveal_strlit("\tcc=");
    reveal_strlit("cc=");
    assert("\tcc="@ =~= seq!['\t'] + "cc="@);
    reveal_strlit("\tbcc=");
    reveal_strlit("bcc=");
    assert("\tbcc="@ =~= seq!['\t'] + "bcc="@);
    reveal_strlit("\tconversations=");
    reveal_strlit("conversations=");
    assert("\tconversations="@ =~= seq!['\t'] + "conversations="@);
    reveal_strlit("\tscore=");
    reveal_strlit("score=");
    assert("\tscore="@ =~= seq!['\t'] + "score="@);
}

/// One number more in a line.
proof fn lemma_next_field(v: Seq<char>, tabbed: Seq<char>, name: Seq<char>, n: int)
    requires
        tabbed == seq!['\t'] + name,
        lacks(name, '\t'),
    ensures
        split_on(v + tabbed + decimal_int(n), '\t') == split_on(v, '\t').push(
            name + decimal_int(n),
        ),
{
    let e = name + decimal_int(n);
    lemma_digits_lack_tab(n);
    assert(lacks(e, '\t'));
    lemma_split_after(v, '\t', e);
    assert(v + tabbed + decimal_int(n) =~= v + seq!['\t'] + e);
}

// ---------------------------------------------------------------------------------------
// Contacts
// ---------------------------------------------------------------------------------------

/// The line of a contact has tabs between its fields: the address, the name or a dash, the domain,
/// the kind, and then each number under its own name.
pub proof fn law_line_of_a_contact(c: SummaryText)
    requires
        lacks(c.email, '\t'),
        c.display_name matches Some(n) ==> lacks(n, '\t'),
        lacks(c.domain, '\t'),
        lacks(c.sender_kind, '\t'),
    ensures
        ({
            let line = contact_line(c);
            let name = match c.display_name {
                Some(n) => n,
                None => "-"@,
            };
            &&& line.last() == '\n'
            &&& split_on(line.drop_last(), '\t') == seq![
                c.email,
                name,
                c.domain,
                c.sender_kind,
                "messages="@ + decimal_int(c.message_count),
                "sent="@ + decimal_int(c.sent_count),
                "to="@ + decimal_int(c.direct_count),
                "cc="@ + decimal_int(c.cc_count),
                "bcc="@ + decimal_int(c.bcc_count),
                "conversations="@ + decimal_int(c.conversation_count),
                "score="@ + decimal_int(c.rank_score),
            ]
        }),
{
    let tab = seq!['\t'];
    reveal_strlit("\t");
    reveal_strlit("\n");
    reveal_strlit("-");
    assert("\t"@ =~= tab);
    let name = match c.display_name {
        Some(n) => n,
        None => "-"@,
    };
    let v = c.email + tab + name + tab + c.domain;
    lemma_split_single(c.email, '\t');
    lemma_split_after(c.email, '\t', name);
    lemma_split_after(c.email + tab + name, '\t', c.domain);
    let v0 = v + tab + c.sender_kind;
    lemma_split_after(v, '\t', c.sender_kind);
    lemma_number_names();
    let v1 = v0 + "\tmessages="@ + decimal_int(c.message_count);
    lemma_next_field(v0, "\tmessages="@, "messages="@, c.message_count);
    let v2 = v1 + "\tsent="@ + decimal_int(c.sent_count);
    lemma_next_field(v1, "\tsent="@, "sent="@, c.sent_count);
    let v3 = v2 + "\tto="@ + decimal_int(c.direct_count);
    lemma_next_field(v2, "\tto="@, "to="@, c.direct_count);
    let v4 = v3 + "\tcc="@ + decimal_int(c.cc_count);
    lemma_next_field(v3, "\tcc="@, "cc="@, c.cc_count);
    let v5 = v4 + "\tbcc="@ + decimal_int(c.bcc_count);
    lemma_next_field(v4, "\tbcc="@, "bcc="@, c.bcc_count);
    let v6 = v5 + "\tconversations="@ + decimal_int(c.conversation_count);
    lemma_next_field(v5, "\tconversations="@, "conversations="@, c.conversation_count);
    let v7 = v6 + "\tscore="@ + decimal_int(c.rank_score);
    lemma_next_field(v6, "\tscore="@, "score="@, c.rank_score);
    assert(contact_line(c) == v7 + "\n"@);
    assert(contact_line(c).drop_last() =~= v7);
    assert(split_on(v7, '\t') =~= seq![
                c.email,
                name,
                c.domain,
                c.sender_kind,
                "messages="@ + decimal_int(c.message_count),
                "sent="@ + decimal_int(c.sent_count),
                "to="@ + decimal_int(c.direct_count),
                "cc="@ + decimal_int(c.cc_count),
                "bcc="@ + decimal_int(c.bcc_count),
                "conversations="@ + decimal_int(c.conversation_count),
                "score="@ + decimal_int(c.rank_score),
            ]);
}

proof fn lemma_digits_lack_tab(n: int)
    ensures
        lacks(decimal_int(n), '\t'),
{
    law_number_reads_back(n);
    let d = decimal_int(n);
    if n >= 0 {
        assert forall|j: int| 0 <= j < d.len() implies #[trigger] d[j] != '\t' by {}
    } else {
        let r = d.drop_first();
        assert forall|j: int| 0 <= j < d.len() implies #[trigger] d[j] != '\t' by {
            if j > 0 {
                assert(r[j - 1] == d[j]);
            }
        }
    }
}

/// A list of contacts has a line for each contact, in the order of the list; an empty one says so,
/// and what stands above it comes first.
pub proof fn law_lines_of_contacts(
    q: QueryText,
    list: Seq<SummaryText>,
    c: SummaryText,
    matched: int,
)
    ensures
        contact_lines(list.push(c)) == contact_lines(list) + contact_line(c),
        contact_lines(Seq::empty()).len() == 0,
        list.len() > 0 ==> contacts_text(q, None, list, matched) == contacts_summary_text(
            q,
            list.len(),
            matched,
        ) + contact_lines(list),
        list.len() == 0 ==> contacts_text(q, None, list, matched) == contacts_summary_text(
            q,
            0,
            matched,
        ) + "No contacts matched.\n"@,
{
    assert(list.push(c).drop_last() =~= list);
}

// ---------------------------------------------------------------------------------------
// Cleaned lists
// ---------------------------------------------------------------------------------------

/// The report on a cleaned list tells each of its numbers under its own name.
pub proof fn law_cleaning_is_told(s: Summary)
    ensures
        ({
            let text = report_text(s);
            &&& begins_with(text, "Cleaned list: "@ + decimal(s.input_rows as nat) + " input, "@)
            &&& has_text(text, " input, "@ + decimal(s.kept_rows as nat) + " kept, "@)
            &&& has_text(text, " kept, "@ + decimal(s.filtered_rows as nat) + " filtered, "@)
            &&& has_text(text, " filtered, "@ + decimal(s.invalid_rows as nat) + " invalid, "@)
            &&& has_text(
                text,
                " invalid, "@ + decimal(s.duplicate_rows as nat) + " duplicates"@,
            )
        }),
{
    let n1 = decimal(s.input_rows as nat);
    let n2 = decimal(s.kept_rows as nat);
    let n3 = decimal(s.filtered_rows as nat);
    let n4 = decimal(s.invalid_rows as nat);
    let n5 = decimal(s.duplicate_rows as nat);
    let text = report_text(s);
    let a = "Cleaned list: "@ + n1;
    let x1 = " input, "@ + n2 + " kept, "@;
    let x2 = " kept, "@ + n3 + " filtered, "@;
    let x3 = " filtered, "@ + n4 + " invalid, "@;
    let x4 = " invalid, "@ + n5 + " duplicates"@;
    let b1 = n3 + " filtered, "@ + n4 + " invalid, "@ + n5 + " duplicates"@;
    let first = a + " input, "@;
    assert(text.subrange(0, first.len() as int) =~= first);
    lemma_around(text, a, x1, b1);
    lemma_around(
        text,
        a + " input, "@ + n2,
        x2,
        n4 + " invalid, "@ + n5 + " duplicates"@,
    );
    lemma_around(
        text,
        a + " input, "@ + n2 + " kept, "@ + n3,
        x3,
        n5 + " duplicates"@,
    );
    lemma_around(
        text,
        a + " input, "@ + n2 + " kept, "@ + n3 + " filtered, "@ + n4,
        x4,
        Seq::empty(),
    );
}

proof fn lemma_around(text: Seq<char>, a: Seq<char>, x: Seq<char>, b: Seq<char>)
    requires
        text =~= a + x + b,
    ensures
        has_text(text, x),
{
    let n = a.len() as int;
    assert(text.subrange(n, n + x.len()) =~= x);
    assert(occurs_at(text, x, n));
}

/// What is told of a row that was dropped: its line, its address, and the reason in words.
pub proof fn law_drop_is_told(d: DroppedText)
    ensures
        ({
            let text = explanation(d);
            &&& begins_with(text, "line "@ + decimal(d.line as nat) + ": dropped "@ + d.email
                + " ("@)
            &&& d.reason == DropReason::Invalid ==> has_text(text, "(invalid email)"@)
            &&& d.reason == DropReason::Excluded ==> has_text(text, "(exact email excluded)"@)
            &&& d.reason == DropReason::DomainPattern ==> has_text(
                text,
                "(domain pattern excluded)"@,
            )
            &&& d.reason == DropReason::EmailPattern ==> has_text(
                text,
                "(email pattern excluded)"@,
            )
            &&& d.reason == DropReason::Duplicate ==> has_text(text, "(duplicate email)"@)
        }),
{
    let text = explanation(d);
    let before = "line "@ + decimal(d.line as nat) + ": dropped "@ + d.email;
    let first = before + " ("@;
    assert(text.subrange(0, first.len() as int) =~= first);
    assert(" ("@ =~= seq![' ', '(']) by {
        reveal_strlit(" (");
    }
    assert(")"@ =~= seq![')']) by {
        reveal_strlit(")");
    }
    let x = seq!['('] + reason_text(d.reason) + seq![')'];
    assert(text =~= (before + seq![' ']) + x + Seq::empty());
    lemma_around(text, before + seq![' '], x, Seq::empty());
    lemma_reasons(d.reason);
}

proof fn lemma_reasons(r: DropReason)
    ensures
        ({
            let x = seq!['('] + reason_text(r) + seq![')'];
            &&& r == DropReason::Invalid ==> x == "(invalid email)"@
            &&& r == DropReason::Excluded ==> x == "(exact email excluded)"@
            &&& r == DropReason::DomainPattern ==> x == "(domain pattern excluded)"@
            &&& r == DropReason::EmailPattern ==> x == "(email pattern excluded)"@
            &&& r == DropReason::Duplicate ==> x == "(duplicate email)"@
        }),
{
    let x = seq!['('] + reason_text(r) + seq![')'];
    match r {
        DropReason::Invalid => {
            reveal_strlit("(invalid email)");
            reveal_strlit("invalid email");
            assert("(invalid email)"@ =~= x);
        },
        DropReason::Excluded => {
            reveal_strlit("(exact email excluded)");
            reveal_strlit("exact email excluded");
            assert("(exact email excluded)"@ =~= x);
        },
        DropReason::DomainPattern => {
            reveal_strlit("(domain pattern excluded)");
            reveal_strlit("domain pattern excluded");
            assert("(domain pattern excluded)"@ =~= x);
        },
        DropReason::EmailPattern => {
            reveal_strlit("(email pattern excluded)");
            reveal_strlit("email pattern excluded");
            assert("(email pattern excluded)"@ =~= x);
        },
        DropReason::Duplicate => {
            reveal_strlit("(duplicate email)");
            reveal_strlit("duplicate email");
            assert("(duplicate email)"@ =~= x);
        },
    }
}

/// A list whose lines can be read is cleaned row by row; one with a line that cannot be read is
/// refused for that line.
pub proof fn law_list_is_read_first(a: CleanText, text: Seq<char>)
    ensures
        rows_of(lines_of(text)) matches Some(rows) ==> clean_list_result(a, text) == clean_result(
            a,
            rows,
        ),
        rows_of(lines_of(text)) is None ==> clean_list_result(a, text) == Err::<
            Progress,
            CleanFault,
        >(CleanFault::Csv(CsvError::UnterminatedQuote)),
{
}

// ---------------------------------------------------------------------------------------
// Answers
// ---------------------------------------------------------------------------------------

/// An answer to what is asked for in lines begins with the number of all contacts that pass,
/// whatever the limit, and goes on with the contacts of the listing; an answer in CSV holds the
/// contacts of the listing in the columns that are asked for.
pub proof fn law_answer(t: Tables, a: ArgsText, text: Seq<char>)
    requires
        answers(t, a, text),
    ensures
        query_result(a) is Ok,
        ({
            let q = query_result(a)->Ok_0;
            exists|list: Seq<SummaryText>|
                {
                    &&& #[trigger] is_listing(t, q, list)
                    &&& !a.csv ==> {
                        let n = t.addresses.filter(
                            |r: AddressRowText| passes(q, standing(t, r).contact),
                        ).len();
                        let above = contacts_summary_text(q, list.len(), n as int);
                        &&& begins_with(text, "Contacts matched: "@ + decimal_int(n as int) + "\n"@)
                        &&& list.len() > 0 ==> text == above + contact_lines(list)
                        &&& list.len() == 0 ==> text == above + "No contacts matched.\n"@
                    }
                    &&& a.csv ==> (csv_columns(a.columns, a.preset) matches Ok(columns) && text
                        == csv_text(columns, list))
                }
        }),
{
    let q = query_result(a)->Ok_0;
    let columns = asked_columns(a)->Ok_0;
    let n = matching(t, q).len();
    let list = choose|list: Seq<SummaryText>| #[trigger]
        is_listing(t, q, list) && text == contacts_text(q, columns, list, n as int);
    lemma_passing(t, q);
    if !a.csv {
        let first = "Contacts matched: "@ + decimal_int(n as int) + "\n"@;
        let above = contacts_summary_text(q, list.len(), n as int);
        assert(above.subrange(0, first.len() as int) =~= first);
        assert(text.subrange(0, first.len() as int) =~= above.subrange(0, first.len() as int));
    }
    assert(is_listing(t, q, list));
}

proof fn lemma_passing(t: Tables, q: QueryText)
    ensures
        matching(t, q).len() == t.addresses.filter(
            |r: AddressRowText| passes(q, standing(t, r).contact),
        ).len(),
{
    let p = |s: Standing| asks_for(q, s.contact);
    let f = |r: AddressRowText| passes(q, standing(t, r).contact);
    let n = t.addresses.len() as int;
    lemma_passing_upto(t, q, n);
    assert(t.addresses.take(n) =~= t.addresses);
    assert(standings(t).take(n) =~= standings(t));
}

proof fn lemma_passing_upto(t: Tables, q: QueryText, n: int)
    requires
        0 <= n <= t.addresses.len(),
    ensures
        standings(t).take(n).filter(|s: Standing| asks_for(q, s.contact)).len() == t.addresses.take(
            n,
        ).filter(|r: AddressRowText| passes(q, standing(t, r).contact)).len(),
    decreases n,
{
    let p = |s: Standing| asks_for(q, s.contact);
    let f = |r: AddressRowText| passes(q, standing(t, r).contact);
    if n == 0 {
        lemma_filter_none(standings(t), p);
        lemma_filter_none(t.addresses, f);
    } else {
        lemma_passing_upto(t, q, n - 1);
        lemma_filter_step(standings(t), n - 1, p);
        lemma_filter_step(t.addresses, n - 1, f);
        law_query_options(q, standing(t, t.addresses[n - 1]).contact);
        assert(standings(t)[n - 1] == standing(t, t.addresses[n - 1]));
    }
}

/// What is asked for is refused for its query first, and then for its columns, if it is to be
/// answered in CSV.
pub proof fn law_refusal(a: ArgsText)
    ensures
        query_result(a) matches Err(e) ==> refusal(a) == Some(e),
        query_result(a) is Ok && !a.csv ==> refusal(a) is None,
        query_result(a) is Ok && a.csv ==> (csv_columns(a.columns, a.preset) matches Err(e)
            ==> refusal(a) == Some(e)),
        query_result(a) is Ok && a.csv && csv_columns(a.columns, a.preset) is Ok ==> refusal(a)
            is None,
{
}

// ---------------------------------------------------------------------------------------
// Errors
// ---------------------------------------------------------------------------------------

/// What is refused is named in the words of the refusal, in quotes, with what was asked of it.
pub proof fn law_refusals_name_what_is_refused(v: Seq<char>)
    ensures
        begins_with(
            cli_error_text(CliFault::UnknownKind(v)),
            "unknown contact kind '"@ + v + seq!['\''],
        ),
        begins_with(
            cli_error_text(CliFault::UnknownExcludedKind(v)),
            "unknown excluded contact kind '"@ + v + seq!['\''],
        ),
        begins_with(
            cli_error_text(CliFault::UnknownRole(v)),
            "unknown contact role '"@ + v + seq!['\''],
        ),
        begins_with(
            cli_error_text(CliFault::UnknownPreset(v)),
            "unknown CSV preset '"@ + v + seq!['\''],
        ),
        begins_with(
            cli_error_text(CliFault::UnknownColumn(v)),
            "unknown CSV column '"@ + v + seq!['\''],
        ),
        begins_with(
            clean_error_text(CleanFault::OutOfRange(v)),
            "column index "@ + v + seq![' '],
        ),
        begins_with(
            clean_error_text(CleanFault::NotFound(v)),
            "column '"@ + v + seq!['\''],
        ),
{
    let kinds =
        "'. Expected one of: person, no_reply, bulk, newsletter, promotional, automated, invalid"@;
    let roles = "'. Expected one of: sender, recipient, to, cc, bcc"@;
    let presets = "'. Expected one of: address-book, ranked, full"@;
    let columns =
        "'. Expected columns: email, display_name, domain, kind, messages, sent, to, cc, bcc, conversations, rank_score"@;
    let range = " is out of range"@;
    let missing = "' not found"@;
    assert(kinds.len() > 0 && kinds[0] == '\'') by {
        reveal_strlit(
            "'. Expected one of: person, no_reply, bulk, newsletter, promotional, automated, invalid",
        );
    }
    assert(roles.len() > 0 && roles[0] == '\'') by {
        reveal_strlit("'. Expected one of: sender, recipient, to, cc, bcc");
    }
    assert(presets.len() > 0 && presets[0] == '\'') by {
        reveal_strlit("'. Expected one of: address-book, ranked, full");
    }
    assert(columns.len() > 0 && columns[0] == '\'') by {
        reveal_strlit(
            "'. Expected columns: email, display_name, domain, kind, messages, sent, to, cc, bcc, conversations, rank_score",
        );
    }
    assert(range.len() > 0 && range[0] == ' ') by {
        reveal_strlit(" is out of range");
    }
    assert(missing.len() > 0 && missing[0] == '\'') by {
        reveal_strlit("' not found");
    }
    lemma_begins("unknown contact kind '"@, v, kinds);
    lemma_begins("unknown excluded contact kind '"@, v, kinds);
    lemma_begins("unknown contact role '"@, v, roles);
    lemma_begins("unknown CSV preset '"@, v, presets);
    lemma_begins("unknown CSV column '"@, v, columns);
    lemma_begins("column index "@, v, range);
    lemma_begins("column '"@, v, missing);
}

proof fn lemma_begins(before: Seq<char>, v: Seq<char>, after: Seq<char>)
    requires
        after.len() > 0,
    ensures
        begins_with(before + v + after, before + v + seq![after[0]]),
{
    let text = before + v + after;
    let first = before + v + seq![after[0]];
    assert(text.subrange(0, first.len() as int) =~= first);
}

} // verus!
