//! What is told on the command line.
use vstd::prelude::*;

use crate::cli::{build_contact_query, query_result, ArgsText, CliError, CliFault, ContactsArgs};
use crate::columns::{contacts_csv, csv_columns, csv_text, resolve_csv_columns, ContactColumn};
use crate::db::{Database, Stats};
use crate::numbers::{decimal, decimal_int, i64_text, pad_three, u64_text, usize_text, zero_padded};
use crate::pieces::{join, join_with};
use crate::ranking::{
    is_listing, matching, summaries, ContactQuery, ContactSummary, QueryText, SummaryText,
};
use crate::scanner::ScanSummary;
use crate::stats::tally_text;
use crate::tables::Tables;
use crate::text::{glue, opt_str, opt_text, texts};

verus! {

/// A stretch of time: hours, minutes and seconds for an hour or more, minutes and seconds for a
/// minute or more, seconds with their thousandths for a second or more, and thousandths of a
/// second otherwise.
pub open spec fn duration_text(seconds: nat, millis: nat) -> Seq<char> {
    if seconds >= 3600 {
        decimal(seconds / 3600) + "h "@ + decimal((seconds % 3600) / 60) + "m "@ + decimal(
            seconds % 60,
        ) + "s"@
    } else if seconds >= 60 {
        decimal(seconds / 60) + "m "@ + decimal(seconds % 60) + "s"@
    } else if seconds > 0 {
        decimal(seconds) + "."@ + zero_padded(decimal(millis), 3) + "s"@
    } else {
        decimal(millis) + "ms"@
    }
}

/// A stretch of time, given in whole seconds and thousandths of a second.
pub fn format_duration(seconds: u64, millis: u32) -> (r: String)
    ensures
        r@ == duration_text(seconds as nat, millis as nat),
{
    if seconds >= 3600 {
        let mut r = glue(u64_text(seconds / 3600).as_str(), "h ");
        r.append(u64_text((seconds % 3600) / 60).as_str());
        r.append("m ");
        r.append(u64_text(seconds % 60).as_str());
        r.append("s");
        r
    } else if seconds >= 60 {
        let mut r = glue(u64_text(seconds / 60).as_str(), "m ");
        r.append(u64_text(seconds % 60).as_str());
        r.append("s");
        r
    } else if seconds > 0 {
        let mut r = glue(u64_text(seconds).as_str(), ".");
        r.append(pad_three(u64_text(millis as u64)).as_str());
        r.append("s");
        r
    } else {
        glue(u64_text(millis as u64).as_str(), "ms")
    }
}

/// A line with a number.
pub open spec fn number_line(label: Seq<char>, n: int) -> Seq<char> {
    label + decimal_int(n) + "\n"@
}

fn add_number(out: &mut String, label: &str, n: i64)
    ensures
        final(out)@ == old(out)@ + number_line(label@, n as int),
{
    let ghost before = out@;
    out.append(label);
    out.append(i64_text(n).as_str());
    out.append("\n");
    assert(out@ =~= before + number_line(label@, n as int));
}

// ---------------------------------------------------------------------------------------
// Scans
// ---------------------------------------------------------------------------------------

/// The report on a scan.
pub open spec fn scan_report_text(s: ScanSummary, db: Seq<char>, seconds: nat, millis: nat) -> Seq<
    char,
> {
    "Mailgraph scan complete\n"@ + "Database: "@ + db + "\n"@ + "Elapsed: "@ + duration_text(
        seconds,
        millis,
    ) + "\n"@ + number_line("Scan ID: "@, s.scan_id as int) + number_line(
        "Messages seen: "@,
        s.messages_seen as int,
    ) + number_line("Messages indexed: "@, s.messages_indexed as int) + number_line(
        "Already indexed: "@,
        s.messages_already_indexed as int,
    ) + number_line("Malformed messages: "@, s.malformed_messages as int)
        + "\nNext commands:\n1. cargo run -- stats\n2. cargo run -- contacts --all\n3. cargo run -- contacts --all --csv --preset address-book > all-contacts.csv\n"@
}

/// The report on a scan into a database.
pub fn scan_report(summary: &ScanSummary, db: &str, seconds: u64, millis: u32) -> (r: String)
    ensures
        r@ == scan_report_text(*summary, db@, seconds as nat, millis as nat),
{
    let mut r = "Mailgraph scan complete\n".to_owned();
    r.append("Database: ");
    r.append(db);
    r.append("\n");
    r.append("Elapsed: ");
    r.append(format_duration(seconds, millis).as_str());
    r.append("\n");
    add_number(&mut r, "Scan ID: ", summary.scan_id);
    add_number(&mut r, "Messages seen: ", summary.messages_seen);
    add_number(&mut r, "Messages indexed: ", summary.messages_indexed);
    add_number(&mut r, "Already indexed: ", summary.messages_already_indexed);
    add_number(&mut r, "Malformed messages: ", summary.malformed_messages);
    r.append(
        "\nNext commands:\n1. cargo run -- stats\n2. cargo run -- contacts --all\n3. cargo run -- contacts --all --csv --preset address-book > all-contacts.csv\n",
    );
    r
}

// ---------------------------------------------------------------------------------------
// Statistics
// ---------------------------------------------------------------------------------------

/// The lines for the kinds of contacts.
pub open spec fn kind_lines(list: Seq<(Seq<char>, int)>) -> Seq<char>
    decreases list.len(),
{
    if list.len() == 0 {
        Seq::empty()
    } else {
        kind_lines(list.drop_last()) + number_line("  "@ + list.last().0 + ": "@, list.last().1)
    }
}

/// The report on the index as a whole.
pub open spec fn stats_report_text(s: Stats) -> Seq<char> {
    let kinds = tally_text(s.kind_counts@);
    number_line("scans: "@, s.scans as int) + number_line("messages: "@, s.messages as int)
        + number_line("domains: "@, s.domains as int) + number_line(
        "messages_with_attachments: "@,
        s.attachments_flagged as int,
    ) + "\n"@ + number_line("contacts_total: "@, s.contacts as int) + number_line(
        "contacts_valid: "@,
        s.valid_contacts as int,
    ) + number_line("contacts_filtered: "@, s.filtered_contacts as int) + number_line(
        "contacts_as_senders: "@,
        s.sender_contacts as int,
    ) + number_line("contacts_as_recipients: "@, s.recipient_contacts as int) + number_line(
        "contacts_to: "@,
        s.to_contacts as int,
    ) + number_line("contacts_cc: "@, s.cc_contacts as int) + number_line(
        "contacts_bcc: "@,
        s.bcc_contacts as int,
    ) + (if kinds.len() > 0 {
        "\ncontacts_by_kind:\n"@ + kind_lines(kinds)
    } else {
        Seq::empty()
    })
        + "\nUseful exports:\n  cargo run -- contacts --csv --preset address-book > valid-contacts.csv\n  cargo run -- contacts --all --csv --preset address-book > all-contacts.csv\n  cargo run -- contacts --role cc --all --csv --preset address-book > cc-contacts.csv\n"@
}

fn kinds_text(list: &Vec<(String, i64)>) -> (r: String)
    ensures
        r@ == kind_lines(tally_text(list@)),
{
    let ghost t = tally_text(list@);
    let mut r = String::new();
    let mut i: usize = 0;
    while i < list.len()
        invariant
            t == tally_text(list@),
            0 <= i <= list.len(),
            r@ == kind_lines(t.take(i as int)),
        decreases list.len() - i,
    {
        proof {
            assert(t.take(i + 1).drop_last() =~= t.take(i as int));
            assert(t.take(i + 1).last() == (list@[i as int].0@, list@[i as int].1 as int));
        }
        let mut label = glue("  ", list[i].0.as_str());
        label.append(": ");
        add_number(&mut r, label.as_str(), list[i].1);
        i = i + 1;
    }
    assert(t.take(i as int) =~= t);
    r
}

/// The report on the index as a whole.
pub fn stats_report(s: &Stats) -> (r: String)
    ensures
        r@ == stats_report_text(*s),
{
    let mut r = String::new();
    add_number(&mut r, "scans: ", s.scans);
    add_number(&mut r, "messages: ", s.messages);
    add_number(&mut r, "domains: ", s.domains);
    add_number(&mut r, "messages_with_attachments: ", s.attachments_flagged);
    r.append("\n");
    add_number(&mut r, "contacts_total: ", s.contacts);
    add_number(&mut r, "contacts_valid: ", s.valid_contacts);
    add_number(&mut r, "contacts_filtered: ", s.filtered_contacts);
    add_number(&mut r, "contacts_as_senders: ", s.sender_contacts);
    add_number(&mut r, "contacts_as_recipients: ", s.recipient_contacts);
    add_number(&mut r, "contacts_to: ", s.to_contacts);
    add_number(&mut r, "contacts_cc: ", s.cc_contacts);
    add_number(&mut r, "contacts_bcc: ", s.bcc_contacts);
    let ghost before = r@;
    if s.kind_counts.len() > 0 {
        r.append("\ncontacts_by_kind:\n");
        r.append(kinds_text(&s.kind_counts).as_str());
    }
    let ghost kinds = tally_text(s.kind_counts@);
    assert(r@ =~= before + (if kinds.len() > 0 {
        "\ncontacts_by_kind:\n"@ + kind_lines(kinds)
    } else {
        Seq::empty()
    }));
    r.append(
        "\nUseful exports:\n  cargo run -- contacts --csv --preset address-book > valid-contacts.csv\n  cargo run -- contacts --all --csv --preset address-book > all-contacts.csv\n  cargo run -- contacts --role cc --all --csv --preset address-book > cc-contacts.csv\n",
    );
    assert(r@ =~= stats_report_text(*s));
    r
}

// ---------------------------------------------------------------------------------------
// Contacts
// ---------------------------------------------------------------------------------------

/// The line for a contact.
pub open spec fn contact_line(c: SummaryText) -> Seq<char> {
    c.email + "\t"@ + (match c.display_name {
        Some(n) => n,
        None => "-"@,
    }) + "\t"@ + c.domain + "\t"@ + c.sender_kind + "\tmessages="@ + decimal_int(c.message_count)
        + "\tsent="@ + decimal_int(c.sent_count) + "\tto="@ + decimal_int(c.direct_count)
        + "\tcc="@ + decimal_int(c.cc_count) + "\tbcc="@ + decimal_int(c.bcc_count)
        + "\tconversations="@ + decimal_int(c.conversation_count) + "\tscore="@ + decimal_int(
        c.rank_score,
    ) + "\n"@
}

/// The lines for contacts.
pub open spec fn contact_lines(list: Seq<SummaryText>) -> Seq<char>
    decreases list.len(),
{
    if list.len() == 0 {
        Seq::empty()
    } else {
        contact_lines(list.drop_last()) + contact_line(list.last())
    }
}

fn add_field(out: &mut String, label: &str, n: i64)
    ensures
        final(out)@ == old(out)@ + label@ + decimal_int(n as int),
{
    out.append(label);
    out.append(i64_text(n).as_str());
}

fn line_for(c: &ContactSummary) -> (r: String)
    ensures
        r@ == contact_line(c@),
{
    let mut r = glue(c.email.as_str(), "\t");
    match &c.display_name {
        Some(n) => {
            r.append(n.as_str());
        },
        None => {
            r.append("-");
        },
    }
    r.append("\t");
    r.append(c.domain.as_str());
    r.append("\t");
    r.append(c.sender_kind.as_str());
    add_field(&mut r, "\tmessages=", c.message_count);
    add_field(&mut r, "\tsent=", c.sent_count);
    add_field(&mut r, "\tto=", c.direct_count);
    add_field(&mut r, "\tcc=", c.cc_count);
    add_field(&mut r, "\tbcc=", c.bcc_count);
    add_field(&mut r, "\tconversations=", c.conversation_count);
    add_field(&mut r, "\tscore=", c.rank_score);
    r.append("\n");
    r
}

/// The lines for contacts.
pub fn contacts_human(contacts: &Vec<ContactSummary>) -> (r: String)
    ensures
        r@ == contact_lines(summaries(contacts@)),
{
    let ghost t = summaries(contacts@);
    let mut r = String::new();
    let mut i: usize = 0;
    while i < contacts.len()
        invariant
            t == summaries(contacts@),
            0 <= i <= contacts.len(),
            r@ == contact_lines(t.take(i as int)),
        decreases contacts.len() - i,
    {
        proof {
            assert(t.take(i + 1).drop_last() =~= t.take(i as int));
            assert(t.take(i + 1).last() == contacts@[i as int]@);
        }
        r.append(line_for(&contacts[i]).as_str());
        i = i + 1;
    }
    assert(t.take(i as int) =~= t);
    r
}

/// The label of a filter, if it is set.
pub open spec fn label(name: Seq<char>, v: Option<Seq<char>>) -> Seq<Seq<char>> {
    match v {
        Some(s) => seq![name + s],
        None => seq![],
    }
}

/// The labels of the filters of a query.
pub open spec fn filter_labels(q: QueryText) -> Seq<Seq<char>> {
    seq![
        if q.include_filtered {
            "include_filtered=true"@
        } else {
            "valid_only=true"@
        },
    ] + label("kind="@, q.kind) + label("exclude_kind="@, q.exclude_kinds) + label(
        "domain="@,
        q.domain,
    ) + label("domain_contains="@, q.domain_contains) + label("role="@, q.role) + label(
        "exclude_email="@,
        q.exclude_emails,
    ) + label("exclude_email_contains="@, q.exclude_email_contains) + label(
        "exclude_domain="@,
        q.exclude_domains,
    ) + label("exclude_domain_contains="@, q.exclude_domain_contains)
}

fn add_label(labels: &mut Vec<String>, name: &str, v: &Option<String>)
    ensures
        texts(final(labels)@) == texts(old(labels)@) + label(name@, opt_text(*v)),
{
    let ghost before = texts(labels@);
    if let Some(s) = v {
        labels.push(glue(name, s.as_str()));
    }
    assert(texts(labels@) =~= before + label(name@, opt_text(*v)));
}

/// The labels of the filters of a query.
pub fn contact_filter_labels(query: &ContactQuery) -> (r: Vec<String>)
    ensures
        texts(r@) == filter_labels(query@),
{
    let mut labels: Vec<String> = Vec::new();
    if query.include_filtered {
        labels.push("include_filtered=true".to_owned());
    } else {
        labels.push("valid_only=true".to_owned());
    }
    assert(texts(labels@) =~= seq![
        if query.include_filtered {
            "include_filtered=true"@
        } else {
            "valid_only=true"@
        },
    ]);
    add_label(&mut labels, "kind=", &query.kind);
    add_label(&mut labels, "exclude_kind=", &query.exclude_kinds);
    add_label(&mut labels, "domain=", &query.domain);
    add_label(&mut labels, "domain_contains=", &query.domain_contains);
    add_label(&mut labels, "role=", &query.role);
    add_label(&mut labels, "exclude_email=", &query.exclude_emails);
    add_label(&mut labels, "exclude_email_contains=", &query.exclude_email_contains);
    add_label(&mut labels, "exclude_domain=", &query.exclude_domains);
    add_label(&mut labels, "exclude_domain_contains=", &query.exclude_domain_contains);
    labels
}

/// What stands above a list of contacts.
pub open spec fn contacts_summary_text(q: QueryText, listed: nat, matched: int) -> Seq<char> {
    number_line("Contacts matched: "@, matched) + "Contacts listed: "@ + decimal(listed) + "\n"@
        + number_line("Limit: "@, q.limit as int) + "Filters: "@ + join_with(
        filter_labels(q),
        ", "@,
    ) + "\n\n"@
}

/// What stands above a list of contacts.
pub fn contacts_summary(query: &ContactQuery, listed: usize, matched: i64) -> (r: String)
    ensures
        r@ == contacts_summary_text(query@, listed as nat, matched as int),
{
    let mut r = String::new();
    add_number(&mut r, "Contacts matched: ", matched);
    r.append("Contacts listed: ");
    r.append(usize_text(listed).as_str());
    r.append("\n");
    add_number(&mut r, "Limit: ", query.limit);
    r.append("Filters: ");
    r.append(join(&contact_filter_labels(query), ", ").as_str());
    r.append("\n\n");
    assert(r@ =~= contacts_summary_text(query@, listed as nat, matched as int));
    r
}

/// What is told about the contacts that are asked for: the lines of a CSV file, or a summary
/// with a line for each contact.
pub open spec fn contacts_text(
    q: QueryText,
    columns: Option<Seq<ContactColumn>>,
    list: Seq<SummaryText>,
    matched: int,
) -> Seq<char> {
    match columns {
        Some(c) => csv_text(c, list),
        None => contacts_summary_text(q, list.len(), matched) + (if list.len() == 0 {
            "No contacts matched.\n"@
        } else {
            contact_lines(list)
        }),
    }
}

/// The columns that are asked for, if contacts are to be written as CSV.
pub open spec fn asked_columns(a: ArgsText) -> Result<Option<Seq<ContactColumn>>, CliFault> {
    if a.csv {
        match csv_columns(a.columns, a.preset) {
            Ok(c) => Ok(Some(c)),
            Err(e) => Err(e),
        }
    } else {
        Ok(None)
    }
}

/// Whether a text answers what is asked for.
pub open spec fn answers(t: Tables, a: ArgsText, text: Seq<char>) -> bool {
    query_result(a) matches Ok(q) && asked_columns(a) matches Ok(columns)
        && exists|list: Seq<SummaryText>| #[trigger]
        is_listing(t, q, list) && text == contacts_text(q, columns, list, matching(t, q).len() as int)
}

/// Why what is asked for cannot be answered, if so: the query comes first.
pub open spec fn refusal(a: ArgsText) -> Option<CliFault> {
    match query_result(a) {
        Err(e) => Some(e),
        Ok(_) => match asked_columns(a) {
            Err(e) => Some(e),
            Ok(_) => None,
        },
    }
}

fn opt_as_str(v: &Option<String>) -> (r: Option<&str>)
    ensures
        opt_str(r) == opt_text(*v),
{
    match v {
        Some(s) => Some(s.as_str()),
        None => None,
    }
}

/// What is told about the contacts that are asked for.
pub fn contacts_report(db: &Database, args: &ContactsArgs) -> (r: Result<String, CliError>)
    requires
        db.wf(),
    ensures
        match r {
            Ok(text) => answers(db@, args@, text@),
            Err(e) => refusal(args@) == Some(e@),
        },
{
    let query = match build_contact_query(args) {
        Ok(q) => q,
        Err(e) => {
            return Err(e);
        },
    };
    let contacts = db.contacts(&query).unwrap();
    let ghost list = summaries(contacts@);
    if args.csv {
        return match resolve_csv_columns(opt_as_str(&args.columns), opt_as_str(&args.preset)) {
            Ok(columns) => {
                let r = contacts_csv(&contacts, &columns);
                assert(r@ == contacts_text(
                    query@,
                    Some(columns@),
                    list,
                    matching(db@, query@).len() as int,
                ));
                Ok(r)
            },
            Err(e) => Err(e),
        };
    }
    let matched = db.contact_count(&query).unwrap();
    let mut r = contacts_summary(&query, contacts.len(), matched);
    if contacts.len() == 0 {
        r.append("No contacts matched.\n");
    } else {
        r.append(contacts_human(&contacts).as_str());
    }
    proof {
        assert(list.len() == contacts@.len());
        assert(r@ == contacts_text(query@, None, list, matching(db@, query@).len() as int));
    }
    Ok(r)
}

} // verus!
