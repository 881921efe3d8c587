//! The columns that contacts are written in.
use vstd::prelude::*;

use crate::cli::{CliError, CliFault};
use crate::csv::{
    fits_a_line, law_written_list_reads_back, lemma_written_front, needs_quotes, rows_of, rows_text,
    write_rows, written_field, written_rows,
};
use crate::normalize::lemma_trimmed_keeps;
use crate::numbers::{decimal_int, i64_text};
use crate::pieces::{join, join_with, lines_of, split, split_on};
use crate::ranking::{summaries, ContactSummary, SummaryText};
use crate::terms::term_of;
use crate::text::{has_space, is_space, lower_text, opt_str, same_text, texts, to_lower, trim};

verus! {

/// What can be told of a contact in a column.
#[derive(Debug, Clone, Copy, PartialEq, Eq, Structural)]
pub enum ContactColumn {
    Email,
    DisplayName,
    Domain,
    Kind,
    Messages,
    Sent,
    To,
    Cc,
    Bcc,
    Conversations,
    RankScore,
}

/// The name of a column.
pub open spec fn column_name(c: ContactColumn) -> Seq<char> {
    match c {
        ContactColumn::Email => "email"@,
        ContactColumn::DisplayName => "display_name"@,
        ContactColumn::Domain => "domain"@,
        ContactColumn::Kind => "kind"@,
        ContactColumn::Messages => "messages"@,
        ContactColumn::Sent => "sent"@,
        ContactColumn::To => "to"@,
        ContactColumn::Cc => "cc"@,
        ContactColumn::Bcc => "bcc"@,
        ContactColumn::Conversations => "conversations"@,
        ContactColumn::RankScore => "rank_score"@,
    }
}

/// What a column holds of a contact.
pub open spec fn column_value(c: ContactColumn, s: SummaryText) -> Seq<char> {
    match c {
        ContactColumn::Email => s.email,
        ContactColumn::DisplayName => match s.display_name {
            Some(n) => n,
            None => Seq::empty(),
        },
        ContactColumn::Domain => s.domain,
        ContactColumn::Kind => s.sender_kind,
        ContactColumn::Messages => decimal_int(s.message_count),
        ContactColumn::Sent => decimal_int(s.sent_count),
        ContactColumn::To => decimal_int(s.direct_count),
        ContactColumn::Cc => decimal_int(s.cc_count),
        ContactColumn::Bcc => decimal_int(s.bcc_count),
        ContactColumn::Conversations => decimal_int(s.conversation_count),
        ContactColumn::RankScore => decimal_int(s.rank_score),
    }
}

impl ContactColumn {
    /// The name of the column.
    pub fn canonical_name(self) -> (r: &'static str)
        ensures
            r@ == column_name(self),
    {
        match self {
            ContactColumn::Email => "email",
            ContactColumn::DisplayName => "display_name",
            ContactColumn::Domain => "domain",
            ContactColumn::Kind => "kind",
            ContactColumn::Messages => "messages",
            ContactColumn::Sent => "sent",
            ContactColumn::To => "to",
            ContactColumn::Cc => "cc",
            ContactColumn::Bcc => "bcc",
            ContactColumn::Conversations => "conversations",
            ContactColumn::RankScore => "rank_score",
        }
    }

    /// What the column holds of a contact.
    pub fn value(self, contact: &ContactSummary) -> (r: String)
        ensures
            r@ == column_value(self, contact@),
    {
        match self {
            ContactColumn::Email => contact.email.clone(),
            ContactColumn::DisplayName => match &contact.display_name {
                Some(n) => n.clone(),
                None => String::new(),
            },
            ContactColumn::Domain => contact.domain.clone(),
            ContactColumn::Kind => contact.sender_kind.clone(),
            ContactColumn::Messages => i64_text(contact.message_count),
            ContactColumn::Sent => i64_text(contact.sent_count),
            ContactColumn::To => i64_text(contact.direct_count),
            ContactColumn::Cc => i64_text(contact.cc_count),
            ContactColumn::Bcc => i64_text(contact.bcc_count),
            ContactColumn::Conversations => i64_text(contact.conversation_count),
            ContactColumn::RankScore => i64_text(contact.rank_score),
        }
    }
}

/// The column that a word stands for.
pub open spec fn column_of(word: Seq<char>) -> Option<ContactColumn> {
    if word == "email"@ {
        Some(ContactColumn::Email)
    } else if word == "display_name"@ || word == "display-name"@ || word == "name"@ {
        Some(ContactColumn::DisplayName)
    } else if word == "domain"@ {
        Some(ContactColumn::Domain)
    } else if word == "kind"@ || word == "sender_kind"@ || word == "sender-kind"@ {
        Some(ContactColumn::Kind)
    } else if word == "messages"@ || word == "message_count"@ || word == "message-count"@ {
        Some(ContactColumn::Messages)
    } else if word == "sent"@ || word == "sent_count"@ || word == "sent-count"@ {
        Some(ContactColumn::Sent)
    } else if word == "to"@ || word == "direct"@ || word == "direct_count"@ || word
        == "direct-count"@ {
        Some(ContactColumn::To)
    } else if word == "cc"@ || word == "cc_count"@ || word == "cc-count"@ {
        Some(ContactColumn::Cc)
    } else if word == "bcc"@ || word == "bcc_count"@ || word == "bcc-count"@ {
        Some(ContactColumn::Bcc)
    } else if word == "conversations"@ || word == "conversation_count"@ || word
        == "conversation-count"@ {
        Some(ContactColumn::Conversations)
    } else if word == "rank_score"@ || word == "rank-score"@ || word == "score"@ {
        Some(ContactColumn::RankScore)
    } else {
        None
    }
}

/// The column that is asked for by a name.
pub open spec fn column_result(name: Seq<char>) -> Result<ContactColumn, CliFault> {
    let word = term_of(name);
    match column_of(word) {
        Some(c) => Ok(c),
        None => if word.len() == 0 {
            Err(CliFault::EmptyColumn)
        } else {
            Err(CliFault::UnknownColumn(word))
        },
    }
}

/// The columns that are asked for by their names, or the first that there is not.
pub open spec fn columns_result(names: Seq<Seq<char>>) -> Result<Seq<ContactColumn>, CliFault>
    decreases names.len(),
{
    if names.len() == 0 {
        Ok(Seq::empty())
    } else {
        match columns_result(names.drop_last()) {
            Err(e) => Err(e),
            Ok(before) => match column_result(names.last()) {
                Ok(c) => Ok(before.push(c)),
                Err(e) => Err(e),
            },
        }
    }
}

/// All columns.
pub open spec fn all_columns() -> Seq<ContactColumn> {
    seq![
        ContactColumn::Email,
        ContactColumn::DisplayName,
        ContactColumn::Domain,
        ContactColumn::Kind,
        ContactColumn::Messages,
        ContactColumn::Sent,
        ContactColumn::To,
        ContactColumn::Cc,
        ContactColumn::Bcc,
        ContactColumn::Conversations,
        ContactColumn::RankScore,
    ]
}

/// The columns of a preset.
pub open spec fn preset_columns(word: Seq<char>) -> Option<Seq<ContactColumn>> {
    if word == "full"@ {
        Some(all_columns())
    } else if word == "address-book"@ || word == "address_book"@ {
        Some(
            seq![
                ContactColumn::Email,
                ContactColumn::DisplayName,
                ContactColumn::Domain,
                ContactColumn::Kind,
            ],
        )
    } else if word == "ranked"@ {
        Some(
            seq![
                ContactColumn::Email,
                ContactColumn::DisplayName,
                ContactColumn::Domain,
                ContactColumn::Kind,
                ContactColumn::Messages,
                ContactColumn::Conversations,
                ContactColumn::RankScore,
            ],
        )
    } else {
        None
    }
}

/// The columns to write: those that are asked for, or those of a preset, or all.
pub open spec fn csv_columns(columns: Option<Seq<char>>, preset: Option<Seq<char>>) -> Result<
    Seq<ContactColumn>,
    CliFault,
> {
    match (columns, preset) {
        (Some(_), Some(_)) => Err(CliFault::ColumnsAndPreset),
        (Some(names), None) => columns_result(split_on(names, ',')),
        (None, Some(p)) => match preset_columns(term_of(p)) {
            Some(c) => Ok(c),
            None => Err(CliFault::UnknownPreset(term_of(p))),
        },
        (None, None) => Ok(all_columns()),
    }
}

/// The column that is asked for by a name.
pub fn parse_contact_column(column: &str) -> (r: Result<ContactColumn, CliError>)
    ensures
        match r {
            Ok(c) => column_result(column@) == Ok::<ContactColumn, CliFault>(c),
            Err(e) => column_result(column@) == Err::<ContactColumn, CliFault>(e@),
        },
{
    let word = to_lower(trim(column));
    let w = word.as_str();
    if same_text(w, "email") {
        Ok(ContactColumn::Email)
    } else if same_text(w, "display_name") || same_text(w, "display-name") || same_text(w, "name") {
        Ok(ContactColumn::DisplayName)
    } else if same_text(w, "domain") {
        Ok(ContactColumn::Domain)
    } else if same_text(w, "kind") || same_text(w, "sender_kind") || same_text(w, "sender-kind") {
        Ok(ContactColumn::Kind)
    } else if same_text(w, "messages") || same_text(w, "message_count") || same_text(
        w,
        "message-count",
    ) {
        Ok(ContactColumn::Messages)
    } else if same_text(w, "sent") || same_text(w, "sent_count") || same_text(w, "sent-count") {
        Ok(ContactColumn::Sent)
    } else if same_text(w, "to") || same_text(w, "direct") || same_text(w, "direct_count")
        || same_text(w, "direct-count") {
        Ok(ContactColumn::To)
    } else if same_text(w, "cc") || same_text(w, "cc_count") || same_text(w, "cc-count") {
        Ok(ContactColumn::Cc)
    } else if same_text(w, "bcc") || same_text(w, "bcc_count") || same_text(w, "bcc-count") {
        Ok(ContactColumn::Bcc)
    } else if same_text(w, "conversations") || same_text(w, "conversation_count") || same_text(
        w,
        "conversation-count",
    ) {
        Ok(ContactColumn::Conversations)
    } else if same_text(w, "rank_score") || same_text(w, "rank-score") || same_text(w, "score") {
        Ok(ContactColumn::RankScore)
    } else if w.is_empty() {
        Err(CliError::EmptyColumn)
    } else {
        Err(CliError::UnknownColumn(word))
    }
}

proof fn lemma_columns_prefix(names: Seq<Seq<char>>, n: int)
    requires
        0 <= n <= names.len(),
        columns_result(names.take(n)) is Err,
    ensures
        columns_result(names) == columns_result(names.take(n)),
    decreases names.len(),
{
    if n < names.len() {
        assert(names.drop_last().take(n) =~= names.take(n));
        lemma_columns_prefix(names.drop_last(), n);
    } else {
        assert(names.take(n) =~= names);
    }
}

/// The columns that are asked for by their names, with commas between them.
pub fn parse_contact_columns(columns: &str) -> (r: Result<Vec<ContactColumn>, CliError>)
    ensures
        match r {
            Ok(v) => columns_result(split_on(columns@, ',')) == Ok::<Seq<ContactColumn>, CliFault>(
                v@,
            ) && v@.len() == split_on(columns@, ',').len(),
            Err(e) => columns_result(split_on(columns@, ',')) == Err::<
                Seq<ContactColumn>,
                CliFault,
            >(e@),
        },
{
    let names = split(columns, ',');
    let ghost n = split_on(columns@, ',');
    let mut r: Vec<ContactColumn> = Vec::new();
    let mut i: usize = 0;
    while i < names.len()
        invariant
            n == split_on(columns@, ','),
            texts(names@) == n,
            0 <= i <= names.len(),
            r@.len() == i,
            columns_result(n.take(i as int)) == Ok::<Seq<ContactColumn>, CliFault>(r@),
        decreases names.len() - i,
    {
        proof {
            assert(n[i as int] == names@[i as int]@);
            assert(n.take(i + 1).drop_last() =~= n.take(i as int));
            assert(n.take(i + 1).last() == n[i as int]);
        }
        match parse_contact_column(names[i].as_str()) {
            Ok(c) => {
                r.push(c);
            },
            Err(e) => {
                proof {
                    assert(columns_result(n.take(i + 1)) == Err::<Seq<ContactColumn>, CliFault>(
                        e@,
                    ));
                    lemma_columns_prefix(n, i + 1);
                }
                return Err(e);
            },
        }
        i = i + 1;
    }
    assert(texts(names@).len() == names@.len());
    assert(n.take(i as int) =~= n);
    Ok(r)
}

/// All columns.
pub fn full_contact_columns() -> (r: Vec<ContactColumn>)
    ensures
        r@ == all_columns(),
{
    let r = vec![
        ContactColumn::Email,
        ContactColumn::DisplayName,
        ContactColumn::Domain,
        ContactColumn::Kind,
        ContactColumn::Messages,
        ContactColumn::Sent,
        ContactColumn::To,
        ContactColumn::Cc,
        ContactColumn::Bcc,
        ContactColumn::Conversations,
        ContactColumn::RankScore,
    ];
    assert(r@ =~= all_columns());
    r
}

/// The columns to write: those that are asked for, or those of a preset, or all. There is
/// always one.
pub fn resolve_csv_columns(columns: Option<&str>, preset: Option<&str>) -> (r: Result<
    Vec<ContactColumn>,
    CliError,
>)
    ensures
        match r {
            Ok(v) => csv_columns(opt_str(columns), opt_str(preset)) == Ok::<
                Seq<ContactColumn>,
                CliFault,
            >(v@) && v@.len() > 0,
            Err(e) => csv_columns(opt_str(columns), opt_str(preset)) == Err::<
                Seq<ContactColumn>,
                CliFault,
            >(e@),
        },
{
    if columns.is_some() && preset.is_some() {
        return Err(CliError::ColumnsAndPreset);
    }
    if let Some(names) = columns {
        assert(split_on(names@, ',').len() > 0);
        return parse_contact_columns(names);
    }
    match preset {
        None => Ok(full_contact_columns()),
        Some(p) => {
            let word = to_lower(trim(p));
            let w = word.as_str();
            if same_text(w, "full") {
                Ok(full_contact_columns())
            } else if same_text(w, "address-book") || same_text(w, "address_book") {
                let r = vec![
                    ContactColumn::Email,
                    ContactColumn::DisplayName,
                    ContactColumn::Domain,
                    ContactColumn::Kind,
                ];
                assert(r@ =~= preset_columns(term_of(p@))->0);
                Ok(r)
            } else if same_text(w, "ranked") {
                let r = vec![
                    ContactColumn::Email,
                    ContactColumn::DisplayName,
                    ContactColumn::Domain,
                    ContactColumn::Kind,
                    ContactColumn::Messages,
                    ContactColumn::Conversations,
                    ContactColumn::RankScore,
                ];
                assert(r@ =~= preset_columns(term_of(p@))->0);
                Ok(r)
            } else {
                Err(CliError::UnknownPreset(word))
            }
        },
    }
}

/// The names of columns.
pub open spec fn header_names(columns: Seq<ContactColumn>) -> Seq<Seq<char>> {
    columns.map_values(|c: ContactColumn| column_name(c))
}

/// What columns hold of a contact.
pub open spec fn contact_row(columns: Seq<ContactColumn>, s: SummaryText) -> Seq<Seq<char>> {
    columns.map_values(|c: ContactColumn| column_value(c, s))
}

/// What columns hold of contacts.
pub open spec fn contact_rows(columns: Seq<ContactColumn>, list: Seq<SummaryText>) -> Seq<
    Seq<Seq<char>>,
> {
    list.map_values(|s: SummaryText| contact_row(columns, s))
}

/// Contacts as CSV: a line with the names of the columns, and a line for each contact.
pub open spec fn csv_text(columns: Seq<ContactColumn>, list: Seq<SummaryText>) -> Seq<char> {
    join_with(header_names(columns), ","@) + "\n"@ + written_rows(contact_rows(columns, list))
}

fn row_of(columns: &Vec<ContactColumn>, contact: &ContactSummary) -> (r: Vec<String>)
    ensures
        texts(r@) == contact_row(columns@, contact@),
{
    let mut r: Vec<String> = Vec::new();
    let mut i: usize = 0;
    while i < columns.len()
        invariant
            0 <= i <= columns.len(),
            r@.len() == i,
            forall|j: int|
                0 <= j < i ==> (#[trigger] r@[j])@ == column_value(columns@[j], contact@),
        decreases columns.len() - i,
    {
        r.push(columns[i].value(contact));
        i = i + 1;
    }
    assert(texts(r@) =~= contact_row(columns@, contact@));
    r
}

/// Contacts as CSV.
pub fn contacts_csv(contacts: &Vec<ContactSummary>, columns: &Vec<ContactColumn>) -> (r: String)
    ensures
        r@ == csv_text(columns@, summaries(contacts@)),
{
    let mut names: Vec<String> = Vec::new();
    let mut i: usize = 0;
    while i < columns.len()
        invariant
            0 <= i <= columns.len(),
            names@.len() == i,
            forall|j: int| 0 <= j < i ==> (#[trigger] names@[j])@ == column_name(columns@[j]),
        decreases columns.len() - i,
    {
        names.push(columns[i].canonical_name().to_owned());
        i = i + 1;
    }
    assert(texts(names@) =~= header_names(columns@));
    let mut rows: Vec<Vec<String>> = Vec::new();
    let mut i: usize = 0;
    while i < contacts.len()
        invariant
            0 <= i <= contacts.len(),
            rows@.len() == i,
            forall|j: int|
                0 <= j < i ==> texts((#[trigger] rows@[j])@) == contact_row(
                    columns@,
                    contacts@[j]@,
                ),
        decreases contacts.len() - i,
    {
        rows.push(row_of(columns, &contacts[i]));
        i = i + 1;
    }
    assert(rows_text(rows@) =~= contact_rows(columns@, summaries(contacts@)));
    let mut r = join(&names, ",");
    r.append("\n");
    r.append(write_rows(&rows).as_str());
    r
}

// ---------------------------------------------------------------------------------------
// Laws
// ---------------------------------------------------------------------------------------

/// Whether a name is made of lower-case letters and underscores.
spec fn is_plain(s: Seq<char>) -> bool {
    s.len() > 0 && forall|i: int|
        0 <= i < s.len() ==> ('a' <= #[trigger] s[i] && s[i] <= 'z' || s[i] == '_')
}

proof fn lemma_names_plain(c: ContactColumn)
    ensures
        is_plain(column_name(c)),
{
    reveal_strlit("email");
    reveal_strlit("display_name");
    reveal_strlit("domain");
    reveal_strlit("kind");
    reveal_strlit("messages");
    reveal_strlit("sent");
    reveal_strlit("to");
    reveal_strlit("cc");
    reveal_strlit("bcc");
    reveal_strlit("conversations");
    reveal_strlit("rank_score");
}

proof fn lemma_plain_term(s: Seq<char>)
    requires
        is_plain(s),
    ensures
        term_of(s) == s,
        written_field(s) == s,
{
    assert(!has_space(s)) by {
        assert forall|i: int| 0 <= i < s.len() implies !is_space(#[trigger] s[i]) by {}
    }
    lemma_trimmed_keeps(s);
    assert(lower_text(s) =~= s);
    assert forall|i: int| 0 <= i < s.len() implies !needs_quotes(#[trigger] s[i]) by {}
}

/// Every column can be asked for by its name.
pub proof fn law_column_by_its_name(c: ContactColumn)
    ensures
        column_result(column_name(c)) == Ok::<ContactColumn, CliFault>(c),
{
    lemma_names_plain(c);
    lemma_plain_term(column_name(c));
    reveal_strlit("email");
    reveal_strlit("display_name");
    reveal_strlit("display-name");
    reveal_strlit("name");
    reveal_strlit("domain");
    reveal_strlit("kind");
    reveal_strlit("sender_kind");
    reveal_strlit("sender-kind");
    reveal_strlit("messages");
    reveal_strlit("message_count");
    reveal_strlit("message-count");
    reveal_strlit("sent");
    reveal_strlit("sent_count");
    reveal_strlit("sent-count");
    reveal_strlit("to");
    reveal_strlit("direct");
    reveal_strlit("direct_count");
    reveal_strlit("direct-count");
    reveal_strlit("cc");
    reveal_strlit("cc_count");
    reveal_strlit("cc-count");
    reveal_strlit("bcc");
    reveal_strlit("bcc_count");
    reveal_strlit("bcc-count");
    reveal_strlit("conversations");
    reveal_strlit("conversation_count");
    reveal_strlit("conversation-count");
    reveal_strlit("rank_score");
    assert("email"@[0] == 'e');
    assert("display_name"@[0] == 'd');
    assert("domain"@[0] == 'd' && "domain"@[1] == 'o');
    assert("kind"@[0] == 'k');
    assert("name"@[0] == 'n');
    assert("messages"@[0] == 'm');
    assert("sent"@[0] == 's');
    assert("to"@[0] == 't');
    assert("cc"@[0] == 'c');
    assert("bcc"@[0] == 'b');
    assert("conversations"@[0] == 'c');
    assert("rank_score"@[0] == 'r');
}

/// Contacts that were written as CSV read back: a row with the names of the columns, and a row
/// for each contact, as long as no value holds a line break.
pub proof fn law_csv_reads_back(columns: Seq<ContactColumn>, list: Seq<SummaryText>)
    requires
        columns.len() > 0,
        forall|i: int| 0 <= i < list.len() ==> fits_a_line(contact_row(columns, #[trigger] list[i])),
    ensures
        rows_of(lines_of(csv_text(columns, list))) == Some(
            seq![header_names(columns)] + contact_rows(columns, list),
        ),
{
    let header = header_names(columns);
    let rows = contact_rows(columns, list);
    let all = seq![header] + rows;
    assert forall|i: int| 0 <= i < header.len() implies is_plain(#[trigger] header[i])
        && written_field(header[i]) == header[i] by {
        lemma_names_plain(columns[i]);
        lemma_plain_term(column_name(columns[i]));
    }
    assert(header.map_values(|f: Seq<char>| written_field(f)) =~= header);
    reveal_strlit(",");
    reveal_strlit("\n");
    assert(","@ =~= seq![',']);
    assert("\n"@ =~= seq!['\n']);
    lemma_written_front(all);
    assert(all.drop_first() =~= rows);
    assert(fits_a_line(header)) by {
        assert forall|i: int, k: int|
            0 <= i < header.len() && 0 <= k < header[i].len() implies #[trigger] header[i][k]
            != '\n' by {
            assert(is_plain(header[i]));
        }
    }
    assert forall|i: int| 0 <= i < all.len() implies fits_a_line(#[trigger] all[i]) by {
        if i > 0 {
            assert(all[i] == contact_row(columns, list[i - 1]));
        }
    }
    law_written_list_reads_back(all);
}

} // verus!
