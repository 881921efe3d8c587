//! From what is asked for on the command line to a query.
use vstd::prelude::*;

use crate::pieces::{has_any, join, join_with};
use crate::ranking::{lists_text, mentions_term, ContactQuery, QueryText};
use crate::terms::{all_terms, law_joined_terms, split_values, term_of};
use crate::text::{glue, opt_str, opt_text, same_text, texts, to_lower, trim};

verus! {

/// What is asked for when contacts are to be listed.
#[derive(Debug, PartialEq, Eq)]
pub struct ContactsArgs {
    /// The most contacts to list.
    pub limit: i64,
    /// Whether to list every contact.
    pub all: bool,
    /// Whether to list what is not a person too.
    pub include_filtered: bool,
    pub kind: Option<String>,
    pub exclude_kind: Vec<String>,
    pub domain: Option<String>,
    pub domain_contains: Vec<String>,
    pub exclude_email: Vec<String>,
    pub exclude_email_contains: Vec<String>,
    pub exclude_domain: Vec<String>,
    pub exclude_domain_contains: Vec<String>,
    pub role: Option<String>,
    /// Whether to write the contacts as CSV.
    pub csv: bool,
    pub columns: Option<String>,
    pub preset: Option<String>,
}

/// The texts of what is asked for.
pub ghost struct ArgsText {
    pub limit: i64,
    pub all: bool,
    pub include_filtered: bool,
    pub kind: Option<Seq<char>>,
    pub exclude_kind: Seq<Seq<char>>,
    pub domain: Option<Seq<char>>,
    pub domain_contains: Seq<Seq<char>>,
    pub exclude_email: Seq<Seq<char>>,
    pub exclude_email_contains: Seq<Seq<char>>,
    pub exclude_domain: Seq<Seq<char>>,
    pub exclude_domain_contains: Seq<Seq<char>>,
    pub role: Option<Seq<char>>,
    pub csv: bool,
    pub columns: Option<Seq<char>>,
    pub preset: Option<Seq<char>>,
}

impl View for ContactsArgs {
    type V = ArgsText;

    open spec fn view(&self) -> ArgsText {
        ArgsText {
            limit: self.limit,
            all: self.all,
            include_filtered: self.include_filtered,
            kind: opt_text(self.kind),
            exclude_kind: texts(self.exclude_kind@),
            domain: opt_text(self.domain),
            domain_contains: texts(self.domain_contains@),
            exclude_email: texts(self.exclude_email@),
            exclude_email_contains: texts(self.exclude_email_contains@),
            exclude_domain: texts(self.exclude_domain@),
            exclude_domain_contains: texts(self.exclude_domain_contains@),
            role: opt_text(self.role),
            csv: self.csv,
            columns: opt_text(self.columns),
            preset: opt_text(self.preset),
        }
    }
}

/// Why something cannot be done as it is asked for.
#[derive(Debug, PartialEq, Eq)]
pub enum CliError {
    /// The limit is less than one.
    BadLimit,
    UnknownKind(String),
    UnknownExcludedKind(String),
    /// A domain and a part of a domain are both given.
    DomainTwice,
    UnknownRole(String),
    /// Columns and a preset are both given.
    ColumnsAndPreset,
    UnknownPreset(String),
    EmptyColumn,
    UnknownColumn(String),
}

/// An error with its texts.
pub ghost enum CliFault {
    BadLimit,
    UnknownKind(Seq<char>),
    UnknownExcludedKind(Seq<char>),
    DomainTwice,
    UnknownRole(Seq<char>),
    ColumnsAndPreset,
    UnknownPreset(Seq<char>),
    EmptyColumn,
    UnknownColumn(Seq<char>),
}

impl View for CliError {
    type V = CliFault;

    open spec fn view(&self) -> CliFault {
        match self {
            CliError::BadLimit => CliFault::BadLimit,
            CliError::UnknownKind(v) => CliFault::UnknownKind(v@),
            CliError::UnknownExcludedKind(v) => CliFault::UnknownExcludedKind(v@),
            CliError::DomainTwice => CliFault::DomainTwice,
            CliError::UnknownRole(v) => CliFault::UnknownRole(v@),
            CliError::ColumnsAndPreset => CliFault::ColumnsAndPreset,
            CliError::UnknownPreset(v) => CliFault::UnknownPreset(v@),
            CliError::EmptyColumn => CliFault::EmptyColumn,
            CliError::UnknownColumn(v) => CliFault::UnknownColumn(v@),
        }
    }
}

/// The error in words.
pub open spec fn cli_error_text(e: CliFault) -> Seq<char> {
    match e {
        CliFault::BadLimit => "--limit must be at least 1"@,
        CliFault::UnknownKind(v) => "unknown contact kind '"@ + v
            + "'. Expected one of: person, no_reply, bulk, newsletter, promotional, automated, invalid"@,
        CliFault::UnknownExcludedKind(v) => "unknown excluded contact kind '"@ + v
            + "'. Expected one of: person, no_reply, bulk, newsletter, promotional, automated, invalid"@,
        CliFault::DomainTwice => "use either --domain or --domain-contains, not both"@,
        CliFault::UnknownRole(v) => "unknown contact role '"@ + v
            + "'. Expected one of: sender, recipient, to, cc, bcc"@,
        CliFault::ColumnsAndPreset => "use either --columns or --preset, not both"@,
        CliFault::UnknownPreset(v) => "unknown CSV preset '"@ + v
            + "'. Expected one of: address-book, ranked, full"@,
        CliFault::EmptyColumn => "empty CSV column name"@,
        CliFault::UnknownColumn(v) => "unknown CSV column '"@ + v
            + "'. Expected columns: email, display_name, domain, kind, messages, sent, to, cc, bcc, conversations, rank_score"@,
    }
}

fn around(before: &str, v: &String, after: &str) -> (r: String)
    ensures
        r@ == before@ + v@ + after@,
{
    let mut m = glue(before, v.as_str());
    m.append(after);
    m
}

impl CliError {
    /// The error in words.
    pub fn message(&self) -> (r: String)
        ensures
            r@ == cli_error_text(self@),
    {
        match self {
            CliError::BadLimit => "--limit must be at least 1".to_owned(),
            CliError::UnknownKind(v) => around(
                "unknown contact kind '",
                v,
                "'. Expected one of: person, no_reply, bulk, newsletter, promotional, automated, invalid",
            ),
            CliError::UnknownExcludedKind(v) => around(
                "unknown excluded contact kind '",
                v,
                "'. Expected one of: person, no_reply, bulk, newsletter, promotional, automated, invalid",
            ),
            CliError::DomainTwice => "use either --domain or --domain-contains, not both".to_owned(),
            CliError::UnknownRole(v) => around(
                "unknown contact role '",
                v,
                "'. Expected one of: sender, recipient, to, cc, bcc",
            ),
            CliError::ColumnsAndPreset => "use either --columns or --preset, not both".to_owned(),
            CliError::UnknownPreset(v) => around(
                "unknown CSV preset '",
                v,
                "'. Expected one of: address-book, ranked, full",
            ),
            CliError::EmptyColumn => "empty CSV column name".to_owned(),
            CliError::UnknownColumn(v) => around(
                "unknown CSV column '",
                v,
                "'. Expected columns: email, display_name, domain, kind, messages, sent, to, cc, bcc, conversations, rank_score",
            ),
        }
    }
}

// ---------------------------------------------------------------------------------------
// Queries
// ---------------------------------------------------------------------------------------

/// The limit for listing every contact.
pub const ALL_LIMIT: i64 = 100_000;

/// The kinds that contacts can be.
pub open spec fn contact_kind(kind: Seq<char>) -> bool {
    ||| kind == "person"@
    ||| kind == "no_reply"@
    ||| kind == "bulk"@
    ||| kind == "newsletter"@
    ||| kind == "promotional"@
    ||| kind == "automated"@
    ||| kind == "invalid"@
}

/// The roles that contacts can have.
pub open spec fn contact_role(role: Seq<char>) -> bool {
    ||| role == "sender"@
    ||| role == "recipient"@
    ||| role == "to"@
    ||| role == "cc"@
    ||| role == "bcc"@
}

/// A single filter: nothing if it is empty.
pub open spec fn single_filter(v: Option<Seq<char>>) -> Option<Seq<char>> {
    match v {
        Some(s) if term_of(s).len() > 0 => Some(term_of(s)),
        _ => None,
    }
}

/// The terms of several lists as one list: nothing if there are none.
pub open spec fn filter_list(values: Seq<Seq<char>>) -> Option<Seq<char>> {
    if all_terms(values).len() == 0 {
        None
    } else {
        Some(join_with(all_terms(values), seq![',']))
    }
}

/// The first of some kinds that contacts cannot be.
pub open spec fn first_unknown(kinds: Seq<Seq<char>>) -> Option<Seq<char>>
    decreases kinds.len(),
{
    if kinds.len() == 0 {
        None
    } else {
        match first_unknown(kinds.drop_last()) {
            Some(k) => Some(k),
            None => if contact_kind(kinds.last()) {
                None
            } else {
                Some(kinds.last())
            },
        }
    }
}

/// A given word, without the space around it, in lower case.
pub open spec fn opt_term(v: Option<Seq<char>>) -> Option<Seq<char>> {
    match v {
        Some(s) => Some(term_of(s)),
        None => None,
    }
}

/// The limit that is asked for.
pub open spec fn asked_limit(a: ArgsText) -> i64 {
    if a.all {
        ALL_LIMIT
    } else {
        a.limit
    }
}

/// The query that is asked for.
pub open spec fn query_result(a: ArgsText) -> Result<QueryText, CliFault> {
    let kind = opt_term(a.kind);
    let role = opt_term(a.role);
    let domain = single_filter(a.domain);
    let domain_contains = filter_list(a.domain_contains);
    if asked_limit(a) < 1 {
        Err(CliFault::BadLimit)
    } else if kind is Some && !contact_kind(kind->0) {
        Err(CliFault::UnknownKind(kind->0))
    } else if first_unknown(all_terms(a.exclude_kind)) is Some {
        Err(CliFault::UnknownExcludedKind(first_unknown(all_terms(a.exclude_kind))->0))
    } else if domain is Some && domain_contains is Some {
        Err(CliFault::DomainTwice)
    } else if role is Some && !contact_role(role->0) {
        Err(CliFault::UnknownRole(role->0))
    } else {
        Ok(
            QueryText {
                limit: asked_limit(a),
                include_filtered: a.all || a.include_filtered || kind is Some,
                kind,
                exclude_kinds: filter_list(a.exclude_kind),
                domain,
                role,
                domain_contains,
                exclude_emails: filter_list(a.exclude_email),
                exclude_email_contains: filter_list(a.exclude_email_contains),
                exclude_domains: filter_list(a.exclude_domain),
                exclude_domain_contains: filter_list(a.exclude_domain_contains),
            },
        )
    }
}

/// Decides whether contacts can be of a kind.
pub fn is_valid_contact_kind(kind: &str) -> (r: bool)
    ensures
        r == contact_kind(kind@),
{
    same_text(kind, "person") || same_text(kind, "no_reply") || same_text(kind, "bulk")
        || same_text(kind, "newsletter") || same_text(kind, "promotional") || same_text(
        kind,
        "automated",
    ) || same_text(kind, "invalid")
}

fn is_valid_role(role: &str) -> (r: bool)
    ensures
        r == contact_role(role@),
{
    same_text(role, "sender") || same_text(role, "recipient") || same_text(role, "to")
        || same_text(role, "cc") || same_text(role, "bcc")
}

/// A single filter: nothing if it is empty.
pub fn normalize_optional_filter(value: Option<&str>) -> (r: Option<String>)
    ensures
        opt_text(r) == single_filter(opt_str(value)),
{
    match value {
        Some(v) => {
            let term = to_lower(trim(v));
            if term.as_str().is_empty() {
                None
            } else {
                Some(term)
            }
        },
        None => None,
    }
}

/// The terms of several lists as one list: nothing if there are none.
pub fn normalize_filter_list(values: &Vec<String>) -> (r: Option<String>)
    ensures
        opt_text(r) == filter_list(texts(values@)),
{
    let terms = split_values(values);
    assert(texts(terms@).len() == terms@.len());
    if terms.len() == 0 {
        None
    } else {
        proof {
            reveal_strlit(",");
            assert(","@ =~= seq![',']);
        }
        Some(join(&terms, ","))
    }
}

fn normalize_word(value: &Option<String>) -> (r: Option<String>)
    ensures
        opt_text(r) == opt_term(opt_text(*value)),
{
    match value {
        Some(v) => Some(to_lower(trim(v.as_str()))),
        None => None,
    }
}

proof fn lemma_unknown_prefix(kinds: Seq<Seq<char>>, n: int)
    requires
        0 <= n <= kinds.len(),
        first_unknown(kinds.take(n)) is Some,
    ensures
        first_unknown(kinds) == first_unknown(kinds.take(n)),
    decreases kinds.len(),
{
    if n < kinds.len() {
        assert(kinds.drop_last().take(n) =~= kinds.take(n));
        lemma_unknown_prefix(kinds.drop_last(), n);
    } else {
        assert(kinds.take(n) =~= kinds);
    }
}

fn find_unknown(kinds: &Vec<String>) -> (r: Option<String>)
    ensures
        opt_text(r) == first_unknown(texts(kinds@)),
{
    let ghost k = texts(kinds@);
    let mut i: usize = 0;
    while i < kinds.len()
        invariant
            k == texts(kinds@),
            0 <= i <= kinds.len(),
            first_unknown(k.take(i as int)) is None,
        decreases kinds.len() - i,
    {
        proof {
            assert(k[i as int] == kinds@[i as int]@);
            assert(k.take(i + 1).drop_last() =~= k.take(i as int));
            assert(k.take(i + 1).last() == k[i as int]);
        }
        if !is_valid_contact_kind(kinds[i].as_str()) {
            proof {
                assert(first_unknown(k.take(i + 1)) == Some(k[i as int]));
                lemma_unknown_prefix(k, i + 1);
            }
            return Some(kinds[i].clone());
        }
        i = i + 1;
    }
    assert(k.take(i as int) =~= k);
    None
}

/// The query that is asked for.
pub fn build_contact_query(args: &ContactsArgs) -> (r: Result<ContactQuery, CliError>)
    ensures
        match r {
            Ok(q) => query_result(args@) == Ok::<QueryText, CliFault>(q@),
            Err(e) => query_result(args@) == Err::<QueryText, CliFault>(e@),
        },
{
    let limit = if args.all {
        ALL_LIMIT
    } else {
        args.limit
    };
    if limit < 1 {
        return Err(CliError::BadLimit);
    }
    let kind = normalize_word(&args.kind);
    if let Some(k) = &kind {
        if !is_valid_contact_kind(k.as_str()) {
            return Err(CliError::UnknownKind(k.clone()));
        }
    }
    if let Some(k) = find_unknown(&split_values(&args.exclude_kind)) {
        return Err(CliError::UnknownExcludedKind(k));
    }
    let asked_domain = match &args.domain {
        Some(d) => Some(d.as_str()),
        None => None,
    };
    let domain = normalize_optional_filter(asked_domain);
    let domain_contains = normalize_filter_list(&args.domain_contains);
    if domain.is_some() && domain_contains.is_some() {
        return Err(CliError::DomainTwice);
    }
    let role = normalize_word(&args.role);
    if let Some(x) = &role {
        if !is_valid_role(x.as_str()) {
            return Err(CliError::UnknownRole(x.clone()));
        }
    }
    Ok(
        ContactQuery {
            limit,
            include_filtered: args.all || args.include_filtered || kind.is_some(),
            kind,
            exclude_kinds: normalize_filter_list(&args.exclude_kind),
            domain,
            role,
            domain_contains,
            exclude_emails: normalize_filter_list(&args.exclude_email),
            exclude_email_contains: normalize_filter_list(&args.exclude_email_contains),
            exclude_domains: normalize_filter_list(&args.exclude_domain),
            exclude_domain_contains: normalize_filter_list(&args.exclude_domain_contains),
        },
    )
}

// ---------------------------------------------------------------------------------------
// Laws
// ---------------------------------------------------------------------------------------

/// A list that goes into a query is taken there for the terms that were given, no more and no
/// fewer.
pub proof fn law_query_lists(values: Seq<Seq<char>>, x: Seq<char>)
    ensures
        lists_text(filter_list(values), x) == all_terms(values).contains(x),
        mentions_term(filter_list(values), x) == has_any(x, all_terms(values)),
{
    if all_terms(values).len() > 0 {
        law_joined_terms(values);
    }
}

/// A query that was accepted has a limit, asks for a kind and a role that there are, and does
/// not ask for a domain in two ways.
pub proof fn law_query_makes_sense(a: ArgsText)
    ensures
        query_result(a) matches Ok(q) ==> {
            &&& q.limit >= 1
            &&& q.kind matches Some(k) ==> contact_kind(k) && q.include_filtered
            &&& q.role matches Some(r) ==> contact_role(r)
            &&& !(q.domain is Some && q.domain_contains is Some)
            &&& a.all ==> q.include_filtered && q.limit == ALL_LIMIT
        },
{
}

} // verus!
