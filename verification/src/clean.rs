//! Cleaning lists of mail addresses: addresses are normalized, and what is invalid, unwanted or
//! there twice is dropped.
use vstd::prelude::*;
use vstd::hash_map::StringHashMap;

use crate::csv::{read_rows, rows_of, rows_text, CsvError};
use crate::headers::names;
use crate::lists::lemma_push_contains;
use crate::normalize::{
    email_of, is_wrapped, law_email_stable, lemma_trimmed_keeps, normalize_email, EmailText,
};
use crate::numbers::{decimal, parse_usize, unsigned_value, usize_text};
use crate::pieces::{contains_any, has_any, is_one_of, join, join_with, lines_of};
use crate::sort::{sort_distinct, strictly_ordered};
use crate::terms::{all_terms, split_terms, split_values, terms_of};
use crate::text::{
    glue, has_text, lemma_rfind, lemma_trim_keeps, lemma_trim_shape, lower_text, opt_str, opt_text,
    texts, to_lower, trim, trimmed, CharClass,
};

verus! {

/// Terms that only addresses of machines contain.
pub const DEFAULT_EMAIL_CONTAINS: &'static str = "noreply,no-reply,no_reply,do-not-reply,do_not_reply,donotreply,postmaster,mailer-daemon,noresponse,no-replay";

/// How the addresses of roles begin.
pub const ROLE_ACCOUNT_PREFIXES: &'static str = "support@,info@,admin@,administrator@,contact@,hello@,webmaster@,sales@,office@,feedback@,accounts@,account@,customer@,team@,mail@,help@,security@,reply@,service@,server@,staff@,domainsupport@";

/// The domains of providers of free mail.
pub const FREE_MAIL_DOMAINS: &'static str = "gmail.com,hotmail.com,yahoo.com,outlook.com,icloud.com,aol.com,live.com,me.com,msn.com,googlemail.com,proton.me,protonmail.com,mail.ru,gmx.com,gmx.de,t-online.de";

/// What to do with a list.
#[derive(Debug, PartialEq, Eq)]
pub struct CleanArgs {
    /// The column with the addresses: its name, or its number.
    pub email_column: Option<String>,
    /// The column with the names: its name, or its number.
    pub name_column: Option<String>,
    /// Whether to write addresses and names only.
    pub email_name_only: bool,
    /// Whether to leave out the built-in filters.
    pub no_defaults: bool,
    /// Terms of which a domain must contain none.
    pub exclude_domain_contains: Vec<String>,
    /// Terms of which an address must contain none.
    pub exclude_email_contains: Vec<String>,
    /// Addresses to drop.
    pub exclude_email: Vec<String>,
    /// Whether to keep addresses of providers of free mail.
    pub keep_free_mail: bool,
    /// Whether to drop addresses of roles.
    pub drop_role_accounts: bool,
}

/// The texts of what to do.
pub ghost struct CleanText {
    pub email_column: Option<Seq<char>>,
    pub name_column: Option<Seq<char>>,
    pub email_name_only: bool,
    pub no_defaults: bool,
    pub exclude_domain_contains: Seq<Seq<char>>,
    pub exclude_email_contains: Seq<Seq<char>>,
    pub exclude_email: Seq<Seq<char>>,
    pub keep_free_mail: bool,
    pub drop_role_accounts: bool,
}

impl View for CleanArgs {
    type V = CleanText;

    open spec fn view(&self) -> CleanText {
        CleanText {
            email_column: opt_text(self.email_column),
            name_column: opt_text(self.name_column),
            email_name_only: self.email_name_only,
            no_defaults: self.no_defaults,
            exclude_domain_contains: texts(self.exclude_domain_contains@),
            exclude_email_contains: texts(self.exclude_email_contains@),
            exclude_email: texts(self.exclude_email@),
            keep_free_mail: self.keep_free_mail,
            drop_role_accounts: self.drop_role_accounts,
        }
    }
}

// ---------------------------------------------------------------------------------------
// Errors
// ---------------------------------------------------------------------------------------

/// Why a list cannot be cleaned.
#[derive(Debug, PartialEq, Eq)]
pub enum CleanError {
    /// There is no line.
    Empty,
    /// A line cannot be read.
    Csv(CsvError),
    /// There is no column with the number.
    OutOfRange(String),
    /// There is no column with the name.
    NotFound(String),
    /// There is no column with any of the usual names.
    NotDetected(Vec<String>),
}

/// An error with its texts.
pub ghost enum CleanFault {
    Empty,
    Csv(CsvError),
    OutOfRange(Seq<char>),
    NotFound(Seq<char>),
    NotDetected(Seq<Seq<char>>),
}

impl View for CleanError {
    type V = CleanFault;

    open spec fn view(&self) -> CleanFault {
        match self {
            CleanError::Empty => CleanFault::Empty,
            CleanError::Csv(e) => CleanFault::Csv(*e),
            CleanError::OutOfRange(v) => CleanFault::OutOfRange(v@),
            CleanError::NotFound(v) => CleanFault::NotFound(v@),
            CleanError::NotDetected(tried) => CleanFault::NotDetected(texts(tried@)),
        }
    }
}

/// The error in words.
pub open spec fn clean_error_text(e: CleanFault) -> Seq<char> {
    match e {
        CleanFault::Empty => "input is empty"@,
        CleanFault::Csv(_) => "unterminated quoted CSV field"@,
        CleanFault::OutOfRange(v) => "column index "@ + v + " is out of range"@,
        CleanFault::NotFound(v) => "column '"@ + v + "' not found"@,
        CleanFault::NotDetected(tried) => "could not auto-detect column. Tried: "@ + join_with(
            tried,
            ", "@,
        ) + ". Pass --email-column or --name-column"@,
    }
}

impl CleanError {
    /// The error in words.
    pub fn message(&self) -> (r: String)
        ensures
            r@ == clean_error_text(self@),
    {
        match self {
            CleanError::Empty => "input is empty".to_owned(),
            CleanError::Csv(_) => "unterminated quoted CSV field".to_owned(),
            CleanError::OutOfRange(v) => {
                let mut m = glue("column index ", v.as_str());
                m.append(" is out of range");
                m
            },
            CleanError::NotFound(v) => {
                let mut m = glue("column '", v.as_str());
                m.append("' not found");
                m
            },
            CleanError::NotDetected(tried) => {
                let list = join(tried, ", ");
                let mut m = glue("could not auto-detect column. Tried: ", list.as_str());
                m.append(". Pass --email-column or --name-column");
                m
            },
        }
    }
}

// ---------------------------------------------------------------------------------------
// Columns
// ---------------------------------------------------------------------------------------

/// Whether a column has a name; case and the space around it do not count.
pub open spec fn is_column(column: Seq<char>, name: Seq<char>) -> bool {
    lower_text(trimmed(column)) == lower_text(name)
}

/// The first column with a name.
pub open spec fn column_at(header: Seq<Seq<char>>, name: Seq<char>) -> Option<int>
    decreases header.len(),
{
    if header.len() == 0 {
        None
    } else {
        match column_at(header.drop_last(), name) {
            Some(i) => Some(i),
            None => if is_column(header.last(), name) {
                Some(header.len() - 1)
            } else {
                None
            },
        }
    }
}

/// The column of the first of some names that there is a column for.
pub open spec fn detected(header: Seq<Seq<char>>, candidates: Seq<Seq<char>>) -> Option<int>
    decreases candidates.len(),
{
    if candidates.len() == 0 {
        None
    } else {
        match detected(header, candidates.drop_last()) {
            Some(i) => Some(i),
            None => column_at(header, candidates.last()),
        }
    }
}

/// The column that is asked for: by its number, counted from one, where zero stands for the
/// first column too, or by its name.
pub open spec fn column_ref(header: Seq<Seq<char>>, value: Seq<char>) -> Result<int, CleanFault> {
    match unsigned_value(value, usize::MAX as nat) {
        Some(n) => {
            let i = if n == 0 {
                0
            } else {
                n - 1
            };
            if i < header.len() {
                Ok(i)
            } else {
                Err(CleanFault::OutOfRange(value))
            }
        },
        None => match column_at(header, trimmed(value)) {
            Some(i) => Ok(i),
            None => Err(CleanFault::NotFound(value)),
        },
    }
}

/// The column that is asked for, or else the one that is detected.
pub open spec fn column_for(
    header: Seq<Seq<char>>,
    requested: Option<Seq<char>>,
    candidates: Seq<Seq<char>>,
) -> Result<int, CleanFault> {
    match requested {
        Some(value) => column_ref(header, value),
        None => match detected(header, candidates) {
            Some(i) => Ok(i),
            None => Err(CleanFault::NotDetected(candidates)),
        },
    }
}

/// The column that is asked for, or else the one that is detected, if any.
pub open spec fn optional_column_for(
    header: Seq<Seq<char>>,
    requested: Option<Seq<char>>,
    candidates: Seq<Seq<char>>,
) -> Result<Option<int>, CleanFault> {
    match requested {
        Some(value) => match column_ref(header, value) {
            Ok(i) => Ok(Some(i)),
            Err(e) => Err(e),
        },
        None => Ok(detected(header, candidates)),
    }
}

/// A position that was found.
pub open spec fn opt_int(v: Option<usize>) -> Option<int> {
    match v {
        Some(i) => Some(i as int),
        None => None,
    }
}

proof fn lemma_column_prefix(header: Seq<Seq<char>>, name: Seq<char>, n: int)
    requires
        0 <= n <= header.len(),
        column_at(header.take(n), name) is Some,
    ensures
        column_at(header, name) == column_at(header.take(n), name),
    decreases header.len(),
{
    if n < header.len() {
        let d = header.drop_last();
        assert(d.take(n) =~= header.take(n));
        lemma_column_prefix(d, name, n);
    } else {
        assert(header.take(n) =~= header);
    }
}

fn find_column(header: &Vec<String>, name: &str) -> (r: Option<usize>)
    ensures
        opt_int(r) == column_at(texts(header@), name@),
        r matches Some(i) ==> i < header@.len(),
{
    let ghost h = texts(header@);
    let wanted = to_lower(name);
    let mut i: usize = 0;
    while i < header.len()
        invariant
            h == texts(header@),
            wanted@ == lower_text(name@),
            0 <= i <= header.len(),
            column_at(h.take(i as int), name@) is None,
        decreases header.len() - i,
    {
        let column = to_lower(trim(header[i].as_str()));
        proof {
            assert(h[i as int] == header@[i as int]@);
            assert(h.take(i + 1).drop_last() =~= h.take(i as int));
            assert(h.take(i + 1).last() == h[i as int]);
        }
        if column == wanted {
            proof {
                assert(column_at(h.take(i + 1), name@) == Some(i as int));
                lemma_column_prefix(h, name@, i + 1);
            }
            return Some(i);
        }
        i = i + 1;
    }
    assert(h.take(i as int) =~= h);
    None
}

fn detect_column(header: &Vec<String>, candidates: &[&str]) -> (r: Option<usize>)
    ensures
        opt_int(r) == detected(texts(header@), names(candidates@)),
        r matches Some(i) ==> i < header@.len(),
{
    let ghost c = names(candidates@);
    let ghost h = texts(header@);
    let mut i: usize = 0;
    while i < candidates.len()
        invariant
            h == texts(header@),
            c == names(candidates@),
            0 <= i <= candidates.len(),
            detected(h, c.take(i as int)) is None,
        decreases candidates.len() - i,
    {
        proof {
            assert(c[i as int] == candidates@[i as int]@);
            assert(c.take(i + 1).drop_last() =~= c.take(i as int));
            assert(c.take(i + 1).last() == c[i as int]);
        }
        if let Some(k) = find_column(header, candidates[i]) {
            proof {
                assert(detected(h, c.take(i + 1)) == Some(k as int));
                lemma_detected_prefix(h, c, i + 1);
            }
            return Some(k);
        }
        i = i + 1;
    }
    assert(c.take(i as int) =~= c);
    None
}

proof fn lemma_detected_prefix(header: Seq<Seq<char>>, c: Seq<Seq<char>>, n: int)
    requires
        0 <= n <= c.len(),
        detected(header, c.take(n)) is Some,
    ensures
        detected(header, c) == detected(header, c.take(n)),
    decreases c.len(),
{
    if n < c.len() {
        let d = c.drop_last();
        assert(d.take(n) =~= c.take(n));
        lemma_detected_prefix(header, d, n);
    } else {
        assert(c.take(n) =~= c);
    }
}

fn owned_names(candidates: &[&str]) -> (r: Vec<String>)
    ensures
        texts(r@) == names(candidates@),
{
    let mut r: Vec<String> = Vec::new();
    let mut i: usize = 0;
    while i < candidates.len()
        invariant
            0 <= i <= candidates.len(),
            r@.len() == i,
            forall|j: int| 0 <= j < i ==> (#[trigger] r@[j])@ == candidates@[j]@,
        decreases candidates.len() - i,
    {
        r.push(candidates[i].to_owned());
        i = i + 1;
    }
    assert(texts(r@) =~= names(candidates@));
    r
}

/// The column that a value asks for.
pub fn parse_column_ref(header: &Vec<String>, value: &str) -> (r: Result<usize, CleanError>)
    ensures
        match r {
            Ok(i) => column_ref(texts(header@), value@) == Ok::<int, CleanFault>(i as int) && i
                < header@.len(),
            Err(e) => column_ref(texts(header@), value@) == Err::<int, CleanFault>(e@),
        },
{
    assert(texts(header@).len() == header@.len());
    if let Some(n) = parse_usize(value) {
        let i = if n == 0 {
            0
        } else {
            n - 1
        };
        if i < header.len() {
            return Ok(i);
        }
        return Err(CleanError::OutOfRange(value.to_owned()));
    }
    match find_column(header, trim(value)) {
        Some(i) => Ok(i),
        None => Err(CleanError::NotFound(value.to_owned())),
    }
}

/// The column that is asked for, or else the one that is detected.
pub fn resolve_column(header: &Vec<String>, requested: Option<&str>, candidates: &[&str]) -> (r:
    Result<usize, CleanError>)
    ensures
        match r {
            Ok(i) => column_for(texts(header@), opt_str(requested), names(candidates@)) == Ok::<
                int,
                CleanFault,
            >(i as int) && i < header@.len(),
            Err(e) => column_for(texts(header@), opt_str(requested), names(candidates@)) == Err::<
                int,
                CleanFault,
            >(e@),
        },
{
    if let Some(value) = requested {
        return parse_column_ref(header, value);
    }
    match detect_column(header, candidates) {
        Some(i) => Ok(i),
        None => Err(CleanError::NotDetected(owned_names(candidates))),
    }
}

/// The column that is asked for, or else the one that is detected, if any.
pub fn resolve_optional_column(
    header: &Vec<String>,
    requested: Option<&str>,
    candidates: &[&str],
) -> (r: Result<Option<usize>, CleanError>)
    ensures
        match r {
            Ok(i) => optional_column_for(texts(header@), opt_str(requested), names(candidates@))
                == Ok::<Option<int>, CleanFault>(opt_int(i)) && (i matches Some(k) ==> k
                < header@.len()),
            Err(e) => optional_column_for(texts(header@), opt_str(requested), names(candidates@))
                == Err::<Option<int>, CleanFault>(e@),
        },
{
    if let Some(value) = requested {
        return match parse_column_ref(header, value) {
            Ok(i) => Ok(Some(i)),
            Err(e) => Err(e),
        };
    }
    Ok(detect_column(header, candidates))
}

// ---------------------------------------------------------------------------------------
// Filters
// ---------------------------------------------------------------------------------------

/// Which addresses are unwanted.
#[derive(Debug, PartialEq, Eq)]
pub struct Filters {
    pub domain_contains: Vec<String>,
    pub email_contains: Vec<String>,
    pub exact_emails: Vec<String>,
}

/// The terms of which a domain must contain none.
pub open spec fn domain_terms(a: CleanText) -> Seq<Seq<char>> {
    (if !a.no_defaults && !a.keep_free_mail {
        terms_of(FREE_MAIL_DOMAINS@)
    } else {
        Seq::empty()
    }) + all_terms(a.exclude_domain_contains)
}

/// The terms of which an address must contain none.
pub open spec fn email_terms(a: CleanText) -> Seq<Seq<char>> {
    (if !a.no_defaults {
        terms_of(DEFAULT_EMAIL_CONTAINS@)
    } else {
        Seq::empty()
    }) + (if a.drop_role_accounts {
        terms_of(ROLE_ACCOUNT_PREFIXES@)
    } else {
        Seq::empty()
    }) + all_terms(a.exclude_email_contains)
}

/// Whether an address is one of those to drop.
pub open spec fn is_excluded(a: CleanText, address: Seq<char>) -> bool {
    exists|i: int|
        0 <= i < all_terms(a.exclude_email).len() && names_address(
            #[trigger] all_terms(a.exclude_email)[i],
            address,
        )
}

/// Whether a text names an address.
pub open spec fn names_address(s: Seq<char>, address: Seq<char>) -> bool {
    email_of(s) matches Some(e) && e.address == address
}

/// Whether filters are those that are asked for.
pub open spec fn are_filters(a: CleanText, f: Filters) -> bool {
    &&& strictly_ordered(texts(f.domain_contains@))
    &&& strictly_ordered(texts(f.email_contains@))
    &&& forall|x: Seq<char>| #[trigger]
        texts(f.domain_contains@).contains(x) <==> domain_terms(a).contains(x)
    &&& forall|x: Seq<char>| #[trigger]
        texts(f.email_contains@).contains(x) <==> email_terms(a).contains(x)
    &&& forall|x: Seq<char>| #[trigger] texts(f.exact_emails@).contains(x) <==> is_excluded(a, x)
}

fn addresses_in(terms: &Vec<String>) -> (r: Vec<String>)
    ensures
        forall|x: Seq<char>| #[trigger]
            texts(r@).contains(x) <==> exists|i: int|
                0 <= i < terms@.len() && names_address(#[trigger] texts(terms@)[i], x),
{
    let ghost t = texts(terms@);
    let mut r: Vec<String> = Vec::new();
    let mut i: usize = 0;
    while i < terms.len()
        invariant
            t == texts(terms@),
            0 <= i <= terms.len(),
            forall|x: Seq<char>| #[trigger]
                texts(r@).contains(x) <==> exists|j: int|
                    0 <= j < i && names_address(#[trigger] t[j], x),
        decreases terms.len() - i,
    {
        let ghost before = texts(r@);
        assert(t[i as int] == terms@[i as int]@);
        if let Some(e) = normalize_email(terms[i].as_str()) {
            let ghost a = e.address@;
            r.push(e.address);
            assert(texts(r@) =~= before.push(a));
        }
        proof {
            assert forall|x: Seq<char>| #[trigger] texts(r@).contains(x) <==> exists|j: int|
                0 <= j < i + 1 && names_address(#[trigger] t[j], x) by {
                if let Some(e) = email_of(t[i as int]) {
                    lemma_push_contains(before, e.address, x);
                }
                if before.contains(x) {
                    let j = choose|j: int| 0 <= j < i && names_address(#[trigger] t[j], x);
                    assert(names_address(t[j], x));
                }
                if names_address(t[i as int], x) {
                    assert(texts(r@).contains(x));
                }
            }
        }
        i = i + 1;
    }
    r
}

/// The filters that are asked for.
pub fn build_filters(args: &CleanArgs) -> (r: Filters)
    ensures
        are_filters(args@, r),
{
    let mut domain_contains: Vec<String> = Vec::new();
    let mut email_contains: Vec<String> = Vec::new();
    assert(texts(domain_contains@) =~= Seq::empty());
    assert(texts(email_contains@) =~= Seq::empty());
    if !args.no_defaults {
        email_contains = split_terms(DEFAULT_EMAIL_CONTAINS);
        if !args.keep_free_mail {
            domain_contains = split_terms(FREE_MAIL_DOMAINS);
        }
    }
    if args.drop_role_accounts {
        add_terms(&mut email_contains, split_terms(ROLE_ACCOUNT_PREFIXES));
    } else {
        assert(texts(email_contains@) =~= texts(email_contains@) + Seq::<Seq<char>>::empty());
    }
    add_terms(&mut domain_contains, split_values(&args.exclude_domain_contains));
    add_terms(&mut email_contains, split_values(&args.exclude_email_contains));
    assert(texts(domain_contains@) == domain_terms(args@));
    assert(texts(email_contains@) == email_terms(args@));
    let excluded = split_values(&args.exclude_email);
    let exact_emails = addresses_in(&excluded);
    proof {
        assert(texts(excluded@).len() == excluded@.len());
        assert forall|x: Seq<char>| #[trigger] texts(exact_emails@).contains(x) <==> is_excluded(
            args@,
            x,
        ) by {
            if is_excluded(args@, x) {
                let i = choose|i: int|
                    0 <= i < all_terms(args@.exclude_email).len() && names_address(
                        #[trigger] all_terms(args@.exclude_email)[i],
                        x,
                    );
                assert(names_address(texts(excluded@)[i], x));
            }
            if texts(exact_emails@).contains(x) {
                let i = choose|i: int|
                    0 <= i < excluded@.len() && names_address(#[trigger] texts(excluded@)[i], x);
                assert(names_address(all_terms(args@.exclude_email)[i], x));
            }
        }
    }
    Filters {
        domain_contains: sort_distinct(domain_contains),
        email_contains: sort_distinct(email_contains),
        exact_emails,
    }
}

fn add_terms(list: &mut Vec<String>, more: Vec<String>)
    ensures
        texts(final(list)@) == texts(old(list)@) + texts(more@),
{
    let ghost before = texts(list@);
    let ghost added = texts(more@);
    let mut more = more;
    list.append(&mut more);
    assert(texts(list@) =~= before + added);
}

/// Why a row is dropped.
#[derive(Debug, Clone, Copy, PartialEq, Eq, Structural)]
pub enum DropReason {
    Invalid,
    Excluded,
    DomainPattern,
    EmailPattern,
    Duplicate,
}

/// The reason in words.
pub open spec fn reason_text(r: DropReason) -> Seq<char> {
    match r {
        DropReason::Invalid => "invalid email"@,
        DropReason::Excluded => "exact email excluded"@,
        DropReason::DomainPattern => "domain pattern excluded"@,
        DropReason::EmailPattern => "email pattern excluded"@,
        DropReason::Duplicate => "duplicate email"@,
    }
}

impl DropReason {
    /// The reason in words.
    pub fn as_str(self) -> (r: &'static str)
        ensures
            r@ == reason_text(self),
    {
        match self {
            DropReason::Invalid => "invalid email",
            DropReason::Excluded => "exact email excluded",
            DropReason::DomainPattern => "domain pattern excluded",
            DropReason::EmailPattern => "email pattern excluded",
            DropReason::Duplicate => "duplicate email",
        }
    }
}

/// Why an address is unwanted, if it is.
pub open spec fn unwanted(a: CleanText, e: EmailText) -> Option<DropReason> {
    if is_excluded(a, e.address) {
        Some(DropReason::Excluded)
    } else if has_any(e.domain, domain_terms(a)) {
        Some(DropReason::DomainPattern)
    } else if has_any(e.address, email_terms(a)) {
        Some(DropReason::EmailPattern)
    } else {
        None
    }
}

proof fn lemma_same_terms(x: Seq<char>, a: Seq<Seq<char>>, b: Seq<Seq<char>>)
    requires
        forall|t: Seq<char>| #[trigger] a.contains(t) ==> b.contains(t),
        has_any(x, a),
    ensures
        has_any(x, b),
{
    let i = choose|i: int| 0 <= i < a.len() && has_text(x, #[trigger] a[i]);
    assert(a.contains(a[i]));
    let j = choose|j: int| 0 <= j < b.len() && b[j] == a[i];
    assert(has_text(x, b[j]));
}

/// Why filters take an address for unwanted, if they do.
pub open spec fn filtered_out(f: Filters, e: EmailText) -> Option<DropReason> {
    if texts(f.exact_emails@).contains(e.address) {
        Some(DropReason::Excluded)
    } else if has_any(e.domain, texts(f.domain_contains@)) {
        Some(DropReason::DomainPattern)
    } else if has_any(e.address, texts(f.email_contains@)) {
        Some(DropReason::EmailPattern)
    } else {
        None
    }
}

/// Why filters take an address for unwanted, if they do.
pub fn filter_reason(email: &str, domain: &str, filters: &Filters) -> (r: Option<DropReason>)
    ensures
        r == filtered_out(*filters, (EmailText { address: email@, domain: domain@ })),
{
    if is_one_of(email, &filters.exact_emails) {
        return Some(DropReason::Excluded);
    }
    if contains_any(domain, &filters.domain_contains) {
        return Some(DropReason::DomainPattern);
    }
    if contains_any(email, &filters.email_contains) {
        return Some(DropReason::EmailPattern);
    }
    None
}

/// The filters that were built do what is asked for.
pub proof fn law_filters_do_what_is_asked(a: CleanText, f: Filters, e: EmailText)
    requires
        are_filters(a, f),
    ensures
        filtered_out(f, e) == unwanted(a, e),
{
    let d = texts(f.domain_contains@);
    let m = texts(f.email_contains@);
    if has_any(e.domain, d) {
        lemma_same_terms(e.domain, d, domain_terms(a));
    }
    if has_any(e.address, m) {
        lemma_same_terms(e.address, m, email_terms(a));
    }
    if has_any(e.domain, domain_terms(a)) {
        assert forall|t: Seq<char>| #[trigger] domain_terms(a).contains(t) implies d.contains(t) by {
            assert(d.contains(t) <==> domain_terms(a).contains(t));
        }
        lemma_same_terms(e.domain, domain_terms(a), d);
    }
    if has_any(e.address, email_terms(a)) {
        assert forall|t: Seq<char>| #[trigger] email_terms(a).contains(t) implies m.contains(t) by {
            assert(m.contains(t) <==> email_terms(a).contains(t));
        }
        lemma_same_terms(e.address, email_terms(a), m);
    }
    assert(texts(f.exact_emails@).contains(e.address) <==> is_excluded(a, e.address));
}

// ---------------------------------------------------------------------------------------
// Cleaning
// ---------------------------------------------------------------------------------------

/// A row that was dropped.
#[derive(Debug, PartialEq, Eq)]
pub struct Dropped {
    /// The number of its line.
    pub line: usize,
    /// Its address, as far as it has one.
    pub email: String,
    pub reason: DropReason,
}

/// The texts of a row that was dropped.
pub ghost struct DroppedText {
    pub line: int,
    pub email: Seq<char>,
    pub reason: DropReason,
}

impl View for Dropped {
    type V = DroppedText;

    open spec fn view(&self) -> DroppedText {
        DroppedText { line: self.line as int, email: self.email@, reason: self.reason }
    }
}

/// The texts of rows that were dropped.
pub open spec fn drops(v: Seq<Dropped>) -> Seq<DroppedText> {
    v.map_values(|d: Dropped| d@)
}

/// What became of the rows of a list.
#[derive(Debug, Clone, Copy, PartialEq, Eq, Structural)]
pub struct Summary {
    pub input_rows: usize,
    pub kept_rows: usize,
    pub duplicate_rows: usize,
    pub invalid_rows: usize,
    pub filtered_rows: usize,
}

/// A list, cleaned up to some row.
pub ghost struct Progress {
    /// The rows to write.
    pub rows: Seq<Seq<Seq<char>>>,
    /// The addresses kept.
    pub kept: Seq<Seq<char>>,
    /// The rows dropped.
    pub dropped: Seq<DroppedText>,
    pub input: int,
    pub duplicates: int,
    pub invalid: int,
    pub filtered: int,
}

/// What a row has in a column.
pub open spec fn field_at(row: Seq<Seq<char>>, i: int) -> Seq<char> {
    if 0 <= i < row.len() {
        row[i]
    } else {
        Seq::empty()
    }
}

/// The row to write for a row with an address.
pub open spec fn kept_row(
    a: CleanText,
    email: int,
    name: Option<int>,
    row: Seq<Seq<char>>,
    address: Seq<char>,
) -> Seq<Seq<char>> {
    if a.email_name_only {
        seq![
            address,
            match name {
                Some(i) => trimmed(field_at(row, i)),
                None => Seq::empty(),
            },
        ]
    } else {
        row.update(email, address)
    }
}

/// The header to write.
pub open spec fn kept_header(a: CleanText, header: Seq<Seq<char>>) -> Seq<Seq<char>> {
    if a.email_name_only {
        seq!["email"@, "name"@]
    } else {
        header
    }
}

/// One more row: dropped if its address is invalid, unwanted or there already, and kept
/// otherwise.
pub open spec fn clean_row(
    a: CleanText,
    email: int,
    name: Option<int>,
    p: Progress,
    row: Seq<Seq<char>>,
    line: int,
) -> Progress {
    let raw = field_at(row, email);
    let q = Progress { input: p.input + 1, ..p };
    match email_of(raw) {
        None => Progress {
            invalid: p.invalid + 1,
            dropped: p.dropped.push(
                DroppedText { line, email: raw, reason: DropReason::Invalid },
            ),
            ..q
        },
        Some(e) => match unwanted(a, e) {
            Some(reason) => Progress {
                filtered: p.filtered + 1,
                dropped: p.dropped.push(DroppedText { line, email: e.address, reason }),
                ..q
            },
            None => if p.kept.contains(e.address) {
                Progress {
                    duplicates: p.duplicates + 1,
                    dropped: p.dropped.push(
                        DroppedText { line, email: e.address, reason: DropReason::Duplicate },
                    ),
                    ..q
                }
            } else {
                Progress {
                    kept: p.kept.push(e.address),
                    rows: p.rows.push(kept_row(a, email, name, row, e.address)),
                    ..q
                }
            },
        },
    }
}

/// The rows below the header, one after the other. The header is the first line.
pub open spec fn clean_all(
    a: CleanText,
    email: int,
    name: Option<int>,
    rows: Seq<Seq<Seq<char>>>,
) -> Progress
    decreases rows.len(),
{
    if rows.len() <= 1 {
        Progress {
            rows: seq![kept_header(a, rows[0])],
            kept: Seq::empty(),
            dropped: Seq::empty(),
            input: 0,
            duplicates: 0,
            invalid: 0,
            filtered: 0,
        }
    } else {
        clean_row(
            a,
            email,
            name,
            clean_all(a, email, name, rows.drop_last()),
            rows.last(),
            rows.len() as int,
        )
    }
}

/// The usual names of the column with the addresses.
pub open spec fn email_names() -> Seq<Seq<char>> {
    seq!["email"@, "e-mail"@, "email_address"@, "email address"@, "address"@]
}

/// The usual names of the column with the names.
pub open spec fn name_names() -> Seq<Seq<char>> {
    seq!["name"@, "display_name"@, "display name"@, "full_name"@, "full name"@]
}

/// What comes of cleaning rows.
pub open spec fn clean_result(a: CleanText, rows: Seq<Seq<Seq<char>>>) -> Result<
    Progress,
    CleanFault,
> {
    if rows.len() == 0 {
        Err(CleanFault::Empty)
    } else {
        match column_for(rows[0], a.email_column, email_names()) {
            Err(e) => Err(e),
            Ok(email) => match optional_column_for(rows[0], a.name_column, name_names()) {
                Err(e) => Err(e),
                Ok(name) => Ok(clean_all(a, email, name, rows)),
            },
        }
    }
}

/// What comes of cleaning a list.
pub open spec fn clean_list_result(a: CleanText, text: Seq<char>) -> Result<Progress, CleanFault> {
    match rows_of(lines_of(text)) {
        Some(rows) => clean_result(a, rows),
        None => Err(CleanFault::Csv(CsvError::UnterminatedQuote)),
    }
}

/// A cleaned list.
#[derive(Debug, PartialEq, Eq)]
pub struct Cleaned {
    pub rows: Vec<Vec<String>>,
    pub dropped: Vec<Dropped>,
    pub summary: Summary,
}

/// Whether a cleaned list is what came of cleaning.
pub open spec fn is_cleaned(c: Cleaned, p: Progress) -> bool {
    &&& rows_text(c.rows@) == p.rows
    &&& drops(c.dropped@) == p.dropped
    &&& c.summary.input_rows == p.input
    &&& c.summary.kept_rows == p.kept.len()
    &&& c.summary.duplicate_rows == p.duplicates
    &&& c.summary.invalid_rows == p.invalid
    &&& c.summary.filtered_rows == p.filtered
}

fn copy_row(row: &Vec<String>) -> (r: Vec<String>)
    ensures
        texts(r@) == texts(row@),
        r@.len() == row@.len(),
{
    let mut r: Vec<String> = Vec::new();
    let mut i: usize = 0;
    while i < row.len()
        invariant
            0 <= i <= row.len(),
            r@.len() == i,
            forall|j: int| 0 <= j < i ==> (#[trigger] r@[j])@ == row@[j]@,
        decreases row.len() - i,
    {
        r.push(row[i].clone());
        i = i + 1;
    }
    assert(texts(r@) =~= texts(row@));
    r
}

fn field(row: &Vec<String>, i: usize) -> (r: &str)
    ensures
        r@ == field_at(texts(row@), i as int),
{
    if i < row.len() {
        row[i].as_str()
    } else {
        proof {
            reveal_strlit("");
            assert(""@ =~= Seq::empty());
        }
        ""
    }
}

fn row_to_write(
    args: &CleanArgs,
    email: usize,
    name: Option<usize>,
    row: &Vec<String>,
    address: &String,
) -> (r: Vec<String>)
    requires
        args.email_name_only || email < row@.len(),
    ensures
        texts(r@) == kept_row(args@, email as int, opt_int(name), texts(row@), address@),
{
    if args.email_name_only {
        let mut r: Vec<String> = Vec::new();
        r.push(address.clone());
        let text = match name {
            Some(i) => trim(field(row, i)).to_owned(),
            None => String::new(),
        };
        r.push(text);
        assert(texts(r@) =~= kept_row(args@, email as int, opt_int(name), texts(row@), address@));
        r
    } else {
        let mut r = copy_row(row);
        let ghost before = texts(r@);
        r.set(email, address.clone());
        assert(texts(r@) =~= before.update(email as int, address@));
        r
    }
}

fn header_to_write(args: &CleanArgs, header: &Vec<String>) -> (r: Vec<String>)
    ensures
        texts(r@) == kept_header(args@, texts(header@)),
{
    if args.email_name_only {
        let mut r: Vec<String> = Vec::new();
        r.push("email".to_owned());
        r.push("name".to_owned());
        assert(texts(r@) =~= seq!["email"@, "name"@]);
        r
    } else {
        copy_row(header)
    }
}

/// Takes one row of a list.
fn take_row(
    args: &CleanArgs,
    filters: &Filters,
    email: usize,
    name: Option<usize>,
    seen: &mut StringHashMap<bool>,
    done: &mut Cleaned,
    row: &Vec<String>,
    line: usize,
    Ghost(p): Ghost<Progress>,
)
    requires
        are_filters(args@, *filters),
        is_cleaned(*old(done), p),
        forall|e: Seq<char>| #[trigger] old(seen)@.contains_key(e) <==> p.kept.contains(e),
        p.input < usize::MAX,
        p.input == p.kept.len() + p.duplicates + p.invalid + p.filtered,
        p.duplicates >= 0,
        p.invalid >= 0,
        p.filtered >= 0,
    ensures
        ({
            let q = clean_row(args@, email as int, opt_int(name), p, texts(row@), line as int);
            &&& is_cleaned(*final(done), q)
            &&& forall|e: Seq<char>| #[trigger]
                final(seen)@.contains_key(e) <==> q.kept.contains(e)
        }),
{
    let ghost r0 = rows_text(done.rows@);
    let ghost d0 = drops(done.dropped@);
    done.summary.input_rows = done.summary.input_rows + 1;
    let raw = field(row, email);
    assert(texts(row@).len() == row@.len());
    let e = match normalize_email(raw) {
        Some(e) => e,
        None => {
            done.summary.invalid_rows = done.summary.invalid_rows + 1;
            done.dropped.push(Dropped { line, email: raw.to_owned(), reason: DropReason::Invalid });
            assert(drops(done.dropped@) =~= d0.push(
                DroppedText { line: line as int, email: raw@, reason: DropReason::Invalid },
            ));
            return ;
        },
    };
    assert(raw@.len() > 0) by {
        if raw@.len() == 0 {
            lemma_empty_names_nothing(raw@);
        }
    }
    proof {
        law_filters_do_what_is_asked(args@, *filters, e@);
    }
    if let Some(reason) = filter_reason(e.address.as_str(), e.domain.as_str(), filters) {
        done.summary.filtered_rows = done.summary.filtered_rows + 1;
        let ghost x = e.address@;
        done.dropped.push(Dropped { line, email: e.address, reason });
        assert(drops(done.dropped@) =~= d0.push(
            DroppedText { line: line as int, email: x, reason },
        ));
        return ;
    }
    if seen.contains_key(e.address.as_str()) {
        done.summary.duplicate_rows = done.summary.duplicate_rows + 1;
        let ghost x = e.address@;
        done.dropped.push(Dropped { line, email: e.address, reason: DropReason::Duplicate });
        assert(drops(done.dropped@) =~= d0.push(
            DroppedText { line: line as int, email: x, reason: DropReason::Duplicate },
        ));
        return ;
    }
    done.summary.kept_rows = done.summary.kept_rows + 1;
    let kept = row_to_write(args, email, name, row, &e.address);
    let ghost k = texts(kept@);
    done.rows.push(kept);
    assert(rows_text(done.rows@) =~= r0.push(k));
    let ghost s0 = seen@;
    let ghost x = e.address@;
    seen.insert(e.address, true);
    assert forall|a: Seq<char>| #[trigger] seen@.contains_key(a) <==> p.kept.push(x).contains(
        a,
    ) by {
        lemma_push_contains(p.kept, x, a);
        assert(s0.contains_key(a) <==> p.kept.contains(a));
    }
}

proof fn lemma_empty_names_nothing(s: Seq<char>)
    requires
        s.len() == 0,
    ensures
        email_of(s) is None,
{
    lemma_trim_keeps(s, CharClass::Space);
    lemma_trim_keeps(s, CharClass::Wrapping);
    lemma_rfind(s, '@');
}

/// Cleans rows, of which the first is the header.
pub fn clean_rows(args: &CleanArgs, rows: &Vec<Vec<String>>) -> (r: Result<Cleaned, CleanError>)
    ensures
        match r {
            Ok(c) => clean_result(args@, rows_text(rows@)) matches Ok(p) && is_cleaned(c, p),
            Err(e) => clean_result(args@, rows_text(rows@)) == Err::<Progress, CleanFault>(e@),
        },
{
    let ghost t = rows_text(rows@);
    if rows.len() == 0 {
        return Err(CleanError::Empty);
    }
    let header = &rows[0];
    assert(t[0] == texts(header@));
    let emails = ["email", "e-mail", "email_address", "email address", "address"];
    let people = ["name", "display_name", "display name", "full_name", "full name"];
    assert(names(emails@) =~= email_names());
    assert(names(people@) =~= name_names());
    let email_column = match &args.email_column {
        Some(c) => Some(c.as_str()),
        None => None,
    };
    let name_column = match &args.name_column {
        Some(c) => Some(c.as_str()),
        None => None,
    };
    let email = match resolve_column(header, email_column, &emails) {
        Ok(i) => i,
        Err(e) => {
            return Err(e);
        },
    };
    let name = match resolve_optional_column(header, name_column, &people) {
        Ok(i) => i,
        Err(e) => {
            return Err(e);
        },
    };
    let filters = build_filters(args);
    let mut seen: StringHashMap<bool> = StringHashMap::new();
    let mut kept: Vec<Vec<String>> = Vec::new();
    kept.push(header_to_write(args, header));
    let mut done = Cleaned {
        rows: kept,
        dropped: Vec::new(),
        summary: Summary {
            input_rows: 0,
            kept_rows: 0,
            duplicate_rows: 0,
            invalid_rows: 0,
            filtered_rows: 0,
        },
    };
    let mut i: usize = 1;
    proof {
        assert(t.take(1)[0] == t[0]);
        assert(rows_text(done.rows@) =~= seq![kept_header(args@, t[0])]);
        assert(drops(done.dropped@) =~= Seq::empty());
    }
    while i < rows.len()
        invariant
            t == rows_text(rows@),
            1 <= i <= rows.len(),
            are_filters(args@, filters),
            is_cleaned(done, clean_all(args@, email as int, opt_int(name), t.take(i as int))),
            forall|e: Seq<char>| #[trigger]
                seen@.contains_key(e) <==> clean_all(
                    args@,
                    email as int,
                    opt_int(name),
                    t.take(i as int),
                ).kept.contains(e),
        decreases rows.len() - i,
    {
        let ghost p = clean_all(args@, email as int, opt_int(name), t.take(i as int));
        proof {
            assert(t.take(i + 1).drop_last() =~= t.take(i as int));
            assert(t.take(i + 1).last() == t[i as int]);
            assert(t[i as int] == texts(rows@[i as int]@));
            lemma_progress(args@, email as int, opt_int(name), t.take(i as int));
        }
        take_row(args, &filters, email, name, &mut seen, &mut done, &rows[i], i + 1, Ghost(p));
        i = i + 1;
    }
    assert(t.take(i as int) =~= t);
    Ok(done)
}

proof fn lemma_progress(a: CleanText, email: int, name: Option<int>, rows: Seq<Seq<Seq<char>>>)
    requires
        rows.len() > 0,
    ensures
        ({
            let p = clean_all(a, email, name, rows);
            &&& p.input == rows.len() - 1
            &&& p.input == p.kept.len() + p.duplicates + p.invalid + p.filtered
            &&& p.rows.len() == p.kept.len() + 1
            &&& p.dropped.len() == p.duplicates + p.invalid + p.filtered
            &&& p.duplicates >= 0
            &&& p.invalid >= 0
            &&& p.filtered >= 0
        }),
    decreases rows.len(),
{
    if rows.len() > 1 {
        lemma_progress(a, email, name, rows.drop_last());
    }
}

/// Cleans the lines of a list.
pub fn clean_list(args: &CleanArgs, text: &str) -> (r: Result<Cleaned, CleanError>)
    ensures
        match r {
            Ok(c) => clean_list_result(args@, text@) matches Ok(p) && is_cleaned(c, p),
            Err(e) => clean_list_result(args@, text@) == Err::<Progress, CleanFault>(e@),
        },
{
    match read_rows(text) {
        Ok(rows) => clean_rows(args, &rows),
        Err(e) => {
            assert(e == CsvError::UnterminatedQuote);
            Err(CleanError::Csv(e))
        },
    }
}

/// The report on a cleaned list.
pub open spec fn report_text(s: Summary) -> Seq<char> {
    "Cleaned list: "@ + decimal(s.input_rows as nat) + " input, "@ + decimal(s.kept_rows as nat)
        + " kept, "@ + decimal(s.filtered_rows as nat) + " filtered, "@ + decimal(
        s.invalid_rows as nat,
    ) + " invalid, "@ + decimal(s.duplicate_rows as nat) + " duplicates"@
}

impl Summary {
    /// The report on a cleaned list.
    pub fn report(&self) -> (r: String)
        ensures
            r@ == report_text(*self),
    {
        let mut m = glue("Cleaned list: ", usize_text(self.input_rows).as_str());
        m.append(" input, ");
        m.append(usize_text(self.kept_rows).as_str());
        m.append(" kept, ");
        m.append(usize_text(self.filtered_rows).as_str());
        m.append(" filtered, ");
        m.append(usize_text(self.invalid_rows).as_str());
        m.append(" invalid, ");
        m.append(usize_text(self.duplicate_rows).as_str());
        m.append(" duplicates");
        m
    }
}

/// What is told of a row that was dropped.
pub open spec fn explanation(d: DroppedText) -> Seq<char> {
    "line "@ + decimal(d.line as nat) + ": dropped "@ + d.email + " ("@ + reason_text(d.reason)
        + ")"@
}

impl Dropped {
    /// What is told of a row that was dropped.
    pub fn explain(&self) -> (r: String)
        ensures
            r@ == explanation(self@),
    {
        let mut m = glue("line ", usize_text(self.line).as_str());
        m.append(": dropped ");
        m.append(self.email.as_str());
        m.append(" (");
        m.append(self.reason.as_str());
        m.append(")");
        m
    }
}

// ---------------------------------------------------------------------------------------
// Laws
// ---------------------------------------------------------------------------------------

/// Every row below the header is accounted for: kept, or dropped with a reason.
pub proof fn law_rows_add_up(a: CleanText, email: int, name: Option<int>, rows: Seq<Seq<Seq<char>>>)
    requires
        rows.len() > 0,
    ensures
        ({
            let p = clean_all(a, email, name, rows);
            &&& p.input == rows.len() - 1
            &&& p.input == p.kept.len() + p.duplicates + p.invalid + p.filtered
            &&& p.rows.len() == p.kept.len() + 1
            &&& p.dropped.len() == p.duplicates + p.invalid + p.filtered
        }),
{
    lemma_progress(a, email, name, rows);
}

/// Whether a row has a wanted address.
pub open spec fn wanted(a: CleanText, email: int, row: Seq<Seq<char>>, address: Seq<char>) -> bool {
    email_of(field_at(row, email)) matches Some(e) && e.address == address && unwanted(a, e) is None
}

/// No address is kept twice, and each address that is kept is the normalized and wanted
/// address of a row below the header.
pub proof fn law_kept_once_and_wanted(
    a: CleanText,
    email: int,
    name: Option<int>,
    rows: Seq<Seq<Seq<char>>>,
)
    requires
        rows.len() > 0,
    ensures
        clean_all(a, email, name, rows).kept.no_duplicates(),
        forall|i: int|
            0 <= i < clean_all(a, email, name, rows).kept.len() ==> exists|j: int|
                1 <= j < rows.len() && wanted(
                    a,
                    email,
                    #[trigger] rows[j],
                    #[trigger] clean_all(a, email, name, rows).kept[i],
                ),
    decreases rows.len(),
{
    if rows.len() > 1 {
        let d = rows.drop_last();
        law_kept_once_and_wanted(a, email, name, d);
        let p = clean_all(a, email, name, d);
        let q = clean_all(a, email, name, rows);
        assert forall|i: int| 0 <= i < q.kept.len() implies exists|j: int|
            1 <= j < rows.len() && wanted(a, email, #[trigger] rows[j], #[trigger] q.kept[i]) by {
            if i < p.kept.len() {
                assert(q.kept[i] == p.kept[i]);
                let j = choose|j: int|
                    1 <= j < d.len() && wanted(a, email, #[trigger] d[j], p.kept[i]);
                assert(rows[j] == d[j]);
                assert(wanted(a, email, rows[j], q.kept[i]));
            } else {
                assert(wanted(a, email, rows[rows.len() - 1], q.kept[i]));
            }
        }
        if q.kept.len() > p.kept.len() {
            assert forall|i: int, j: int|
                0 <= i < q.kept.len() && 0 <= j < q.kept.len() && i != j implies q.kept[i]
                != q.kept[j] by {
                if i == p.kept.len() {
                    assert(p.kept.contains(p.kept[j]));
                } else if j == p.kept.len() {
                    assert(p.kept.contains(p.kept[i]));
                }
            }
        }
    }
}

/// A wanted address of a row is kept.
pub proof fn law_wanted_is_kept(
    a: CleanText,
    email: int,
    name: Option<int>,
    rows: Seq<Seq<Seq<char>>>,
    j: int,
    address: Seq<char>,
)
    requires
        1 <= j < rows.len(),
        wanted(a, email, rows[j], address),
    ensures
        clean_all(a, email, name, rows).kept.contains(address),
    decreases rows.len(),
{
    let d = rows.drop_last();
    let p = clean_all(a, email, name, d);
    if j < d.len() {
        assert(d[j] == rows[j]);
        law_wanted_is_kept(a, email, name, d, j, address);
    }
    if let Some(e) = email_of(field_at(rows.last(), email)) {
        lemma_push_contains(p.kept, e.address, address);
    }
}

proof fn lemma_trimmed_twice(s: Seq<char>)
    ensures
        trimmed(trimmed(s)) == trimmed(s),
{
    let (lo, hi) = lemma_trim_shape(s, CharClass::Space);
    let t = trimmed(s);
    assert(t == s.subrange(lo, hi));
    if t.len() > 0 {
        assert(t[0] == s[lo]);
        assert(t.last() == s[hi - 1]);
    }
    lemma_trim_keeps(t, CharClass::Space);
}

/// The shape of the rows that are kept.
proof fn lemma_kept_rows(a: CleanText, email: int, name: Option<int>, rows: Seq<Seq<Seq<char>>>)
    requires
        rows.len() > 0,
        a.email_name_only,
    ensures
        ({
            let p = clean_all(a, email, name, rows);
            &&& p.rows.len() == p.kept.len() + 1
            &&& p.rows[0] == seq!["email"@, "name"@]
            &&& forall|k: int|
                1 <= k < p.rows.len() ==> (#[trigger] p.rows[k]).len() == 2 && p.rows[k][0]
                    == p.kept[k - 1] && trimmed(p.rows[k][1]) == p.rows[k][1]
        }),
    decreases rows.len(),
{
    if rows.len() > 1 {
        let d = rows.drop_last();
        lemma_kept_rows(a, email, name, d);
        let p = clean_all(a, email, name, d);
        let q = clean_all(a, email, name, rows);
        match name {
            Some(i) => {
                lemma_trimmed_twice(field_at(rows.last(), i));
            },
            None => {
                lemma_trim_keeps(Seq::<char>::empty(), CharClass::Space);
            },
        }
        assert forall|k: int| 1 <= k < q.rows.len() implies (#[trigger] q.rows[k]).len() == 2
            && q.rows[k][0] == q.kept[k - 1] && trimmed(q.rows[k][1]) == q.rows[k][1] by {
            if k < p.rows.len() {
                assert(q.kept[k - 1] == p.kept[k - 1]);
                assert(q.rows[k] == p.rows[k]);
            }
        }
        assert(q.rows[0] == p.rows[0]);
    } else {
        assert(clean_all(a, email, name, rows).rows[0] == kept_header(a, rows[0]));
    }
}

proof fn lemma_written_header()
    ensures
        ({
            let h = seq!["email"@, "name"@];
            &&& detected(h, email_names()) == Some(0int)
            &&& detected(h, name_names()) == Some(1int)
        }),
{
    let h = seq!["email"@, "name"@];
    reveal_strlit("email");
    reveal_strlit("name");
    lemma_trimmed_keeps("email"@);
    lemma_trimmed_keeps("name"@);
    assert(lower_text("email"@).len() == 5);
    assert(lower_text("name"@).len() == 4);
    let h1 = h.take(1);
    assert(h1.drop_last().len() == 0);
    assert(column_at(h1.drop_last(), "email"@) is None);
    assert(column_at(h1, "email"@) == Some(0int));
    lemma_column_prefix(h, "email"@, 1);
    assert(column_at(h1.drop_last(), "name"@) is None);
    assert(column_at(h1, "name"@) is None);
    assert(h.drop_last() =~= h1);
    assert(column_at(h, "name"@) == Some(1int));
    let e = email_names();
    let n = name_names();
    assert(detected(h, e.take(1).drop_last()) is None);
    assert(detected(h, e.take(1)) == Some(0int));
    lemma_detected_prefix(h, e, 1);
    assert(detected(h, n.take(1).drop_last()) is None);
    assert(detected(h, n.take(1)) == Some(1int));
    lemma_detected_prefix(h, n, 1);
}

proof fn lemma_clean_again(
    a: CleanText,
    email: int,
    name: Option<int>,
    rows: Seq<Seq<Seq<char>>>,
    k: int,
)
    requires
        rows.len() > 0,
        a.email_name_only,
        forall|i: int|
            0 <= i < clean_all(a, email, name, rows).kept.len() ==> !is_wrapped(
                #[trigger] clean_all(a, email, name, rows).kept[i],
            ),
        0 <= k <= clean_all(a, email, name, rows).kept.len(),
    ensures
        ({
            let p = clean_all(a, email, name, rows);
            let q = clean_all(found_columns(a), 0, Some(1), p.rows.take(k + 1));
            &&& q.rows == p.rows.take(k + 1)
            &&& q.kept == p.kept.take(k)
            &&& q.dropped.len() == 0
        }),
    decreases k,
{
    let b = found_columns(a);
    let p = clean_all(a, email, name, rows);
    lemma_kept_rows(a, email, name, rows);
    let now = p.rows.take(k + 1);
    let q = clean_all(b, 0, Some(1), now);
    if k == 0 {
        assert(q.rows =~= p.rows.take(1));
        assert(q.kept =~= p.kept.take(0));
    } else {
        lemma_clean_again(a, email, name, rows, k - 1);
        let before = clean_all(b, 0, Some(1), p.rows.take(k));
        assert(now.drop_last() =~= p.rows.take(k));
        let row = now.last();
        let x = p.kept[k - 1];
        assert(row == p.rows[k]);
        assert(p.rows[k][0] == x);
        law_kept_once_and_wanted(a, email, name, rows);
        let j = choose|j: int| 1 <= j < rows.len() && wanted(a, email, #[trigger] rows[j], x);
        let e = email_of(field_at(rows[j], email))->0;
        law_email_stable(field_at(rows[j], email));
        assert(email_of(x) == Some(e));
        assert(unwanted(b, e) is None) by {
            assert(domain_terms(b) == domain_terms(a));
            assert(email_terms(b) == email_terms(a));
            assert(is_excluded(b, e.address) == is_excluded(a, e.address));
        }
        assert(!before.kept.contains(x)) by {
            if before.kept.contains(x) {
                let i = choose|i: int| 0 <= i < before.kept.len() && before.kept[i] == x;
                assert(p.kept[i] == p.kept[k - 1]);
            }
        }
        let kept = kept_row(b, 0, Some(1), row, x);
        assert(kept =~= row);
        assert(q.rows =~= p.rows.take(k + 1));
        assert(q.kept =~= p.kept.take(k));
    }
}

/// What to do with a list whose columns are to be found by their usual names.
pub open spec fn found_columns(a: CleanText) -> CleanText {
    CleanText { email_column: None, name_column: None, ..a }
}

/// A list that was cleaned down to addresses and names is clean: cleaning it again changes
/// nothing, unless one of its addresses starts or ends with a bracket or a quote.
pub proof fn law_clean_again(a: CleanText, email: int, name: Option<int>, rows: Seq<Seq<Seq<char>>>)
    requires
        rows.len() > 0,
        a.email_name_only,
        forall|i: int|
            0 <= i < clean_all(a, email, name, rows).kept.len() ==> !is_wrapped(
                #[trigger] clean_all(a, email, name, rows).kept[i],
            ),
    ensures
        ({
            let p = clean_all(a, email, name, rows);
            &&& clean_result(found_columns(a), p.rows) matches Ok(q)
            &&& q.rows == p.rows
            &&& q.kept == p.kept
            &&& q.dropped.len() == 0
        }),
{
    let p = clean_all(a, email, name, rows);
    lemma_kept_rows(a, email, name, rows);
    lemma_written_header();
    lemma_clean_again(a, email, name, rows, p.kept.len() as int);
    assert(p.rows.take(p.kept.len() as int + 1) =~= p.rows);
    assert(p.kept.take(p.kept.len() as int) =~= p.kept);
}

/// Without the built-in filters, only what is given counts.
pub proof fn law_only_what_is_given(a: CleanText)
    requires
        a.no_defaults,
        !a.drop_role_accounts,
    ensures
        domain_terms(a) == all_terms(a.exclude_domain_contains),
        email_terms(a) == all_terms(a.exclude_email_contains),
{
    assert(domain_terms(a) =~= all_terms(a.exclude_domain_contains));
    assert(email_terms(a) =~= all_terms(a.exclude_email_contains));
}

/// Keeping free mail leaves only the given terms for domains.
pub proof fn law_free_mail_kept(a: CleanText)
    requires
        a.keep_free_mail,
    ensures
        domain_terms(a) == all_terms(a.exclude_domain_contains),
{
    assert(domain_terms(a) =~= all_terms(a.exclude_domain_contains));
}

} // verus!
