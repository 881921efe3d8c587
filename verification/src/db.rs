//! The index: what it holds, and what is written to it.
use vstd::prelude::*;

use crate::archive::{addresses, AddressText, MessageText, RawAddress, RawMessage};
use crate::checking::check_rows;
use crate::classify::{classify_sender, filtered_kind, is_filtered_sender_kind, sender_kind};
use crate::clock::{is_utc_time, utc_now};
use crate::normalize::normalize_email;
use crate::ranking::{count_contacts, is_listing, list_contacts, listed_count, matching, summaries};
use crate::room::find_insert_error;
use crate::soundness::{
    law_add_recipient_sound, law_add_recipients_sound, law_passed_over_sound, law_see_address_sound,
    law_see_domain_sound, law_see_sender_sound, law_store_message_sound, lemma_add_recipient_grown,
    lemma_add_recipients_grown, lemma_grown_twice, lemma_index_grown,
};
use crate::stats::{count_rows, stats_of};
use crate::tables::{
    add_recipient, add_recipients, begun_scan, contact_of, finished_scan, fits, has_address,
    has_domain, has_scan, has_scan_room, index_message, is_indexed, last_message_id, message_row,
    new_contact, next_scan_id, no_rows, passed_over, progressed_scan, same_identity, same_recipient,
    see_address, see_contact_again, see_domain, see_sender, seen_again, seen_contact, sound,
    stored_message, within_limits, AddressRow, ContactRow, DomainRow, LastIds, MessageRow,
    RecipientRow, RecipientText, ScanRow, ScanText, Tables, ROW_LIMIT,
};
use crate::text::{opt_str, opt_text, same_text};

pub use crate::ranking::{ContactQuery, ContactSummary};
pub use crate::stats::Stats;

verus! {

/// The version of the tables.
pub const SCHEMA_VERSION: i64 = 1;

/// Why something cannot be written.
#[derive(Debug, Clone, Copy, PartialEq, Eq, Structural)]
pub enum DbError {
    /// A table has no room for another row, or its ids are used up.
    Full,
    /// There is no scan with the id that a message is to belong to.
    UnknownScan,
    /// The rows contradict each other.
    Unsound,
}

/// The error in words.
pub open spec fn db_error_text(e: DbError) -> Seq<char> {
    match e {
        DbError::Full => "database or disk is full"@,
        DbError::UnknownScan => "FOREIGN KEY constraint failed"@,
        DbError::Unsound => "the rows of the database contradict each other"@,
    }
}

impl DbError {
    /// The error in words.
    pub fn message(self) -> (r: String)
        ensures
            r@ == db_error_text(self),
    {
        match self {
            DbError::Full => "database or disk is full".to_owned(),
            DbError::UnknownScan => "FOREIGN KEY constraint failed".to_owned(),
            DbError::Unsound => "the rows of the database contradict each other".to_owned(),
        }
    }
}

/// A row of a table, by its position.
#[derive(Debug, Clone, Copy, PartialEq, Eq, Structural)]
pub enum RowRef {
    Scan(usize),
    Domain(usize),
    Contact(usize),
    Address(usize),
    Message(usize),
    Recipient(usize),
}

/// The rows of all tables, and the ids that were given out.
#[derive(Debug, PartialEq, Eq)]
pub struct Rows {
    pub scans: Vec<ScanRow>,
    pub domains: Vec<DomainRow>,
    pub contacts: Vec<ContactRow>,
    pub addresses: Vec<AddressRow>,
    pub messages: Vec<MessageRow>,
    pub recipients: Vec<RecipientRow>,
    pub ids: LastIds,
}

impl View for Rows {
    type V = Tables;

    open spec fn view(&self) -> Tables {
        Tables {
            scans: self.scans@.map_values(|r: ScanRow| r@),
            domains: self.domains@.map_values(|r: DomainRow| r@),
            contacts: self.contacts@.map_values(|r: ContactRow| r@),
            addresses: self.addresses@.map_values(|r: AddressRow| r@),
            messages: self.messages@.map_values(|r: MessageRow| r@),
            recipients: self.recipients@.map_values(|r: RecipientRow| r@),
            ids: self.ids,
        }
    }
}

/// Whether a list names each row of one table that is new or was changed; `at` gives the name
/// of the row at a position.
pub open spec fn lists_rows<T>(
    before: Seq<T>,
    after: Seq<T>,
    log: Seq<RowRef>,
    at: spec_fn(int) -> RowRef,
) -> bool {
    forall|i: int|
        #![trigger at(i)]
        0 <= i < after.len() && (i >= before.len() || before[i] != after[i]) ==> log.contains(at(i))
}

/// The name of a scan by its position.
pub open spec fn scan_ref() -> spec_fn(int) -> RowRef {
    |i: int| RowRef::Scan(i as usize)
}

/// The name of a domain by its position.
pub open spec fn domain_ref() -> spec_fn(int) -> RowRef {
    |i: int| RowRef::Domain(i as usize)
}

/// The name of a contact by its position.
pub open spec fn contact_ref() -> spec_fn(int) -> RowRef {
    |i: int| RowRef::Contact(i as usize)
}

/// The name of an address by its position.
pub open spec fn address_ref() -> spec_fn(int) -> RowRef {
    |i: int| RowRef::Address(i as usize)
}

/// The name of a message by its position.
pub open spec fn message_ref() -> spec_fn(int) -> RowRef {
    |i: int| RowRef::Message(i as usize)
}

/// The name of a recipient by its position.
pub open spec fn recipient_ref() -> spec_fn(int) -> RowRef {
    |i: int| RowRef::Recipient(i as usize)
}

/// Whether a list names each row that is new or was changed.
pub open spec fn lists_changes(before: Tables, after: Tables, log: Seq<RowRef>) -> bool {
    &&& lists_rows(before.scans, after.scans, log, scan_ref())
    &&& lists_rows(before.domains, after.domains, log, domain_ref())
    &&& lists_rows(before.contacts, after.contacts, log, contact_ref())
    &&& lists_rows(before.addresses, after.addresses, log, address_ref())
    &&& lists_rows(before.messages, after.messages, log, message_ref())
    &&& lists_rows(before.recipients, after.recipients, log, recipient_ref())
}

/// Whether there is a row with a name.
pub open spec fn is_row(t: Tables, row: RowRef) -> bool {
    match row {
        RowRef::Scan(i) => i < t.scans.len(),
        RowRef::Domain(i) => i < t.domains.len(),
        RowRef::Contact(i) => i < t.contacts.len(),
        RowRef::Address(i) => i < t.addresses.len(),
        RowRef::Message(i) => i < t.messages.len(),
        RowRef::Recipient(i) => i < t.recipients.len(),
    }
}

/// Whether all that a list names are rows.
pub open spec fn names_rows(t: Tables, log: Seq<RowRef>) -> bool {
    forall|k: int| 0 <= k < log.len() ==> is_row(t, #[trigger] log[k])
}

/// What keeps a message from being indexed: there is no room for its sender, it is new and there
/// is no room for it, its scan is unknown, or there is no room for its recipients.
pub open spec fn insert_error(t: Tables, scan_id: i64, m: MessageText, now: Seq<char>) -> Option<
    DbError,
> {
    if t.ids.messages == i64::MAX || !fits(t, see_sender(t, m, now)) {
        Some(DbError::Full)
    } else if is_indexed(t, m) {
        None
    } else if !fits(t, stored_message(t, scan_id, m, now)) {
        Some(DbError::Full)
    } else if !has_scan(t, scan_id) {
        Some(DbError::UnknownScan)
    } else if !fits(t, index_message(t, scan_id, m, now)) {
        Some(DbError::Full)
    } else {
        None
    }
}

/// What comes of indexing a message: an error leaves everything as it is.
pub open spec fn insert_result(t: Tables, scan_id: i64, m: MessageText, now: Seq<char>) -> (
    Result<bool, DbError>,
    Tables,
) {
    match insert_error(t, scan_id, m, now) {
        Some(e) => (Err(e), t),
        None => if is_indexed(t, m) {
            (Ok(false), passed_over(t, m, now))
        } else {
            (Ok(true), index_message(t, scan_id, m, now))
        },
    }
}

/// What comes of beginning a scan.
pub open spec fn begin_result(t: Tables, archive_path: Seq<char>, now: Seq<char>) -> (
    Result<i64, DbError>,
    Tables,
) {
    if has_scan_room(t) {
        (Ok(next_scan_id(t) as i64), begun_scan(t, archive_path, now))
    } else {
        (Err(DbError::Full), t)
    }
}

/// The highest of an id that was given out, the id of the last row, and 0.
pub open spec fn top_id(given: i64, last: Option<i64>) -> i64 {
    match last {
        Some(id) if id > given && id > 0 => id,
        _ => if given > 0 {
            given
        } else {
            0
        },
    }
}

/// The tables with the ids of their rows counted as given out.
pub open spec fn with_ids(t: Tables) -> Tables {
    Tables {
        ids: LastIds {
            scans: top_id(
                t.ids.scans,
                if t.scans.len() > 0 {
                    Some(t.scans.last().id)
                } else {
                    None
                },
            ),
            contacts: top_id(
                t.ids.contacts,
                if t.contacts.len() > 0 {
                    Some(t.contacts.last().id)
                } else {
                    None
                },
            ),
            addresses: top_id(
                t.ids.addresses,
                if t.addresses.len() > 0 {
                    Some(t.addresses.last().id)
                } else {
                    None
                },
            ),
            messages: top_id(
                t.ids.messages,
                if t.messages.len() > 0 {
                    Some(t.messages.last().id)
                } else {
                    None
                },
            ),
        },
        ..t
    }
}

fn find_top_id(given: i64, last: Option<i64>) -> (r: i64)
    ensures
        r == top_id(given, last),
{
    let low = if given > 0 {
        given
    } else {
        0
    };
    match last {
        Some(id) => if id > low {
            id
        } else {
            low
        },
        None => low,
    }
}

/// The index of a mail archive.
pub struct Database {
    rows: Rows,
    log: Vec<RowRef>,
    saved: Ghost<Tables>,
}

impl View for Database {
    type V = Tables;

    closed spec fn view(&self) -> Tables {
        self.rows@
    }
}

impl Database {
    /// The tables when the changes were last taken.
    pub closed spec fn saved(&self) -> Tables {
        self.saved@
    }

    /// The tables are sound, and the rows that were written since the changes were last taken
    /// are noted, among them each that is new or was changed.
    pub closed spec fn wf(&self) -> bool {
        &&& sound(self.rows@)
        &&& lists_changes(self.saved@, self.rows@, self.log@)
        &&& names_rows(self.rows@, self.log@)
    }

    /// A database without rows.
    pub fn open_memory() -> (r: Result<Database, DbError>)
        ensures
            r matches Ok(db) && db.wf() && db@ == no_rows() && db.saved() == no_rows(),
    {
        let rows = Rows {
            scans: Vec::new(),
            domains: Vec::new(),
            contacts: Vec::new(),
            addresses: Vec::new(),
            messages: Vec::new(),
            recipients: Vec::new(),
            ids: LastIds { scans: 0, contacts: 0, addresses: 0, messages: 0 },
        };
        assert(rows@ =~= no_rows());
        Ok(Database { rows, log: Vec::new(), saved: Ghost(no_rows()) })
    }

    /// A database with rows that were stored before, in the order of their ids; rows that
    /// contradict each other are refused.
    pub fn from_rows(rows: Rows) -> (r: Result<Database, DbError>)
        ensures
            match r {
                Ok(db) => sound(with_ids(rows@)) && db.wf() && db@ == with_ids(rows@) && db.saved()
                    == with_ids(rows@),
                Err(e) => e == DbError::Unsound && !sound(with_ids(rows@)),
            },
    {
        let ghost given = rows@;
        let mut rows = rows;
        let n = rows.scans.len();
        let scans = find_top_id(
            rows.ids.scans,
            if n > 0 {
                assert(given.scans.last() == rows.scans@[n - 1]@);
                Some(rows.scans[n - 1].id)
            } else {
                None
            },
        );
        let n = rows.contacts.len();
        let contacts = find_top_id(
            rows.ids.contacts,
            if n > 0 {
                assert(given.contacts.last() == rows.contacts@[n - 1]@);
                Some(rows.contacts[n - 1].id)
            } else {
                None
            },
        );
        let n = rows.addresses.len();
        let addresses = find_top_id(
            rows.ids.addresses,
            if n > 0 {
                assert(given.addresses.last() == rows.addresses@[n - 1]@);
                Some(rows.addresses[n - 1].id)
            } else {
                None
            },
        );
        let n = rows.messages.len();
        let messages = find_top_id(
            rows.ids.messages,
            if n > 0 {
                assert(given.messages.last() == rows.messages@[n - 1]@);
                Some(rows.messages[n - 1].id)
            } else {
                None
            },
        );
        rows.ids = LastIds { scans, contacts, addresses, messages };
        assert(rows@ =~= with_ids(given));
        if check_rows(&rows) {
            Ok(Database { saved: Ghost(rows@), rows, log: Vec::new() })
        } else {
            Err(DbError::Unsound)
        }
    }

    /// The rows.
    pub fn rows(&self) -> (r: &Rows)
        ensures
            r@ == self@,
    {
        &self.rows
    }

    /// Takes the list of the rows that were written since it was last taken: it names rows
    /// only, and each row that is new or was changed. A row that was written with what it held
    /// before is named too.
    pub fn take_changes(&mut self) -> (r: Vec<RowRef>)
        requires
            old(self).wf(),
        ensures
            final(self).wf(),
            final(self)@ == old(self)@,
            final(self).saved() == old(self)@,
            lists_changes(old(self).saved(), old(self)@, r@),
            names_rows(old(self)@, r@),
    {
        let mut taken: Vec<RowRef> = Vec::new();
        std::mem::swap(&mut taken, &mut self.log);
        self.saved = Ghost(self.rows@);
        taken
    }

    // -----------------------------------------------------------------------------------
    // Addresses
    // -----------------------------------------------------------------------------------

    fn find_domain(&self, domain: &String) -> (r: Option<usize>)
        ensures
            match r {
                Some(i) => i < self.rows.domains@.len() && self@.domains[i as int].domain == domain@,
                None => !has_domain(self@, domain@),
            },
    {
        let mut i: usize = 0;
        while i < self.rows.domains.len()
            invariant
                0 <= i <= self.rows.domains.len(),
                forall|j: int| 0 <= j < i ==> (#[trigger] self@.domains[j]).domain != domain@,
            decreases self.rows.domains.len() - i,
        {
            assert(self@.domains[i as int] == self.rows.domains@[i as int]@);
            if self.rows.domains[i].domain == *domain {
                return Some(i);
            }
            i = i + 1;
        }
        None
    }

    fn see_domain(&mut self, domain: &String, now: &str)
        requires
            old(self).wf(),
            within_limits(see_domain(old(self)@, domain@, now@)),
        ensures
            final(self).wf(),
            final(self)@ == see_domain(old(self)@, domain@, now@),
            final(self).saved() == old(self).saved(),
    {
        let ghost before = self@;
        let ghost log0 = self.log@;
        proof {
            law_see_domain_sound(before, domain@, now@);
        }
        match self.find_domain(domain) {
            Some(i) => {
                self.rows.domains[i].last_seen_at = Some(now.to_owned());
                self.log.push(RowRef::Domain(i));
                assert(self.log@[log0.len() as int] == domain_ref()(i as int));
                assert(self@ =~= see_domain(before, domain@, now@));
            },
            None => {
                let i = self.rows.domains.len();
                self.rows.domains.push(
                    DomainRow {
                        domain: domain.clone(),
                        message_count: 0,
                        contact_count: 1,
                        first_seen_at: Some(now.to_owned()),
                        last_seen_at: Some(now.to_owned()),
                    },
                );
                self.log.push(RowRef::Domain(i));
                assert(self.log@[log0.len() as int] == domain_ref()(i as int));
                assert(self@ =~= see_domain(before, domain@, now@));
            },
        }
        proof {
            lemma_log_grows(self.saved@, before, self@, log0, self.log@);
        }
    }

    fn find_address(&self, email: &String) -> (r: Option<usize>)
        requires
            self.wf(),
        ensures
            match r {
                Some(i) => i < self.rows.addresses@.len() && self@.addresses[i as int].email
                    == email@ && has_address(self@, email@) && contact_of(self@, email@)
                    == self@.addresses[i as int].contact_id,
                None => !has_address(self@, email@),
            },
    {
        let mut i: usize = 0;
        while i < self.rows.addresses.len()
            invariant
                self.wf(),
                0 <= i <= self.rows.addresses.len(),
                forall|j: int| 0 <= j < i ==> (#[trigger] self@.addresses[j]).email != email@,
            decreases self.rows.addresses.len() - i,
        {
            assert(self@.addresses[i as int] == self.rows.addresses@[i as int]@);
            if self.rows.addresses[i].email == *email {
                proof {
                    let k = choose|k: int|
                        0 <= k < self@.addresses.len() && (#[trigger] self@.addresses[k]).email
                            == email@;
                    assert(k == i);
                }
                return Some(i);
            }
            i = i + 1;
        }
        None
    }

    fn see_contact_again(&mut self, id: i64, kind: &str, now: &str)
        requires
            old(self).wf(),
        ensures
            sound(see_contact_again(old(self)@, id, kind@, now@)) ==> final(self).wf(),
            final(self)@ == see_contact_again(old(self)@, id, kind@, now@),
            final(self).saved() == old(self).saved(),
    {
        let ghost before = self@;
        let ghost log0 = self.log@;
        let mut i: usize = 0;
        while i < self.rows.contacts.len() && self.rows.contacts[i].id != id
            invariant
                self@ == before,
                self.log@ == log0,
                self.saved@ == old(self).saved@,
                0 <= i <= self.rows.contacts.len(),
                forall|j: int| 0 <= j < i ==> (#[trigger] self@.contacts[j]).id != id,
            decreases self.rows.contacts.len() - i,
        {
            assert(self@.contacts[i as int] == self.rows.contacts@[i as int]@);
            i = i + 1;
        }
        if i < self.rows.contacts.len() {
            let ghost row = self.rows.contacts@[i as int]@;
            assert(before.contacts[i as int] == row);
            let count = self.rows.contacts[i].message_count;
            self.rows.contacts[i].last_seen_at = Some(now.to_owned());
            self.rows.contacts[i].message_count = if count < i64::MAX {
                count + 1
            } else {
                count
            };
            if same_text(self.rows.contacts[i].sender_kind.as_str(), "person") {
                self.rows.contacts[i].sender_kind = kind.to_owned();
            }
            self.log.push(RowRef::Contact(i));
            assert(self.log@[log0.len() as int] == contact_ref()(i as int));
            assert(self.rows.contacts@[i as int]@ == seen_again(row, kind@, now@));
        }
        assert(self@ =~= see_contact_again(before, id, kind@, now@));
        proof {
            lemma_log_grows(self.saved@, before, self@, log0, self.log@);
        }
    }

    fn see_address(&mut self, a: &RawAddress, headers: Option<&str>, now: &str) -> (r: Option<i64>)
        requires
            old(self).wf(),
            fits(old(self)@, see_address(old(self)@, a@, opt_str(headers), now@)),
        ensures
            final(self).wf(),
            final(self)@ == see_address(old(self)@, a@, opt_str(headers), now@),
            final(self).saved() == old(self).saved(),
            r == seen_contact(old(self)@, a@),
    {
        let ghost start = self@;
        proof {
            law_see_address_sound(start, a@, opt_str(headers), now@);
        }
        let e = match normalize_email(a.email.as_str()) {
            Some(e) => e,
            None => {
                return None;
            },
        };
        let kind = classify_sender(e.address.as_str(), headers).as_str();
        self.see_domain(&e.domain, now);
        let ghost before = self@;
        let ghost log0 = self.log@;
        match self.find_address(&e.address) {
            Some(i) => {
                let id = self.rows.addresses[i].contact_id;
                assert(self@.addresses[i as int] == self.rows.addresses@[i as int]@);
                assert(has_address(start, e.address@));
                assert(contact_of(start, e.address@) == id);
                self.see_contact_again(id, kind, now);
                Some(id)
            },
            None => {
                assert(!has_address(start, e.address@));
                let k = self.rows.contacts.len();
                let n = self.rows.addresses.len();
                let id: i64 = self.rows.ids.contacts + 1;
                let address_id: i64 = self.rows.ids.addresses + 1;
                self.rows.ids = LastIds {
                    contacts: id,
                    addresses: address_id,
                    scans: self.rows.ids.scans,
                    messages: self.rows.ids.messages,
                };
                self.rows.contacts.push(
                    ContactRow {
                        id,
                        display_name: a.name.clone(),
                        sender_kind: kind.to_owned(),
                        first_seen_at: Some(now.to_owned()),
                        last_seen_at: Some(now.to_owned()),
                        message_count: 1,
                    },
                );
                self.rows.addresses.push(
                    AddressRow {
                        id: address_id,
                        contact_id: id,
                        email: e.address,
                        domain: e.domain,
                        display_name: a.name.clone(),
                        first_seen_at: Some(now.to_owned()),
                        last_seen_at: Some(now.to_owned()),
                    },
                );
                self.log.push(RowRef::Contact(k));
                self.log.push(RowRef::Address(n));
                assert(self.log@[log0.len() as int] == contact_ref()(k as int));
                assert(self.log@[log0.len() as int + 1] == address_ref()(n as int));
                assert(self@ =~= new_contact(
                    before,
                    a@.name,
                    e@.address,
                    e@.domain,
                    kind@,
                    now@,
                ));
                proof {
                    lemma_log_grows(self.saved@, before, self@, log0, self.log@);
                }
                Some(id)
            },
        }
    }

    // -----------------------------------------------------------------------------------
    // Messages
    // -----------------------------------------------------------------------------------

    fn lists_recipient(&self, message_id: i64, kind: &str, email: &String) -> (r: bool)
        requires
            self.wf(),
            message_id == last_message_id(self@),
        ensures
            r == exists|i: int|
                0 <= i < self@.recipients.len() && (#[trigger] self@.recipients[i]).message_id
                    == message_id && self@.recipients[i].kind == kind@
                    && self@.recipients[i].email == email@,
    {
        let mut i: usize = self.rows.recipients.len();
        while i > 0 && self.rows.recipients[i - 1].message_id == message_id
            invariant
                self.wf(),
                0 <= i <= self.rows.recipients.len(),
                forall|j: int|
                    i <= j < self@.recipients.len() ==> !((#[trigger] self@.recipients[j]).message_id
                        == message_id && self@.recipients[j].kind == kind@
                        && self@.recipients[j].email == email@),
            decreases i,
        {
            i = i - 1;
            assert(self@.recipients[i as int] == self.rows.recipients@[i as int]@);
            if same_text(self.rows.recipients[i].kind.as_str(), kind)
                && self.rows.recipients[i].email == *email {
                return true;
            }
        }
        proof {
            if i > 0 {
                assert(self@.recipients[i - 1] == self.rows.recipients@[i - 1]@);
                assert(self@.recipients[i - 1].message_id < message_id);
                assert forall|j: int| 0 <= j < i implies (#[trigger] self@.recipients[j]).message_id
                    != message_id by {
                    if j < i - 1 {
                        assert(self@.recipients[j].message_id <= self@.recipients[i - 1].message_id);
                    }
                }
            }
        }
        false
    }

    fn add_recipient(&mut self, message_id: i64, kind: &str, a: &RawAddress, now: &str)
        requires
            old(self).wf(),
            fits(old(self)@, add_recipient(old(self)@, message_id, kind@, a@, now@)),
            old(self)@.messages.len() > 0,
            message_id == last_message_id(old(self)@),
        ensures
            final(self).wf(),
            final(self)@ == add_recipient(old(self)@, message_id, kind@, a@, now@),
            final(self).saved() == old(self).saved(),
    {
        let ghost start = self@;
        proof {
            lemma_add_recipient_grown(start, message_id, kind@, a@, now@);
            law_see_address_sound(start, a@, None, now@);
            law_add_recipient_sound(start, message_id, kind@, a@, now@);
        }
        let e = match normalize_email(a.email.as_str()) {
            Some(e) => e,
            None => {
                return ;
            },
        };
        let contact_id = self.see_address(a, None, now);
        let ghost before = self@;
        let ghost log0 = self.log@;
        let ghost row = RecipientText {
            message_id,
            contact_id: seen_contact(start, a@),
            kind: kind@,
            email: e@.address,
            display_name: a@.name,
            domain: Some(e@.domain),
        };
        let listed = self.lists_recipient(message_id, kind, &e.address);
        proof {
            if listed {
                let i = choose|i: int|
                    0 <= i < self@.recipients.len() && (#[trigger] self@.recipients[i]).message_id
                        == message_id && self@.recipients[i].kind == kind@
                        && self@.recipients[i].email == e.address@;
                assert(same_recipient(start.recipients[i], row));
            } else {
                assert forall|i: int| 0 <= i < start.recipients.len() implies !same_recipient(
                    #[trigger] start.recipients[i],
                    row,
                ) by {
                    assert(self@.recipients[i] == start.recipients[i]);
                }
            }
        }
        if !listed {
            let n = self.rows.recipients.len();
            self.rows.recipients.push(
                RecipientRow {
                    message_id,
                    contact_id,
                    kind: kind.to_owned(),
                    email: e.address,
                    display_name: a.name.clone(),
                    domain: Some(e.domain),
                },
            );
            self.log.push(RowRef::Recipient(n));
            assert(self.log@[log0.len() as int] == recipient_ref()(n as int));
            assert(self.rows.recipients@[n as int]@ == row);
            assert(self@ =~= add_recipient(start, message_id, kind@, a@, now@));
            proof {
                lemma_log_grows(self.saved@, before, self@, log0, self.log@);
            }
        }
    }

    fn add_recipients(&mut self, message_id: i64, kind: &str, list: &Vec<RawAddress>, now: &str)
        requires
            old(self).wf(),
            fits(
                old(self)@,
                add_recipients(old(self)@, message_id, kind@, addresses(list@), now@),
            ),
            old(self)@.messages.len() > 0,
            message_id == last_message_id(old(self)@),
        ensures
            final(self).wf(),
            final(self)@ == add_recipients(
                old(self)@,
                message_id,
                kind@,
                addresses(list@),
                now@,
            ),
            final(self).saved() == old(self).saved(),
    {
        let ghost start = self@;
        let mut i: usize = 0;
        assert(addresses(list@).take(0) =~= Seq::empty());
        while i < list.len()
            invariant
                self.wf(),
                sound(start),
                fits(start, add_recipients(start, message_id, kind@, addresses(list@), now@)),
                start.messages.len() > 0,
                message_id == last_message_id(start),
                self.saved@ == old(self).saved@,
                0 <= i <= list.len(),
                self@ == add_recipients(
                    start,
                    message_id,
                    kind@,
                    addresses(list@).take(i as int),
                    now@,
                ),
            decreases list.len() - i,
        {
            let ghost done = addresses(list@).take(i as int);
            let ghost next = addresses(list@).take(i + 1);
            proof {
                assert(next.drop_last() =~= done);
                assert(next.last() == list@[i as int]@);
                lemma_part_fits(start, message_id, kind@, addresses(list@), now@, i + 1);
            }
            self.add_recipient(message_id, kind, &list[i], now);
            i = i + 1;
        }
        assert(addresses(list@).take(i as int) =~= addresses(list@));
    }

    fn is_indexed(&self, message: &RawMessage) -> (r: bool)
        requires
            self.wf(),
        ensures
            r == is_indexed(self@, message@),
    {
        let source = match &message.source_id {
            Some(s) => Some(s),
            None => match &message.internet_message_id {
                Some(s) => Some(s),
                None => None,
            },
        };
        let ghost row = message_row(self@, 0, message@);
        let mut i: usize = 0;
        while i < self.rows.messages.len()
            invariant
                self.wf(),
                0 <= i <= self.rows.messages.len(),
                row == message_row(self@, 0, message@),
                match source {
                    Some(s) => row.source_id == Some(s@),
                    None => row.source_id is None,
                },
                forall|j: int|
                    0 <= j < i ==> !same_identity(row, #[trigger] self@.messages[j]),
            decreases self.rows.messages.len() - i,
        {
            assert(self@.messages[i as int] == self.rows.messages@[i as int]@);
            if let (Some(a), Some(b)) = (source, &self.rows.messages[i].source_id) {
                if *a == *b {
                    assert(same_identity(row, self@.messages[i as int]));
                    return true;
                }
            }
            if let (Some(a), Some(b)) = (
                &message.internet_message_id,
                &self.rows.messages[i].internet_message_id,
            ) {
                if *a == *b {
                    assert(same_identity(row, self@.messages[i as int]));
                    return true;
                }
            }
            i = i + 1;
        }
        false
    }

    fn store_message(
        &mut self,
        start: Ghost<Tables>,
        scan_id: i64,
        message: &RawMessage,
        sender_contact_id: Option<i64>,
        sender_email: Option<String>,
        sender_domain: Option<String>,
        sender_kind: &str,
        now: &str,
    )
        requires
            old(self).wf(),
            sound(start@),
            start@.ids.messages < i64::MAX,
            fits(start@, stored_message(start@, scan_id, message@, now@)),
            !is_indexed(start@, message@),
            old(self)@ == see_sender(start@, message@, now@),
            old(self)@.messages == start@.messages,
            sender_contact_id == message_row(start@, scan_id, message@).sender_contact_id,
            opt_text(sender_email) == message_row(start@, scan_id, message@).sender_email,
            opt_text(sender_domain) == message_row(start@, scan_id, message@).sender_domain,
            sender_kind@ == message_row(start@, scan_id, message@).sender_kind,
        ensures
            final(self).wf(),
            final(self).saved() == old(self).saved(),
            final(self)@ == stored_message(start@, scan_id, message@, now@),
    {
        let ghost before = self@;
        let ghost log0 = self.log@;
        let ghost row = message_row(start@, scan_id, message@);
        proof {
            law_store_message_sound(start@, scan_id, message@, now@);
        }
        let n = self.rows.messages.len();
        let id: i64 = self.rows.ids.messages + 1;
        let source_id = match &message.source_id {
            Some(s) => Some(s.clone()),
            None => message.internet_message_id.clone(),
        };
        let added = MessageRow {
            id,
            scan_id,
            source_id,
            internet_message_id: message.internet_message_id.clone(),
            conversation_id: message.conversation_id.clone(),
            in_reply_to: message.in_reply_to.clone(),
            reference_ids: message.references.clone(),
            subject: message.subject.clone(),
            sent_at: message.sent_at.clone(),
            received_at: message.received_at.clone(),
            folder_path: message.folder_path.clone(),
            sender_contact_id,
            sender_email,
            sender_domain,
            sender_kind: sender_kind.to_owned(),
            headers: message.headers.clone(),
            size_bytes: message.size_bytes,
            has_attachments: message.has_attachments,
            malformed: 0,
        };
        assert(added@ == row);
        self.rows.messages.push(added);
        self.rows.ids.messages = id;
        self.log.push(RowRef::Message(n));
        proof {
            assert(self.log@[log0.len() as int] == message_ref()(n as int));
            assert(self.rows.messages@[n as int]@ == row);
            assert(self@ =~= stored_message(start@, scan_id, message@, now@));
            lemma_log_grows(self.saved@, before, self@, log0, self.log@);
        }
    }

    fn store_recipients(&mut self, start: Ghost<Tables>, scan_id: i64, message: &RawMessage, now: &str)
        requires
            old(self).wf(),
            sound(start@),
            start@.ids.messages < i64::MAX,
            fits(start@, index_message(start@, scan_id, message@, now@)),
            !is_indexed(start@, message@),
            old(self)@ == stored_message(start@, scan_id, message@, now@),
        ensures
            final(self).wf(),
            final(self).saved() == old(self).saved(),
            final(self)@ == index_message(start@, scan_id, message@, now@),
    {
        let ghost row = message_row(start@, scan_id, message@);
        let ghost stored = self@;
        proof {
            lemma_index_grown(start@, scan_id, message@, now@);
            law_store_message_sound(start@, scan_id, message@, now@);
            law_add_recipients_sound(stored, row.id, "to"@, message@.to, now@);
        }
        let k = self.rows.messages.len();
        assert(stored.messages.last() == self.rows.messages@[k - 1]@);
        let id = self.rows.messages[k - 1].id;
        self.add_recipients(id, "to", &message.to, now);
        let ghost with_to = self@;
        proof {
            law_add_recipients_sound(with_to, row.id, "cc"@, message@.cc, now@);
        }
        self.add_recipients(id, "cc", &message.cc, now);
        self.add_recipients(id, "bcc", &message.bcc, now);
    }

    /// Indexes a message that belongs to a scan, at a given time. A message that is there
    /// already is not indexed again, but its sender counts as seen.
    pub fn insert_message_at(&mut self, scan_id: i64, message: &RawMessage, now: &str) -> (r: Result<
        bool,
        DbError,
    >)
        requires
            old(self).wf(),
        ensures
            final(self).wf(),
            final(self).saved() == old(self).saved(),
            (r, final(self)@) == insert_result(old(self)@, scan_id, message@, now@),
    {
        let ghost start = self@;
        let indexed = self.is_indexed(message);
        let scan_known = self.find_scan(scan_id).is_some();
        if let Some(e) = find_insert_error(
            &self.rows,
            Ghost(scan_id),
            message,
            Ghost(now@),
            indexed,
            scan_known,
        ) {
            return Err(e);
        }
        let sender = match &message.sender {
            Some(a) => Some(a),
            None => match &message.from {
                Some(a) => Some(a),
                None => None,
            },
        };
        proof {
            law_see_sender_sound(start, message@, now@);
            lemma_index_grown(start, scan_id, message@, now@);
        }
        let headers = match &message.headers {
            Some(h) => Some(h.as_str()),
            None => None,
        };
        let mut sender_contact_id: Option<i64> = None;
        let mut sender_email: Option<String> = None;
        let mut sender_domain: Option<String> = None;
        let mut sender_kind = "unknown";
        if let Some(a) = sender {
            sender_contact_id = self.see_address(a, headers, now);
            if let Some(e) = normalize_email(a.email.as_str()) {
                sender_email = Some(e.address);
                sender_domain = Some(e.domain);
            }
            sender_kind = classify_sender(a.email.as_str(), headers).as_str();
        }
        assert(self@ == see_sender(start, message@, now@));
        if indexed {
            let ghost before = self@;
            let ghost log0 = self.log@;
            self.rows.ids.messages = self.rows.ids.messages + 1;
            proof {
                law_passed_over_sound(start, message@, now@);
                assert(self@ =~= passed_over(start, message@, now@));
                lemma_log_grows(self.saved@, before, self@, log0, self.log@);
            }
            return Ok(false);
        }
        self.store_message(
            Ghost(start),
            scan_id,
            message,
            sender_contact_id,
            sender_email,
            sender_domain,
            sender_kind,
            now,
        );
        self.store_recipients(Ghost(start), scan_id, message, now);
        Ok(true)
    }

    /// Indexes a message that belongs to a scan, now.
    pub fn insert_message(&mut self, scan_id: i64, message: &RawMessage) -> (r: Result<bool, DbError>)
        requires
            old(self).wf(),
        ensures
            final(self).wf(),
            final(self).saved() == old(self).saved(),
            exists|now: Seq<char>|
                is_utc_time(now) && (r, final(self)@) == #[trigger] insert_result(
                    old(self)@,
                    scan_id,
                    message@,
                    now,
                ),
    {
        let now = utc_now();
        self.insert_message_at(scan_id, message, now.as_str())
    }

    // -----------------------------------------------------------------------------------
    // Scans
    // -----------------------------------------------------------------------------------

    /// Begins a scan at a given time; the result is its id.
    pub fn begin_scan_at(&mut self, archive_path: &str, now: &str) -> (r: Result<i64, DbError>)
        requires
            old(self).wf(),
        ensures
            final(self).wf(),
            final(self).saved() == old(self).saved(),
            (r, final(self)@) == begin_result(old(self)@, archive_path@, now@),
    {
        let ghost before = self@;
        let ghost log0 = self.log@;
        let n = self.rows.scans.len();
        if n as u64 >= ROW_LIMIT {
            return Err(DbError::Full);
        }
        if self.rows.ids.scans == i64::MAX {
            return Err(DbError::Full);
        }
        let id: i64 = self.rows.ids.scans + 1;
        self.rows.ids.scans = id;
        self.rows.scans.push(
            ScanRow {
                id,
                archive_path: archive_path.to_owned(),
                status: "running".to_owned(),
                started_at: now.to_owned(),
                finished_at: None,
                messages_seen: 0,
                messages_indexed: 0,
                malformed_messages: 0,
                error: None,
            },
        );
        self.log.push(RowRef::Scan(n));
        proof {
            assert(self.log@[log0.len() as int] == scan_ref()(n as int));
            assert(self@ =~= begun_scan(before, archive_path@, now@));
            lemma_log_grows(self.saved@, before, self@, log0, self.log@);
        }
        Ok(id)
    }

    /// Begins a scan now; the result is its id.
    pub fn begin_scan(&mut self, archive_path: &str) -> (r: Result<i64, DbError>)
        requires
            old(self).wf(),
        ensures
            final(self).wf(),
            final(self).saved() == old(self).saved(),
            exists|now: Seq<char>|
                is_utc_time(now) && (r, final(self)@) == #[trigger] begin_result(
                    old(self)@,
                    archive_path@,
                    now,
                ),
    {
        let now = utc_now();
        self.begin_scan_at(archive_path, now.as_str())
    }

    fn find_scan(&self, id: i64) -> (r: Option<usize>)
        requires
            self.wf(),
        ensures
            match r {
                Some(i) => i < self.rows.scans@.len() && self@.scans[i as int].id == id,
                None => !has_scan(self@, id),
            },
    {
        let mut i: usize = 0;
        while i < self.rows.scans.len()
            invariant
                0 <= i <= self.rows.scans.len(),
                forall|j: int| 0 <= j < i ==> (#[trigger] self@.scans[j]).id != id,
            decreases self.rows.scans.len() - i,
        {
            assert(self@.scans[i as int] == self.rows.scans@[i as int]@);
            if self.rows.scans[i].id == id {
                return Some(i);
            }
            i = i + 1;
        }
        None
    }

    /// Ends a scan at a given time.
    pub fn finish_scan_at(&mut self, scan_id: i64, status: &str, error: Option<&str>, now: &str)
        requires
            old(self).wf(),
        ensures
            final(self).wf(),
            final(self).saved() == old(self).saved(),
            final(self)@ == finished_scan(old(self)@, scan_id, status@, opt_str(error), now@),
    {
        let ghost before = self@;
        let ghost log0 = self.log@;
        if let Some(i) = self.find_scan(scan_id) {
            let ghost row = before.scans[i as int];
            self.rows.scans[i].status = status.to_owned();
            self.rows.scans[i].finished_at = Some(now.to_owned());
            self.rows.scans[i].error = match error {
                Some(e) => Some(e.to_owned()),
                None => None,
            };
            self.log.push(RowRef::Scan(i));
            assert(self.log@[log0.len() as int] == scan_ref()(i as int));
            assert(self.rows.scans@[i as int]@ == (ScanText {
                status: status@,
                finished_at: Some(now@),
                error: opt_str(error),
                ..row
            }));
        }
        proof {
            assert(self@ =~= finished_scan(before, scan_id, status@, opt_str(error), now@));
            lemma_log_grows(self.saved@, before, self@, log0, self.log@);
        }
    }

    /// Ends a scan now; a scan that is not there is passed over.
    pub fn finish_scan(&mut self, scan_id: i64, status: &str, error: Option<&str>) -> (r: Result<
        (),
        DbError,
    >)
        requires
            old(self).wf(),
        ensures
            r is Ok,
            final(self).wf(),
            final(self).saved() == old(self).saved(),
            exists|now: Seq<char>|
                is_utc_time(now) && final(self)@ == #[trigger] finished_scan(
                    old(self)@,
                    scan_id,
                    status@,
                    opt_str(error),
                    now,
                ),
    {
        let now = utc_now();
        self.finish_scan_at(scan_id, status, error, now.as_str());
        Ok(())
    }

    /// Notes how far a scan has got; a scan that is not there is passed over.
    pub fn update_scan_progress(
        &mut self,
        scan_id: i64,
        messages_seen: i64,
        messages_indexed: i64,
    ) -> (r: Result<(), DbError>)
        requires
            old(self).wf(),
        ensures
            r is Ok,
            final(self).wf(),
            final(self).saved() == old(self).saved(),
            final(self)@ == progressed_scan(
                old(self)@,
                scan_id,
                messages_seen,
                messages_indexed,
            ),
    {
        let ghost before = self@;
        let ghost log0 = self.log@;
        if let Some(i) = self.find_scan(scan_id) {
            let ghost row = before.scans[i as int];
            self.rows.scans[i].messages_seen = messages_seen;
            self.rows.scans[i].messages_indexed = messages_indexed;
            self.log.push(RowRef::Scan(i));
            assert(self.log@[log0.len() as int] == scan_ref()(i as int));
            assert(self.rows.scans@[i as int]@ == (ScanText {
                messages_seen,
                messages_indexed,
                ..row
            }));
        }
        proof {
            assert(self@ =~= progressed_scan(before, scan_id, messages_seen, messages_indexed));
            lemma_log_grows(self.saved@, before, self@, log0, self.log@);
        }
        Ok(())
    }

    // -----------------------------------------------------------------------------------
    // Questions
    // -----------------------------------------------------------------------------------

    /// The numbers about the index.
    pub fn stats(&self) -> (r: Result<Stats, DbError>)
        requires
            self.wf(),
        ensures
            r matches Ok(s) && stats_of(self@, s),
    {
        Ok(count_rows(&self.rows))
    }

    /// The contacts that a query asks for, the highest ranks first, up to its limit.
    pub fn contacts(&self, query: &ContactQuery) -> (r: Result<Vec<ContactSummary>, DbError>)
        requires
            self.wf(),
        ensures
            r matches Ok(list) && is_listing(self@, query@, summaries(list@)) && list@.len()
                == listed_count(query.limit, matching(self@, query@).len()),
    {
        Ok(list_contacts(&self.rows, query))
    }

    /// How many contacts a query asks for, whatever its limit.
    pub fn contact_count(&self, query: &ContactQuery) -> (r: Result<i64, DbError>)
        requires
            self.wf(),
        ensures
            r matches Ok(n) && n == matching(self@, query@).len(),
    {
        Ok(count_contacts(&self.rows, query))
    }
}

/// The tables of a database are sound.
pub proof fn law_tables_are_sound(db: Database)
    requires
        db.wf(),
    ensures
        sound(db@),
{
}

/// Whether a stored kind is one that is not a person.
pub fn sender_kind_is_filtered(kind: &str) -> (r: bool)
    ensures
        r == filtered_kind(kind@),
{
    is_filtered_sender_kind(kind)
}

/// Where all recipients in a part fit, so do the first ones and the one after them.
proof fn lemma_part_fits(
    t: Tables,
    id: i64,
    kind: Seq<char>,
    list: Seq<AddressText>,
    now: Seq<char>,
    n: int,
)
    requires
        0 < n <= list.len(),
        fits(t, add_recipients(t, id, kind, list, now)),
    ensures
        fits(t, add_recipients(t, id, kind, list.take(n), now)),
        fits(
            add_recipients(t, id, kind, list.take(n).drop_last(), now),
            add_recipients(t, id, kind, list.take(n), now),
        ),
        add_recipients(t, id, kind, list.take(n).drop_last(), now).messages == t.messages,
    decreases list.len() - n,
{
    if n == list.len() {
        assert(list.take(n) =~= list);
    } else {
        lemma_part_fits(t, id, kind, list, now, n + 1);
        assert(list.take(n + 1).drop_last() =~= list.take(n));
    }
    let part = list.take(n);
    let s = add_recipients(t, id, kind, part.drop_last(), now);
    let u = add_recipients(t, id, kind, part, now);
    lemma_add_recipients_grown(t, id, kind, part.drop_last(), now);
    lemma_add_recipient_grown(s, id, kind, part.last(), now);
    if n < list.len() {
        let v = add_recipients(t, id, kind, list.take(n + 1), now);
        lemma_add_recipients_grown(t, id, kind, part, now);
        lemma_add_recipient_grown(u, id, kind, list.take(n + 1).last(), now);
        lemma_grown_twice(t, u, v, n, 1);
    }
    lemma_grown_twice(t, s, u, n - 1, 1);
}

/// What was listed stays listed when the list grows.
proof fn lemma_rows_listed<T>(
    saved: Seq<T>,
    before: Seq<T>,
    after: Seq<T>,
    log0: Seq<RowRef>,
    log1: Seq<RowRef>,
    at: spec_fn(int) -> RowRef,
)
    requires
        lists_rows(saved, before, log0, at),
        lists_rows(before, after, log1, at),
        log0.is_prefix_of(log1),
    ensures
        lists_rows(saved, after, log1, at),
{
    assert forall|i: int|
        #![trigger at(i)]
        0 <= i < after.len() && (i >= saved.len() || saved[i] != after[i]) implies log1.contains(
        at(i),
    ) by {
        if i < before.len() && before[i] == after[i] {
            assert(log0.contains(at(i)));
            let k = choose|k: int| 0 <= k < log0.len() && log0[k] == at(i);
            assert(log1.subrange(0, log0.len() as int)[k] == log1[k]);
            assert(log1[k] == at(i));
        }
    }
}

/// What was listed stays listed when the list grows, and names rows as long as the rows are
/// there.
proof fn lemma_log_grows(
    saved: Tables,
    before: Tables,
    after: Tables,
    log0: Seq<RowRef>,
    log1: Seq<RowRef>,
)
    requires
        lists_changes(saved, before, log0),
        lists_changes(before, after, log1),
        log0.is_prefix_of(log1),
        names_rows(before, log0),
        before.scans.len() <= after.scans.len(),
        before.domains.len() <= after.domains.len(),
        before.contacts.len() <= after.contacts.len(),
        before.addresses.len() <= after.addresses.len(),
        before.messages.len() <= after.messages.len(),
        before.recipients.len() <= after.recipients.len(),
        forall|k: int| log0.len() <= k < log1.len() ==> is_row(after, #[trigger] log1[k]),
    ensures
        lists_changes(saved, after, log1),
        names_rows(after, log1),
{
    assert forall|k: int| 0 <= k < log1.len() implies is_row(after, #[trigger] log1[k]) by {
        if k < log0.len() {
            assert(log1.subrange(0, log0.len() as int)[k] == log1[k]);
            assert(is_row(before, log0[k]));
        }
    }
    lemma_rows_listed(saved.scans, before.scans, after.scans, log0, log1, scan_ref());
    lemma_rows_listed(saved.domains, before.domains, after.domains, log0, log1, domain_ref());
    lemma_rows_listed(saved.contacts, before.contacts, after.contacts, log0, log1, contact_ref());
    lemma_rows_listed(
        saved.addresses,
        before.addresses,
        after.addresses,
        log0,
        log1,
        address_ref(),
    );
    lemma_rows_listed(saved.messages, before.messages, after.messages, log0, log1, message_ref());
    lemma_rows_listed(
        saved.recipients,
        before.recipients,
        after.recipients,
        log0,
        log1,
        recipient_ref(),
    );
}

} // verus!
