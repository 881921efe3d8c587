//! The tables of the index: their rows, what keeps them sound, and what each statement that
//! writes to them does.
use vstd::prelude::*;

use crate::archive::{either, AddressText, MessageText};
use crate::classify::{kind_name, sender_kind, SenderKind};
use crate::normalize::email_of;
use crate::text::opt_text;

verus! {

/// The number of rows that a table can hold. The largest database file has 16 bytes for each of
/// so many rows, and no row that is written is that short.
pub const ROW_LIMIT: u64 = 0x1000_0000_0000;

// ---------------------------------------------------------------------------------------
// Rows
// ---------------------------------------------------------------------------------------

/// A scan of an archive.
#[derive(Debug, PartialEq, Eq)]
pub struct ScanRow {
    pub id: i64,
    pub archive_path: String,
    pub status: String,
    pub started_at: String,
    pub finished_at: Option<String>,
    pub messages_seen: i64,
    pub messages_indexed: i64,
    pub malformed_messages: i64,
    pub error: Option<String>,
}

/// The texts of a scan.
pub ghost struct ScanText {
    pub id: i64,
    pub archive_path: Seq<char>,
    pub status: Seq<char>,
    pub started_at: Seq<char>,
    pub finished_at: Option<Seq<char>>,
    pub messages_seen: i64,
    pub messages_indexed: i64,
    pub malformed_messages: i64,
    pub error: Option<Seq<char>>,
}

impl View for ScanRow {
    type V = ScanText;

    open spec fn view(&self) -> ScanText {
        ScanText {
            id: self.id,
            archive_path: self.archive_path@,
            status: self.status@,
            started_at: self.started_at@,
            finished_at: opt_text(self.finished_at),
            messages_seen: self.messages_seen,
            messages_indexed: self.messages_indexed,
            malformed_messages: self.malformed_messages,
            error: opt_text(self.error),
        }
    }
}

/// A domain that addresses were seen in.
#[derive(Debug, PartialEq, Eq)]
pub struct DomainRow {
    pub domain: String,
    pub message_count: i64,
    pub contact_count: i64,
    pub first_seen_at: Option<String>,
    pub last_seen_at: Option<String>,
}

/// The texts of a domain.
pub ghost struct DomainText {
    pub domain: Seq<char>,
    pub message_count: i64,
    pub contact_count: i64,
    pub first_seen_at: Option<Seq<char>>,
    pub last_seen_at: Option<Seq<char>>,
}

impl View for DomainRow {
    type V = DomainText;

    open spec fn view(&self) -> DomainText {
        DomainText {
            domain: self.domain@,
            message_count: self.message_count,
            contact_count: self.contact_count,
            first_seen_at: opt_text(self.first_seen_at),
            last_seen_at: opt_text(self.last_seen_at),
        }
    }
}

/// A contact: someone who sends or gets mail.
#[derive(Debug, PartialEq, Eq)]
pub struct ContactRow {
    pub id: i64,
    pub display_name: Option<String>,
    pub sender_kind: String,
    pub first_seen_at: Option<String>,
    pub last_seen_at: Option<String>,
    pub message_count: i64,
}

/// The texts of a contact.
pub ghost struct ContactText {
    pub id: i64,
    pub display_name: Option<Seq<char>>,
    pub sender_kind: Seq<char>,
    pub first_seen_at: Option<Seq<char>>,
    pub last_seen_at: Option<Seq<char>>,
    pub message_count: i64,
}

impl View for ContactRow {
    type V = ContactText;

    open spec fn view(&self) -> ContactText {
        ContactText {
            id: self.id,
            display_name: opt_text(self.display_name),
            sender_kind: self.sender_kind@,
            first_seen_at: opt_text(self.first_seen_at),
            last_seen_at: opt_text(self.last_seen_at),
            message_count: self.message_count,
        }
    }
}

/// An address of a contact.
#[derive(Debug, PartialEq, Eq)]
pub struct AddressRow {
    pub id: i64,
    pub contact_id: i64,
    pub email: String,
    pub domain: String,
    pub display_name: Option<String>,
    pub first_seen_at: Option<String>,
    pub last_seen_at: Option<String>,
}

/// The texts of an address of a contact.
pub ghost struct AddressRowText {
    pub id: i64,
    pub contact_id: i64,
    pub email: Seq<char>,
    pub domain: Seq<char>,
    pub display_name: Option<Seq<char>>,
    pub first_seen_at: Option<Seq<char>>,
    pub last_seen_at: Option<Seq<char>>,
}

impl View for AddressRow {
    type V = AddressRowText;

    open spec fn view(&self) -> AddressRowText {
        AddressRowText {
            id: self.id,
            contact_id: self.contact_id,
            email: self.email@,
            domain: self.domain@,
            display_name: opt_text(self.display_name),
            first_seen_at: opt_text(self.first_seen_at),
            last_seen_at: opt_text(self.last_seen_at),
        }
    }
}

/// A message.
#[derive(Debug, PartialEq, Eq)]
pub struct MessageRow {
    pub id: i64,
    pub scan_id: i64,
    pub source_id: Option<String>,
    pub internet_message_id: Option<String>,
    pub conversation_id: Option<String>,
    pub in_reply_to: Option<String>,
    pub reference_ids: Option<String>,
    pub subject: Option<String>,
    pub sent_at: Option<String>,
    pub received_at: Option<String>,
    pub folder_path: Option<String>,
    pub sender_contact_id: Option<i64>,
    pub sender_email: Option<String>,
    pub sender_domain: Option<String>,
    pub sender_kind: String,
    pub headers: Option<String>,
    pub size_bytes: Option<i64>,
    pub has_attachments: bool,
    pub malformed: i64,
}

/// The texts of a message row.
pub ghost struct MessageRowText {
    pub id: i64,
    pub scan_id: i64,
    pub source_id: Option<Seq<char>>,
    pub internet_message_id: Option<Seq<char>>,
    pub conversation_id: Option<Seq<char>>,
    pub in_reply_to: Option<Seq<char>>,
    pub reference_ids: Option<Seq<char>>,
    pub subject: Option<Seq<char>>,
    pub sent_at: Option<Seq<char>>,
    pub received_at: Option<Seq<char>>,
    pub folder_path: Option<Seq<char>>,
    pub sender_contact_id: Option<i64>,
    pub sender_email: Option<Seq<char>>,
    pub sender_domain: Option<Seq<char>>,
    pub sender_kind: Seq<char>,
    pub headers: Option<Seq<char>>,
    pub size_bytes: Option<i64>,
    pub has_attachments: bool,
    pub malformed: i64,
}

impl View for MessageRow {
    type V = MessageRowText;

    open spec fn view(&self) -> MessageRowText {
        MessageRowText {
            id: self.id,
            scan_id: self.scan_id,
            source_id: opt_text(self.source_id),
            internet_message_id: opt_text(self.internet_message_id),
            conversation_id: opt_text(self.conversation_id),
            in_reply_to: opt_text(self.in_reply_to),
            reference_ids: opt_text(self.reference_ids),
            subject: opt_text(self.subject),
            sent_at: opt_text(self.sent_at),
            received_at: opt_text(self.received_at),
            folder_path: opt_text(self.folder_path),
            sender_contact_id: self.sender_contact_id,
            sender_email: opt_text(self.sender_email),
            sender_domain: opt_text(self.sender_domain),
            sender_kind: self.sender_kind@,
            headers: opt_text(self.headers),
            size_bytes: self.size_bytes,
            has_attachments: self.has_attachments,
            malformed: self.malformed,
        }
    }
}

/// A recipient of a message.
#[derive(Debug, PartialEq, Eq)]
pub struct RecipientRow {
    pub message_id: i64,
    pub contact_id: Option<i64>,
    pub kind: String,
    pub email: String,
    pub display_name: Option<String>,
    pub domain: Option<String>,
}

/// The texts of a recipient.
pub ghost struct RecipientText {
    pub message_id: i64,
    pub contact_id: Option<i64>,
    pub kind: Seq<char>,
    pub email: Seq<char>,
    pub display_name: Option<Seq<char>>,
    pub domain: Option<Seq<char>>,
}

impl View for RecipientRow {
    type V = RecipientText;

    open spec fn view(&self) -> RecipientText {
        RecipientText {
            message_id: self.message_id,
            contact_id: self.contact_id,
            kind: self.kind@,
            email: self.email@,
            display_name: opt_text(self.display_name),
            domain: opt_text(self.domain),
        }
    }
}

/// The highest id that was given out in each table that has ids. No id is given out twice, even
/// if its row is gone or was never kept.
#[derive(Debug, Clone, Copy, PartialEq, Eq, Structural)]
pub struct LastIds {
    pub scans: i64,
    pub contacts: i64,
    pub addresses: i64,
    pub messages: i64,
}

/// No id was given out yet.
pub open spec fn no_ids() -> LastIds {
    LastIds { scans: 0, contacts: 0, addresses: 0, messages: 0 }
}

/// The texts of all tables, and the ids that were given out.
#[verifier::ext_equal]
pub ghost struct Tables {
    pub scans: Seq<ScanText>,
    pub domains: Seq<DomainText>,
    pub contacts: Seq<ContactText>,
    pub addresses: Seq<AddressRowText>,
    pub messages: Seq<MessageRowText>,
    pub recipients: Seq<RecipientText>,
    pub ids: LastIds,
}

/// Tables without rows.
pub open spec fn no_rows() -> Tables {
    Tables {
        scans: Seq::empty(),
        domains: Seq::empty(),
        contacts: Seq::empty(),
        addresses: Seq::empty(),
        messages: Seq::empty(),
        recipients: Seq::empty(),
        ids: no_ids(),
    }
}

// ---------------------------------------------------------------------------------------
// Soundness
// ---------------------------------------------------------------------------------------

/// No table is over its limit.
pub open spec fn within_limits(t: Tables) -> bool {
    &&& t.scans.len() <= ROW_LIMIT
    &&& t.domains.len() <= ROW_LIMIT
    &&& t.contacts.len() <= ROW_LIMIT
    &&& t.addresses.len() <= ROW_LIMIT
    &&& t.messages.len() <= ROW_LIMIT
    &&& t.recipients.len() <= ROW_LIMIT
}

/// Row ids grow, and were given out.
pub open spec fn ids_grow(t: Tables) -> bool {
    &&& t.ids.scans >= 0 && t.ids.contacts >= 0 && t.ids.addresses >= 0 && t.ids.messages >= 0
    &&& forall|i: int| 0 <= i < t.scans.len() ==> (#[trigger] t.scans[i]).id <= t.ids.scans
    &&& forall|i: int| 0 <= i < t.contacts.len() ==> (#[trigger] t.contacts[i]).id <= t.ids.contacts
    &&& forall|i: int|
        0 <= i < t.addresses.len() ==> (#[trigger] t.addresses[i]).id <= t.ids.addresses
    &&& forall|i: int| 0 <= i < t.messages.len() ==> (#[trigger] t.messages[i]).id <= t.ids.messages
    &&& forall|i: int, j: int|
        0 <= i < j < t.scans.len() ==> (#[trigger] t.scans[i]).id < (#[trigger] t.scans[j]).id
    &&& forall|i: int, j: int|
        0 <= i < j < t.contacts.len() ==> (#[trigger] t.contacts[i]).id < (
        #[trigger] t.contacts[j]).id
    &&& forall|i: int, j: int|
        0 <= i < j < t.addresses.len() ==> (#[trigger] t.addresses[i]).id < (
        #[trigger] t.addresses[j]).id
    &&& forall|i: int, j: int|
        0 <= i < j < t.messages.len() ==> (#[trigger] t.messages[i]).id < (
        #[trigger] t.messages[j]).id
}

/// No domain and no address is there twice.
pub open spec fn names_unique(t: Tables) -> bool {
    &&& forall|i: int, j: int|
        0 <= i < j < t.domains.len() ==> (#[trigger] t.domains[i]).domain != (
        #[trigger] t.domains[j]).domain
    &&& forall|i: int, j: int|
        0 <= i < j < t.addresses.len() ==> (#[trigger] t.addresses[i]).email != (
        #[trigger] t.addresses[j]).email
}

/// Two messages that share an identity.
pub open spec fn same_identity(a: MessageRowText, b: MessageRowText) -> bool {
    ||| a.source_id is Some && a.source_id == b.source_id
    ||| a.internet_message_id is Some && a.internet_message_id == b.internet_message_id
}

/// No message is there twice.
pub open spec fn messages_unique(t: Tables) -> bool {
    forall|i: int, j: int|
        0 <= i < j < t.messages.len() ==> !same_identity(
            #[trigger] t.messages[i],
            #[trigger] t.messages[j],
        )
}

/// Two rows for the same recipient of the same message.
pub open spec fn same_recipient(a: RecipientText, b: RecipientText) -> bool {
    a.message_id == b.message_id && a.kind == b.kind && a.email == b.email
}

/// No recipient of a message is there twice in the same part, and the recipients stand in the
/// order of their messages.
pub open spec fn recipients_unique(t: Tables) -> bool {
    &&& forall|i: int, j: int|
        0 <= i < j < t.recipients.len() ==> !same_recipient(
            #[trigger] t.recipients[i],
            #[trigger] t.recipients[j],
        )
    &&& forall|i: int, j: int|
        0 <= i < j < t.recipients.len() ==> (#[trigger] t.recipients[i]).message_id <= (
        #[trigger] t.recipients[j]).message_id
    &&& forall|i: int|
        0 <= i < t.recipients.len() ==> (#[trigger] t.recipients[i]).message_id <= last_message_id(
            t,
        )
}

/// The id of the last message, 0 if there is none.
pub open spec fn last_message_id(t: Tables) -> i64 {
    if t.messages.len() > 0 {
        t.messages.last().id
    } else {
        0
    }
}

/// Whether there is a contact with the id.
pub open spec fn has_contact(contacts: Seq<ContactText>, id: i64) -> bool {
    exists|i: int| 0 <= i < contacts.len() && (#[trigger] contacts[i]).id == id
}

/// Each address belongs to a contact.
pub open spec fn contacts_known(t: Tables) -> bool {
    forall|i: int|
        0 <= i < t.addresses.len() ==> has_contact(
            t.contacts,
            (#[trigger] t.addresses[i]).contact_id,
        )
}

/// Whether there is a message with the id.
pub open spec fn has_message(messages: Seq<MessageRowText>, id: i64) -> bool {
    exists|i: int| 0 <= i < messages.len() && (#[trigger] messages[i]).id == id
}

/// Each recipient belongs to a message.
pub open spec fn messages_known(t: Tables) -> bool {
    forall|i: int|
        0 <= i < t.recipients.len() ==> has_message(
            t.messages,
            (#[trigger] t.recipients[i]).message_id,
        )
}

/// What always holds of the tables.
pub open spec fn sound(t: Tables) -> bool {
    &&& within_limits(t)
    &&& ids_grow(t)
    &&& names_unique(t)
    &&& messages_unique(t)
    &&& recipients_unique(t)
    &&& contacts_known(t)
    &&& messages_known(t)
}

// ---------------------------------------------------------------------------------------
// Writing
// ---------------------------------------------------------------------------------------

/// The id for the next scan.
pub open spec fn next_scan_id(t: Tables) -> int {
    t.ids.scans + 1
}

/// The id for the next contact.
pub open spec fn next_contact_id(t: Tables) -> int {
    t.ids.contacts + 1
}

/// The id for the next address.
pub open spec fn next_address_id(t: Tables) -> int {
    t.ids.addresses + 1
}

/// The id for the next message.
pub open spec fn next_message_id(t: Tables) -> int {
    t.ids.messages + 1
}

/// Whether tables can become others by taking in rows: no table gets over its limit, and there
/// are ids for the new contacts and addresses.
pub open spec fn fits(t: Tables, u: Tables) -> bool {
    &&& within_limits(u)
    &&& t.ids.contacts + (u.contacts.len() - t.contacts.len()) <= i64::MAX
    &&& t.ids.addresses + (u.addresses.len() - t.addresses.len()) <= i64::MAX
}

/// Whether `n` more rows, with ids of their own, fit into each table that messages are
/// written to.
pub open spec fn has_room(t: Tables, n: int) -> bool {
    &&& t.domains.len() + n <= ROW_LIMIT
    &&& t.contacts.len() + n <= ROW_LIMIT
    &&& t.addresses.len() + n <= ROW_LIMIT
    &&& t.messages.len() + n <= ROW_LIMIT
    &&& t.recipients.len() + n <= ROW_LIMIT
    &&& t.ids.contacts + n <= i64::MAX
    &&& t.ids.addresses + n <= i64::MAX
    &&& t.ids.messages + n <= i64::MAX
}

/// Whether a domain is there.
pub open spec fn has_domain(t: Tables, domain: Seq<char>) -> bool {
    exists|i: int| 0 <= i < t.domains.len() && (#[trigger] t.domains[i]).domain == domain
}

/// A domain was seen: it is there, and was last seen now.
pub open spec fn see_domain(t: Tables, domain: Seq<char>, now: Seq<char>) -> Tables {
    if has_domain(t, domain) {
        Tables {
            domains: t.domains.map_values(
                |d: DomainText|
                    if d.domain == domain {
                        DomainText { last_seen_at: Some(now), ..d }
                    } else {
                        d
                    },
            ),
            ..t
        }
    } else {
        Tables {
            domains: t.domains.push(
                DomainText {
                    domain,
                    message_count: 0,
                    contact_count: 1,
                    first_seen_at: Some(now),
                    last_seen_at: Some(now),
                },
            ),
            ..t
        }
    }
}

/// Whether an address is there.
pub open spec fn has_address(t: Tables, email: Seq<char>) -> bool {
    exists|i: int| 0 <= i < t.addresses.len() && (#[trigger] t.addresses[i]).email == email
}

/// The contact that an address belongs to.
pub open spec fn contact_of(t: Tables, email: Seq<char>) -> i64 {
    t.addresses[choose|i: int|
        0 <= i < t.addresses.len() && (#[trigger] t.addresses[i]).email == email].contact_id
}

/// A count after one more; it stops at the largest number.
pub open spec fn one_more(n: i64) -> i64 {
    if n < i64::MAX {
        (n + 1) as i64
    } else {
        n
    }
}

/// A contact that was seen once more. Who was taken for a person can turn out to be something
/// else; any other kind stays.
pub open spec fn seen_again(c: ContactText, kind: Seq<char>, now: Seq<char>) -> ContactText {
    ContactText {
        last_seen_at: Some(now),
        message_count: one_more(c.message_count),
        sender_kind: if c.sender_kind == kind_name(SenderKind::Person) {
            kind
        } else {
            c.sender_kind
        },
        ..c
    }
}

/// The contact with the id was seen once more.
pub open spec fn see_contact_again(t: Tables, id: i64, kind: Seq<char>, now: Seq<char>) -> Tables {
    Tables {
        contacts: t.contacts.map_values(
            |c: ContactText|
                if c.id == id {
                    seen_again(c, kind, now)
                } else {
                    c
                },
        ),
        ..t
    }
}

/// A contact that was not there, with its address.
pub open spec fn new_contact(
    t: Tables,
    name: Option<Seq<char>>,
    email: Seq<char>,
    domain: Seq<char>,
    kind: Seq<char>,
    now: Seq<char>,
) -> Tables {
    let id = next_contact_id(t) as i64;
    let address_id = next_address_id(t) as i64;
    Tables {
        ids: LastIds { contacts: id, addresses: address_id, ..t.ids },
        contacts: t.contacts.push(
            ContactText {
                id,
                display_name: name,
                sender_kind: kind,
                first_seen_at: Some(now),
                last_seen_at: Some(now),
                message_count: 1,
            },
        ),
        addresses: t.addresses.push(
            AddressRowText {
                id: address_id,
                contact_id: id,
                email,
                domain,
                display_name: name,
                first_seen_at: Some(now),
                last_seen_at: Some(now),
            },
        ),
        ..t
    }
}

/// An address was seen: its domain and its contact are there. The headers are those of a message
/// that came from the address, if one did: they can tell that its contact is no person. What
/// names no mail address changes nothing.
pub open spec fn see_address(
    t: Tables,
    a: AddressText,
    headers: Option<Seq<char>>,
    now: Seq<char>,
) -> Tables {
    match email_of(a.email) {
        Some(e) => {
            let kind = kind_name(sender_kind(e.address, headers));
            let with_domain = see_domain(t, e.domain, now);
            if has_address(t, e.address) {
                see_contact_again(with_domain, contact_of(t, e.address), kind, now)
            } else {
                new_contact(with_domain, a.name, e.address, e.domain, kind, now)
            }
        },
        None => t,
    }
}

/// The contact that an address belongs to once it was seen.
pub open spec fn seen_contact(t: Tables, a: AddressText) -> Option<i64> {
    match email_of(a.email) {
        Some(e) => Some(
            if has_address(t, e.address) {
                contact_of(t, e.address)
            } else {
                next_contact_id(t) as i64
            },
        ),
        None => None,
    }
}

/// A recipient of a message: seen, and listed once in its part of the message.
pub open spec fn add_recipient(
    t: Tables,
    message_id: i64,
    kind: Seq<char>,
    a: AddressText,
    now: Seq<char>,
) -> Tables {
    match email_of(a.email) {
        Some(e) => {
            let seen = see_address(t, a, None, now);
            let row = RecipientText {
                message_id,
                contact_id: seen_contact(t, a),
                kind,
                email: e.address,
                display_name: a.name,
                domain: Some(e.domain),
            };
            if exists|i: int|
                0 <= i < t.recipients.len() && same_recipient(#[trigger] t.recipients[i], row) {
                seen
            } else {
                Tables { recipients: t.recipients.push(row), ..seen }
            }
        },
        None => t,
    }
}

/// The recipients in one part of a message, one after the other.
pub open spec fn add_recipients(
    t: Tables,
    message_id: i64,
    kind: Seq<char>,
    list: Seq<AddressText>,
    now: Seq<char>,
) -> Tables
    decreases list.len(),
{
    if list.len() == 0 {
        t
    } else {
        add_recipient(
            add_recipients(t, message_id, kind, list.drop_last(), now),
            message_id,
            kind,
            list.last(),
            now,
        )
    }
}

/// Who sent a message: the sender, or else who it is from.
pub open spec fn message_sender(m: MessageText) -> Option<AddressText> {
    either(m.sender, m.from)
}

/// The row for a message.
pub open spec fn message_row(t: Tables, scan_id: i64, m: MessageText) -> MessageRowText {
    let sender = message_sender(m);
    let email = match sender {
        Some(a) => email_of(a.email),
        None => None,
    };
    MessageRowText {
        id: next_message_id(t) as i64,
        scan_id,
        source_id: either(m.source_id, m.internet_message_id),
        internet_message_id: m.internet_message_id,
        conversation_id: m.conversation_id,
        in_reply_to: m.in_reply_to,
        reference_ids: m.references,
        subject: m.subject,
        sent_at: m.sent_at,
        received_at: m.received_at,
        folder_path: m.folder_path,
        sender_contact_id: match sender {
            Some(a) => seen_contact(t, a),
            None => None,
        },
        sender_email: match email {
            Some(e) => Some(e.address),
            None => None,
        },
        sender_domain: match email {
            Some(e) => Some(e.domain),
            None => None,
        },
        sender_kind: match sender {
            Some(a) => kind_name(sender_kind(a.email, m.headers)),
            None => "unknown"@,
        },
        headers: m.headers,
        size_bytes: m.size_bytes,
        has_attachments: m.has_attachments,
        malformed: 0,
    }
}

/// Whether a message is there already: one with the same source or the same message id.
pub open spec fn is_indexed(t: Tables, m: MessageText) -> bool {
    exists|i: int|
        0 <= i < t.messages.len() && same_identity(
            message_row(t, 0, m),
            #[trigger] t.messages[i],
        )
}

/// Whether there is a scan with the id.
pub open spec fn has_scan(t: Tables, id: i64) -> bool {
    exists|i: int| 0 <= i < t.scans.len() && (#[trigger] t.scans[i]).id == id
}

/// The sender of a message was seen, with the headers of the message.
pub open spec fn see_sender(t: Tables, m: MessageText, now: Seq<char>) -> Tables {
    match message_sender(m) {
        Some(a) => see_address(t, a, m.headers, now),
        None => t,
    }
}

/// The tables with one more message id given out.
pub open spec fn with_message_id(t: Tables) -> Tables {
    Tables { ids: LastIds { messages: next_message_id(t) as i64, ..t.ids }, ..t }
}

/// A message that was there already: its sender was seen, and the id that it would have got is
/// not given out again.
pub open spec fn passed_over(t: Tables, m: MessageText, now: Seq<char>) -> Tables {
    with_message_id(see_sender(t, m, now))
}

/// A message that was not there: its sender and its row.
pub open spec fn stored_message(t: Tables, scan_id: i64, m: MessageText, now: Seq<char>) -> Tables {
    Tables {
        messages: t.messages.push(message_row(t, scan_id, m)),
        ..passed_over(t, m, now)
    }
}

/// A message that was not there: its sender, its row, and its recipients.
pub open spec fn index_message(t: Tables, scan_id: i64, m: MessageText, now: Seq<char>) -> Tables {
    let row = message_row(t, scan_id, m);
    let stored = stored_message(t, scan_id, m, now);
    let with_to = add_recipients(stored, row.id, "to"@, m.to, now);
    let with_cc = add_recipients(with_to, row.id, "cc"@, m.cc, now);
    add_recipients(with_cc, row.id, "bcc"@, m.bcc, now)
}

/// How many rows of a kind a message can need.
pub open spec fn rows_needed(m: MessageText) -> int {
    (1 + m.to.len() + m.cc.len() + m.bcc.len()) as int
}

/// A scan that begins.
pub open spec fn begun_scan(t: Tables, archive_path: Seq<char>, now: Seq<char>) -> Tables {
    Tables {
        ids: LastIds { scans: next_scan_id(t) as i64, ..t.ids },
        scans: t.scans.push(
            ScanText {
                id: next_scan_id(t) as i64,
                archive_path,
                status: "running"@,
                started_at: now,
                finished_at: None,
                messages_seen: 0,
                messages_indexed: 0,
                malformed_messages: 0,
                error: None,
            },
        ),
        ..t
    }
}

/// The scan with the id has come to an end.
pub open spec fn finished_scan(
    t: Tables,
    id: i64,
    status: Seq<char>,
    error: Option<Seq<char>>,
    now: Seq<char>,
) -> Tables {
    Tables {
        scans: t.scans.map_values(
            |s: ScanText|
                if s.id == id {
                    ScanText { status, finished_at: Some(now), error, ..s }
                } else {
                    s
                },
        ),
        ..t
    }
}

/// The scan with the id has got this far.
pub open spec fn progressed_scan(t: Tables, id: i64, seen: i64, indexed: i64) -> Tables {
    Tables {
        scans: t.scans.map_values(
            |s: ScanText|
                if s.id == id {
                    ScanText { messages_seen: seen, messages_indexed: indexed, ..s }
                } else {
                    s
                },
        ),
        ..t
    }
}

/// Whether there is room for one more scan.
pub open spec fn has_scan_room(t: Tables) -> bool {
    t.scans.len() < ROW_LIMIT && t.ids.scans < i64::MAX
}

} // verus!
