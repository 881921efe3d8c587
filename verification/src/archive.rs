//! Messages and the archives that they come from.
use vstd::prelude::*;
use vstd::utf8::{encode_utf8, valid_utf8};

use crate::headers::{
    fields_text, first_header, header_among, header_text, headers_of, key_values_of,
    law_body_is_no_header, names, parse_headers, parse_pff_key_values, value_of, FieldTexts,
    Headers,
};
use crate::numbers::{parse_i64, signed_value};
use crate::pieces::{lines, lines_of, split, split_on};
use crate::text::{
    contains_char, contains_text, has_text, lower_text, opt_str, opt_text, rsplit_once, same_text,
    split_first, split_last, split_once, texts, to_lower, to_upper, trim, trim_class,
    trim_end_class, trim_end_of, trim_of, trimmed, upper_text, CharClass,
};

pub use crate::readers::{
    ArchiveReader, PffDirectoryArchiveReader, PffExportArchiveReader, Rfc822ArchiveReader,
    VecArchiveReader,
};

verus! {

/// A mail address as a message gives it, with the name next to it.
#[derive(Debug, PartialEq, Eq)]
pub struct RawAddress {
    pub name: Option<String>,
    pub email: String,
}

/// The texts of an address.
pub ghost struct AddressText {
    pub name: Option<Seq<char>>,
    pub email: Seq<char>,
}

impl View for RawAddress {
    type V = AddressText;

    open spec fn view(&self) -> AddressText {
        AddressText { name: opt_text(self.name), email: self.email@ }
    }
}

impl Clone for RawAddress {
    fn clone(&self) -> (r: Self)
        ensures
            r@ == self@,
    {
        RawAddress { name: self.name.clone(), email: self.email.clone() }
    }
}

/// The texts of an optional address.
pub open spec fn opt_address(v: Option<RawAddress>) -> Option<AddressText> {
    match v {
        Some(a) => Some(a@),
        None => None,
    }
}

/// The texts of some addresses.
pub open spec fn addresses(v: Seq<RawAddress>) -> Seq<AddressText> {
    v.map_values(|a: RawAddress| a@)
}

impl RawAddress {
    /// An address without a name.
    pub fn new(email: &str) -> (r: Self)
        ensures
            r@ == (AddressText { name: None, email: email@ }),
    {
        RawAddress { name: None, email: email.to_owned() }
    }
}

/// What an archive holds of a message.
#[derive(Debug, PartialEq, Eq)]
pub struct RawMessage {
    pub source_id: Option<String>,
    pub internet_message_id: Option<String>,
    pub conversation_id: Option<String>,
    pub in_reply_to: Option<String>,
    pub references: Option<String>,
    pub subject: Option<String>,
    pub sent_at: Option<String>,
    pub received_at: Option<String>,
    pub folder_path: Option<String>,
    pub sender: Option<RawAddress>,
    pub from: Option<RawAddress>,
    pub to: Vec<RawAddress>,
    pub cc: Vec<RawAddress>,
    pub bcc: Vec<RawAddress>,
    pub headers: Option<String>,
    pub size_bytes: Option<i64>,
    pub has_attachments: bool,
}

/// The texts of a message.
pub ghost struct MessageText {
    pub source_id: Option<Seq<char>>,
    pub internet_message_id: Option<Seq<char>>,
    pub conversation_id: Option<Seq<char>>,
    pub in_reply_to: Option<Seq<char>>,
    pub references: Option<Seq<char>>,
    pub subject: Option<Seq<char>>,
    pub sent_at: Option<Seq<char>>,
    pub received_at: Option<Seq<char>>,
    pub folder_path: Option<Seq<char>>,
    pub sender: Option<AddressText>,
    pub from: Option<AddressText>,
    pub to: Seq<AddressText>,
    pub cc: Seq<AddressText>,
    pub bcc: Seq<AddressText>,
    pub headers: Option<Seq<char>>,
    pub size_bytes: Option<i64>,
    pub has_attachments: bool,
}

impl View for RawMessage {
    type V = MessageText;

    open spec fn view(&self) -> MessageText {
        MessageText {
            source_id: opt_text(self.source_id),
            internet_message_id: opt_text(self.internet_message_id),
            conversation_id: opt_text(self.conversation_id),
            in_reply_to: opt_text(self.in_reply_to),
            references: opt_text(self.references),
            subject: opt_text(self.subject),
            sent_at: opt_text(self.sent_at),
            received_at: opt_text(self.received_at),
            folder_path: opt_text(self.folder_path),
            sender: opt_address(self.sender),
            from: opt_address(self.from),
            to: addresses(self.to@),
            cc: addresses(self.cc@),
            bcc: addresses(self.bcc@),
            headers: opt_text(self.headers),
            size_bytes: self.size_bytes,
            has_attachments: self.has_attachments,
        }
    }
}

fn copy_addresses(v: &Vec<RawAddress>) -> (r: Vec<RawAddress>)
    ensures
        addresses(r@) == addresses(v@),
{
    let mut r: Vec<RawAddress> = Vec::new();
    let mut i: usize = 0;
    while i < v.len()
        invariant
            0 <= i <= v.len(),
            r@.len() == i,
            forall|j: int| 0 <= j < i ==> (#[trigger] r@[j])@ == v@[j]@,
        decreases v.len() - i,
    {
        r.push(v[i].clone());
        i = i + 1;
    }
    assert(addresses(r@) =~= addresses(v@));
    r
}

fn copy_address(a: &Option<RawAddress>) -> (r: Option<RawAddress>)
    ensures
        opt_address(r) == opt_address(*a),
{
    match a {
        Some(a) => Some(a.clone()),
        None => None,
    }
}

impl Clone for RawMessage {
    fn clone(&self) -> (r: RawMessage)
        ensures
            r@ == self@,
    {
        RawMessage {
            source_id: self.source_id.clone(),
            internet_message_id: self.internet_message_id.clone(),
            conversation_id: self.conversation_id.clone(),
            in_reply_to: self.in_reply_to.clone(),
            references: self.references.clone(),
            subject: self.subject.clone(),
            sent_at: self.sent_at.clone(),
            received_at: self.received_at.clone(),
            folder_path: self.folder_path.clone(),
            sender: copy_address(&self.sender),
            from: copy_address(&self.from),
            to: copy_addresses(&self.to),
            cc: copy_addresses(&self.cc),
            bcc: copy_addresses(&self.bcc),
            headers: self.headers.clone(),
            size_bytes: self.size_bytes,
            has_attachments: self.has_attachments,
        }
    }
}

impl Default for RawMessage {
    fn default() -> (r: Self)
        ensures
            r@ == (MessageText {
                source_id: None,
                internet_message_id: None,
                conversation_id: None,
                in_reply_to: None,
                references: None,
                subject: None,
                sent_at: None,
                received_at: None,
                folder_path: None,
                sender: None,
                from: None,
                to: Seq::empty(),
                cc: Seq::empty(),
                bcc: Seq::empty(),
                headers: None,
                size_bytes: None,
                has_attachments: false,
            }),
    {
        let r = RawMessage {
            source_id: None,
            internet_message_id: None,
            conversation_id: None,
            in_reply_to: None,
            references: None,
            subject: None,
            sent_at: None,
            received_at: None,
            folder_path: None,
            sender: None,
            from: None,
            to: Vec::new(),
            cc: Vec::new(),
            bcc: Vec::new(),
            headers: None,
            size_bytes: None,
            has_attachments: false,
        };
        assert(addresses(r.to@) =~= Seq::empty());
        assert(addresses(r.cc@) =~= Seq::empty());
        assert(addresses(r.bcc@) =~= Seq::empty());
        r
    }
}

// ---------------------------------------------------------------------------------------
// Addresses
// ---------------------------------------------------------------------------------------

/// The address that one entry of an address list names. In `name <address>` the name may be
/// quoted; where the brackets hold no `@`, or there are none, the entry itself is the address
/// if it has one.
pub open spec fn address_in(part: Seq<char>) -> Option<AddressText> {
    let plain = trim_of(trimmed(part), CharClass::Just('"'));
    let bare = if plain.contains('@') {
        Some(AddressText { name: None, email: plain })
    } else {
        None
    };
    match split_last(part, '<') {
        Some((before, after)) => {
            let email = trimmed(trim_end_of(trimmed(after), CharClass::Just('>')));
            let name = trim_of(trimmed(before), CharClass::Just('"'));
            if email.contains('@') {
                Some(
                    AddressText {
                        name: if name.len() > 0 {
                            Some(name)
                        } else {
                            None
                        },
                        email,
                    },
                )
            } else {
                bare
            }
        },
        None => bare,
    }
}

/// Reads one entry of an address list.
pub fn parse_address(part: &str) -> (r: Option<RawAddress>)
    ensures
        opt_address(r) == address_in(part@),
{
    if let Some((before, after)) = rsplit_once(part, '<') {
        let email = trim(trim_end_class(trim(after), CharClass::Just('>')));
        if contains_char(email, '@') {
            let name = trim_class(trim(before), CharClass::Just('"'));
            return Some(
                RawAddress {
                    name: if name.is_empty() {
                        None
                    } else {
                        Some(name.to_owned())
                    },
                    email: email.to_owned(),
                },
            );
        }
    }
    let email = trim_class(trim(part), CharClass::Just('"'));
    if contains_char(email, '@') {
        Some(RawAddress::new(email))
    } else {
        None
    }
}

/// The addresses that some entries name.
pub open spec fn addresses_in(parts: Seq<Seq<char>>) -> Seq<AddressText>
    decreases parts.len(),
{
    if parts.len() == 0 {
        Seq::empty()
    } else {
        let before = addresses_in(parts.drop_last());
        match address_in(trimmed(parts.last())) {
            Some(a) => before.push(a),
            None => before,
        }
    }
}

/// The addresses of an address list, whose entries stand between commas.
pub open spec fn address_list(value: Seq<char>) -> Seq<AddressText> {
    addresses_in(split_on(value, ','))
}

/// Reads an address list.
pub fn parse_addresses(value: &str) -> (r: Vec<RawAddress>)
    ensures
        addresses(r@) == address_list(value@),
{
    let parts = split(value, ',');
    let mut out: Vec<RawAddress> = Vec::new();
    let mut i: usize = 0;
    assert(addresses(out@) =~= Seq::empty());
    while i < parts.len()
        invariant
            0 <= i <= parts.len(),
            addresses(out@) == addresses_in(texts(parts@).take(i as int)),
        decreases parts.len() - i,
    {
        let ghost next = texts(parts@).take(i + 1);
        let ghost before = addresses(out@);
        assert(next.drop_last() == texts(parts@).take(i as int));
        assert(next.last() == parts@[i as int]@);
        if let Some(a) = parse_address(trim(parts[i].as_str())) {
            let ghost added = a@;
            out.push(a);
            assert(addresses(out@) =~= before.push(added));
        }
        i = i + 1;
    }
    assert(texts(parts@).take(i as int) == texts(parts@));
    out
}

/// The first of some addresses.
pub open spec fn first_of(list: Seq<AddressText>) -> Option<AddressText> {
    if list.len() > 0 {
        Some(list[0])
    } else {
        None
    }
}

/// The first address of an optional address list.
pub open spec fn first_address(value: Option<Seq<char>>) -> Option<AddressText> {
    match value {
        Some(v) => first_of(address_list(v)),
        None => None,
    }
}

/// The addresses of an optional address list.
pub open spec fn all_addresses(value: Option<Seq<char>>) -> Seq<AddressText> {
    match value {
        Some(v) => address_list(v),
        None => Seq::empty(),
    }
}

fn parse_first_address(value: &Option<String>) -> (r: Option<RawAddress>)
    ensures
        opt_address(r) == first_address(opt_text(*value)),
{
    match value {
        Some(v) => {
            let list = parse_addresses(v.as_str());
            if list.len() == 0 {
                None
            } else {
                assert(addresses(list@)[0] == list@[0]@);
                Some(list[0].clone())
            }
        },
        None => None,
    }
}

fn parse_all_addresses(value: &Option<String>) -> (r: Vec<RawAddress>)
    ensures
        addresses(r@) == all_addresses(opt_text(*value)),
{
    match value {
        Some(v) => parse_addresses(v.as_str()),
        None => {
            let r: Vec<RawAddress> = Vec::new();
            assert(addresses(r@) =~= Seq::empty());
            r
        },
    }
}

// ---------------------------------------------------------------------------------------
// Recipient files
// ---------------------------------------------------------------------------------------

/// The recipients of an exported message.
#[derive(Debug, PartialEq, Eq)]
pub struct PffRecipients {
    pub to: Vec<RawAddress>,
    pub cc: Vec<RawAddress>,
    pub bcc: Vec<RawAddress>,
}

/// The recipients read so far, and what the current entry has said.
pub ghost struct RecipientState {
    pub to: Seq<AddressText>,
    pub cc: Seq<AddressText>,
    pub bcc: Seq<AddressText>,
    pub name: Option<Seq<char>>,
    pub email: Option<Seq<char>>,
    pub kind: Option<Seq<char>>,
}

/// The end of an entry: a recipient, if it gave an address; copies go to `cc` and `bcc`, all
/// others to `to`.
pub open spec fn close_recipient(st: RecipientState) -> RecipientState {
    let closed = RecipientState { name: None, email: None, kind: None, ..st };
    match st.email {
        Some(email) => {
            let a = AddressText { name: st.name, email };
            if st.kind == Some("CC"@) {
                RecipientState { cc: st.cc.push(a), ..closed }
            } else if st.kind == Some("BCC"@) {
                RecipientState { bcc: st.bcc.push(a), ..closed }
            } else {
                RecipientState { to: st.to.push(a), ..closed }
            }
        },
        None => closed,
    }
}

/// What one line of a recipient file says.
pub open spec fn recipient_line(st: RecipientState, raw: Seq<char>) -> RecipientState {
    let line = trimmed(raw);
    if line.len() == 0 {
        close_recipient(st)
    } else {
        match split_first(line, ':') {
            Some((name, content)) => {
                let key = lower_text(trimmed(name));
                let value = trimmed(content);
                if key == "display name"@ {
                    RecipientState { name: Some(value), ..st }
                } else if key == "email address"@ {
                    RecipientState { email: Some(value), ..st }
                } else if key == "recipient type"@ {
                    RecipientState { kind: Some(upper_text(value)), ..st }
                } else {
                    st
                }
            },
            None => st,
        }
    }
}

/// What lines of a recipient file say.
pub open spec fn recipient_lines(st: RecipientState, lines: Seq<Seq<char>>) -> RecipientState
    decreases lines.len(),
{
    if lines.len() == 0 {
        st
    } else {
        recipient_lines(recipient_line(st, lines[0]), lines.drop_first())
    }
}

/// No recipients read yet.
pub open spec fn no_recipients() -> RecipientState {
    RecipientState {
        to: Seq::empty(),
        cc: Seq::empty(),
        bcc: Seq::empty(),
        name: None,
        email: None,
        kind: None,
    }
}

/// What a recipient file says; its end closes the last entry.
pub open spec fn recipients_of(text: Seq<char>) -> RecipientState {
    close_recipient(recipient_lines(no_recipients(), lines_of(text)))
}

/// Reads a recipient file.
pub fn parse_pff_recipients(text: &str) -> (r: PffRecipients)
    ensures
        addresses(r.to@) == recipients_of(text@).to,
        addresses(r.cc@) == recipients_of(text@).cc,
        addresses(r.bcc@) == recipients_of(text@).bcc,
{
    let all = lines(text);
    let mut out = PffRecipients { to: Vec::new(), cc: Vec::new(), bcc: Vec::new() };
    let mut name: Option<String> = None;
    let mut email: Option<String> = None;
    let mut kind: Option<String> = None;
    let mut i: usize = 0;
    let ghost want = recipient_lines(no_recipients(), lines_of(text@));
    let ghost mut st = no_recipients();
    assert(texts(all@).skip(0) == lines_of(text@));
    assert(addresses(out.to@) =~= st.to);
    assert(addresses(out.cc@) =~= st.cc);
    assert(addresses(out.bcc@) =~= st.bcc);
    while i < all.len()
        invariant
            0 <= i <= all.len(),
            st == (RecipientState {
                to: addresses(out.to@),
                cc: addresses(out.cc@),
                bcc: addresses(out.bcc@),
                name: opt_text(name),
                email: opt_text(email),
                kind: opt_text(kind),
            }),
            recipient_lines(st, texts(all@).skip(i as int)) == want,
        decreases all.len() - i,
    {
        let ghost rest = texts(all@).skip(i as int);
        assert(rest[0] == all@[i as int]@);
        assert(rest.drop_first() == texts(all@).skip(i + 1));
        let line = trim(all[i].as_str());
        let ghost next = recipient_line(st, all@[i as int]@);
        if line.is_empty() {
            close_entry(&mut out, name, email, kind);
            name = None;
            email = None;
            kind = None;
        } else if let Some((key, content)) = split_once(line, ':') {
            let value = trim(content);
            let key = to_lower(trim(key));
            if same_text(key.as_str(), "display name") {
                name = Some(value.to_owned());
            } else if same_text(key.as_str(), "email address") {
                email = Some(value.to_owned());
            } else if same_text(key.as_str(), "recipient type") {
                kind = Some(to_upper(value));
            }
        }
        proof {
            st = next;
        }
        i = i + 1;
    }
    assert(texts(all@).skip(i as int).len() == 0);
    close_entry(&mut out, name, email, kind);
    out
}

/// Ends an entry of a recipient file.
fn close_entry(
    out: &mut PffRecipients,
    name: Option<String>,
    email: Option<String>,
    kind: Option<String>,
)
    ensures
        ({
            let st = close_recipient(
                RecipientState {
                    to: addresses(old(out).to@),
                    cc: addresses(old(out).cc@),
                    bcc: addresses(old(out).bcc@),
                    name: opt_text(name),
                    email: opt_text(email),
                    kind: opt_text(kind),
                },
            );
            &&& addresses(final(out).to@) == st.to
            &&& addresses(final(out).cc@) == st.cc
            &&& addresses(final(out).bcc@) == st.bcc
        }),
{
    if let Some(email) = email {
        let (is_cc, is_bcc) = match &kind {
            Some(k) => (same_text(k.as_str(), "CC"), same_text(k.as_str(), "BCC")),
            None => (false, false),
        };
        let a = RawAddress { name, email };
        let ghost added = a@;
        if is_cc {
            let ghost before = addresses(out.cc@);
            out.cc.push(a);
            assert(addresses(out.cc@) =~= before.push(added));
        } else if is_bcc {
            let ghost before = addresses(out.bcc@);
            out.bcc.push(a);
            assert(addresses(out.bcc@) =~= before.push(added));
        } else {
            let ghost before = addresses(out.to@);
            out.to.push(a);
            assert(addresses(out.to@) =~= before.push(added));
        }
    }
}

// ---------------------------------------------------------------------------------------
// Messages
// ---------------------------------------------------------------------------------------

/// The text that `String::from_utf8_lossy` makes of some bytes.
pub uninterp spec fn lossy_text(bytes: Seq<u8>) -> Seq<char>;

/// `String::from_utf8_lossy`, as an owned string: a text that depends on the bytes alone;
/// bytes that are valid UTF-8 are the encoding of that text.
#[verifier::external_body]
pub(crate) fn decode_lossy(bytes: &[u8]) -> (r: String)
    ensures
        r@ == lossy_text(bytes@),
        valid_utf8(bytes@) ==> encode_utf8(r@) == bytes@,
{
    String::from_utf8_lossy(bytes).into_owned()
}

/// The first of two optional texts that is there.
pub open spec fn either<T>(a: Option<T>, b: Option<T>) -> Option<T> {
    match a {
        Some(_) => a,
        None => b,
    }
}

/// An optional text, unless it is empty.
pub open spec fn non_empty(v: Option<Seq<char>>) -> Option<Seq<char>> {
    match v {
        Some(s) if s.len() > 0 => Some(s),
        _ => None,
    }
}

/// The header of one key.
pub open spec fn header(fields: FieldTexts, key: Seq<char>) -> Option<Seq<char>> {
    header_among(fields, seq![key])
}

fn one_header(headers: &Headers, key: &str) -> (r: Option<String>)
    ensures
        opt_text(r) == header(headers@, key@),
{
    let keys = [key];
    assert(names(keys@) =~= seq![key@]);
    first_header(headers, &keys)
}

fn either_header(headers: &Headers, key: &str, other: &str) -> (r: Option<String>)
    ensures
        opt_text(r) == header_among(headers@, seq![key@, other@]),
{
    let keys = [key, other];
    assert(names(keys@) =~= seq![key@, other@]);
    first_header(headers, &keys)
}

fn either_text(a: Option<String>, b: Option<String>) -> (r: Option<String>)
    ensures
        opt_text(r) == either(opt_text(a), opt_text(b)),
{
    match a {
        Some(v) => Some(v),
        None => b,
    }
}

fn drop_empty(v: Option<String>) -> (r: Option<String>)
    ensures
        opt_text(r) == non_empty(opt_text(v)),
{
    match v {
        Some(s) => {
            if s.as_str().is_empty() {
                None
            } else {
                Some(s)
            }
        },
        None => None,
    }
}

fn value_copy(headers: &Headers, key: &str) -> (r: Option<String>)
    ensures
        opt_text(r) == value_of(headers@, key@),
{
    match headers.get(key) {
        Some(v) => Some(v.clone()),
        None => None,
    }
}

/// The sender that headers name: the `Sender` header or else the `From` header counts.
pub open spec fn header_sender(fields: FieldTexts) -> Option<AddressText> {
    first_address(either(header(fields, "sender"@), header(fields, "from"@)))
}

/// The message that a mail file holds.
pub open spec fn rfc822_message(
    source: Seq<char>,
    folder: Option<Seq<char>>,
    text: Seq<char>,
    size: i64,
) -> MessageText {
    let fields = headers_of(text);
    MessageText {
        source_id: Some(source),
        internet_message_id: header_among(fields, seq!["message-id"@, "message id"@]),
        conversation_id: header_among(fields, seq!["thread-index"@, "conversation-id"@]),
        in_reply_to: header(fields, "in-reply-to"@),
        references: header(fields, "references"@),
        subject: header(fields, "subject"@),
        sent_at: header(fields, "date"@),
        received_at: header_among(fields, seq!["delivery-date"@, "received"@]),
        folder_path: non_empty(folder),
        sender: header_sender(fields),
        from: first_address(header(fields, "from"@)),
        to: all_addresses(header(fields, "to"@)),
        cc: all_addresses(header(fields, "cc"@)),
        bcc: all_addresses(header(fields, "bcc"@)),
        headers: non_empty(Some(fields_text(fields))),
        size_bytes: Some(size),
        has_attachments: has_text(lower_text(text), "content-disposition: attachment"@),
    }
}

/// Reads the text of a mail file. `source` says which file it is, `folder` in which folder
/// under the archive it lies, and `size` how many bytes it has.
pub fn parse_rfc822_text(source: &str, folder: Option<String>, text: &str, size: i64) -> (r:
    RawMessage)
    ensures
        r@ == rfc822_message(source@, opt_text(folder), text@, size),
{
    let headers = parse_headers(text);
    let from = one_header(&headers, "from");
    let sender = either_text(one_header(&headers, "sender"), one_header(&headers, "from"));
    let lower = to_lower(text);
    let has_attachments = contains_text(lower.as_str(), "content-disposition: attachment");
    RawMessage {
        source_id: Some(source.to_owned()),
        internet_message_id: either_header(&headers, "message-id", "message id"),
        conversation_id: either_header(&headers, "thread-index", "conversation-id"),
        in_reply_to: one_header(&headers, "in-reply-to"),
        references: one_header(&headers, "references"),
        subject: one_header(&headers, "subject"),
        sent_at: one_header(&headers, "date"),
        received_at: either_header(&headers, "delivery-date", "received"),
        folder_path: drop_empty(folder),
        sender: parse_first_address(&sender),
        from: parse_first_address(&from),
        to: parse_all_addresses(&one_header(&headers, "to")),
        cc: parse_all_addresses(&one_header(&headers, "cc")),
        bcc: parse_all_addresses(&one_header(&headers, "bcc")),
        headers: drop_empty(Some(header_text(&headers))),
        size_bytes: Some(size),
        has_attachments,
    }
}

/// Reads the bytes of a mail file.
pub fn parse_rfc822_file(source: &str, folder: Option<String>, bytes: &[u8]) -> (r: RawMessage)
    ensures
        r@ == rfc822_message(
            source@,
            opt_text(folder),
            lossy_text(bytes@),
            bytes.len() as i64,
        ),
        valid_utf8(bytes@) ==> encode_utf8(lossy_text(bytes@)) == bytes@,
{
    let text = decode_lossy(bytes);
    parse_rfc822_text(source, folder, text.as_str(), bytes.len() as i64)
}

/// What the files of an exported message say, and where it lies.
pub struct PffMessageFiles {
    /// The message directory.
    pub source: String,
    /// The folder under the archive that the directory lies in.
    pub folder: Option<String>,
    /// `InternetHeaders.txt`, empty if there is none.
    pub internet_headers: String,
    /// `OutlookHeaders.txt`, empty if there is none.
    pub outlook_headers: String,
    /// `Recipients.txt`, empty if there is none.
    pub recipients: String,
    /// Whether there is a directory for attachments.
    pub has_attachments: bool,
}

/// The texts of an exported message.
pub ghost struct PffTexts {
    pub source: Seq<char>,
    pub folder: Option<Seq<char>>,
    pub internet_headers: Seq<char>,
    pub outlook_headers: Seq<char>,
    pub recipients: Seq<char>,
    pub has_attachments: bool,
}

impl View for PffMessageFiles {
    type V = PffTexts;

    open spec fn view(&self) -> PffTexts {
        PffTexts {
            source: self.source@,
            folder: opt_text(self.folder),
            internet_headers: self.internet_headers@,
            outlook_headers: self.outlook_headers@,
            recipients: self.recipients@,
            has_attachments: self.has_attachments,
        }
    }
}

/// The sender that Outlook's headers name.
pub open spec fn outlook_sender(outlook: FieldTexts) -> Option<AddressText> {
    match value_of(outlook, "sender email address"@) {
        Some(email) => Some(AddressText { name: value_of(outlook, "sender name"@), email }),
        None => None,
    }
}

/// The number that a value stands for.
pub open spec fn opt_number(v: Option<Seq<char>>) -> Option<i64> {
    match v {
        Some(s) => match signed_value(s) {
            Some(n) => Some(n as i64),
            None => None,
        },
        None => None,
    }
}

/// The message that an exported message directory holds. Outlook's own headers fill in what
/// the internet headers lack, and come first for the conversation and the time of delivery;
/// the recipient file counts where the headers name no recipient at all.
pub open spec fn pff_message(files: PffTexts) -> MessageText {
    let fields = headers_of(files.internet_headers);
    let outlook = key_values_of(files.outlook_headers);
    let sender = either(header_sender(fields), outlook_sender(outlook));
    let to = all_addresses(header(fields, "to"@));
    let cc = all_addresses(header(fields, "cc"@));
    let bcc = all_addresses(header(fields, "bcc"@));
    let listed = recipients_of(files.recipients);
    let unlisted = to.len() == 0 && cc.len() == 0 && bcc.len() == 0;
    MessageText {
        source_id: Some(files.source),
        internet_message_id: header_among(fields, seq!["message-id"@, "message id"@]),
        conversation_id: either(
            value_of(outlook, "conversation topic"@),
            header_among(fields, seq!["thread-index"@, "conversation-id"@]),
        ),
        in_reply_to: header(fields, "in-reply-to"@),
        references: header(fields, "references"@),
        subject: either(header(fields, "subject"@), value_of(outlook, "subject"@)),
        sent_at: either(header(fields, "date"@), value_of(outlook, "client submit time"@)),
        received_at: either(
            value_of(outlook, "delivery time"@),
            header_among(fields, seq!["delivery-date"@, "received"@]),
        ),
        folder_path: non_empty(files.folder),
        sender,
        from: either(first_address(header(fields, "from"@)), sender),
        to: if unlisted {
            listed.to
        } else {
            to
        },
        cc: if unlisted {
            listed.cc
        } else {
            cc
        },
        bcc: if unlisted {
            listed.bcc
        } else {
            bcc
        },
        headers: if trimmed(files.internet_headers).len() > 0 {
            Some(files.internet_headers)
        } else {
            None
        },
        size_bytes: opt_number(value_of(outlook, "size"@)),
        has_attachments: files.has_attachments,
    }
}

/// Reads the files of an exported message directory.
pub fn parse_pff_message_dir(files: PffMessageFiles) -> (r: RawMessage)
    ensures
        r@ == pff_message(files@),
{
    let headers = parse_headers(files.internet_headers.as_str());
    let outlook = parse_pff_key_values(files.outlook_headers.as_str());

    let named = either_text(one_header(&headers, "sender"), one_header(&headers, "from"));
    let sender = match parse_first_address(&named) {
        Some(a) => Some(a),
        None => match value_copy(&outlook, "sender email address") {
            Some(email) => Some(RawAddress { name: value_copy(&outlook, "sender name"), email }),
            None => None,
        },
    };
    let from = match parse_first_address(&one_header(&headers, "from")) {
        Some(a) => Some(a),
        None => match &sender {
            Some(a) => Some(a.clone()),
            None => None,
        },
    };
    let mut to = parse_all_addresses(&one_header(&headers, "to"));
    let mut cc = parse_all_addresses(&one_header(&headers, "cc"));
    let mut bcc = parse_all_addresses(&one_header(&headers, "bcc"));
    if to.len() == 0 && cc.len() == 0 && bcc.len() == 0 {
        let recipients = parse_pff_recipients(files.recipients.as_str());
        to = recipients.to;
        cc = recipients.cc;
        bcc = recipients.bcc;
    }
    let size_bytes = match outlook.get("size") {
        Some(size) => parse_i64(size.as_str()),
        None => None,
    };
    let kept = if trim(files.internet_headers.as_str()).is_empty() {
        None
    } else {
        Some(files.internet_headers)
    };
    RawMessage {
        source_id: Some(files.source),
        internet_message_id: either_header(&headers, "message-id", "message id"),
        conversation_id: either_text(
            value_copy(&outlook, "conversation topic"),
            either_header(&headers, "thread-index", "conversation-id"),
        ),
        in_reply_to: one_header(&headers, "in-reply-to"),
        references: one_header(&headers, "references"),
        subject: either_text(one_header(&headers, "subject"), value_copy(&outlook, "subject")),
        sent_at: either_text(
            one_header(&headers, "date"),
            value_copy(&outlook, "client submit time"),
        ),
        received_at: either_text(
            value_copy(&outlook, "delivery time"),
            either_header(&headers, "delivery-date", "received"),
        ),
        folder_path: drop_empty(files.folder),
        sender,
        from,
        to,
        cc,
        bcc,
        headers: kept,
        size_bytes,
        has_attachments: files.has_attachments,
    }
}

/// Whether a file with this extension, if it has one, is taken for a message.
pub open spec fn message_extension(extension: Option<Seq<char>>) -> bool {
    match extension {
        Some(e) => {
            let low = lower_text(e);
            low == "eml"@ || low == "txt"@ || low == "message"@ || low == "email"@
        },
        None => true,
    }
}

/// Whether a file with this extension, if it has one, is taken for a message.
pub fn looks_like_message_file(extension: Option<&str>) -> (r: bool)
    ensures
        r == message_extension(opt_str(extension)),
{
    match extension {
        Some(e) => {
            let low = to_lower(e);
            same_text(low.as_str(), "eml") || same_text(low.as_str(), "txt") || same_text(
                low.as_str(),
                "message",
            ) || same_text(low.as_str(), "email")
        },
        None => true,
    }
}

// ---------------------------------------------------------------------------------------
// Laws
// ---------------------------------------------------------------------------------------

/// Nothing of the body of a message is kept; it only tells whether there is an attachment.
pub proof fn law_body_is_not_kept(
    source: Seq<char>,
    folder: Option<Seq<char>>,
    head: Seq<char>,
    body: Seq<char>,
    size: i64,
)
    ensures
        ({
            let above = head + seq!['\n'] + seq!['\n'];
            rfc822_message(source, folder, above + body, size) == MessageText {
                has_attachments: has_text(
                    lower_text(above + body),
                    "content-disposition: attachment"@,
                ),
                ..rfc822_message(source, folder, above, size)
            }
        }),
{
    law_body_is_no_header(head, body);
}

} // verus!
