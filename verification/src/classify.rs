//! Sender classification: people, and the machines that write like them.
use vstd::prelude::*;

use crate::normalize::{
    email_of, is_wrapped, law_email_ignores_case, law_email_stable, normalize_email, EmailText,
};
use crate::text::{
    begins_with, contains_text, has_text, lower, lower_text, opt_str, same_text, split_first,
    split_once, starts_with, to_lower,
};

verus! {

/// What kind of sender an address belongs to.
#[derive(Debug, Clone, Copy, PartialEq, Eq, Structural)]
pub enum SenderKind {
    Person,
    NoReply,
    Bulk,
    Newsletter,
    Promotional,
    Automated,
    Invalid,
}

/// The stored name of a kind.
pub open spec fn kind_name(kind: SenderKind) -> Seq<char> {
    match kind {
        SenderKind::Person => "person"@,
        SenderKind::NoReply => "no_reply"@,
        SenderKind::Bulk => "bulk"@,
        SenderKind::Newsletter => "newsletter"@,
        SenderKind::Promotional => "promotional"@,
        SenderKind::Automated => "automated"@,
        SenderKind::Invalid => "invalid"@,
    }
}

impl SenderKind {
    /// The stored name of the kind.
    pub fn as_str(self) -> (r: &'static str)
        ensures
            r@ == kind_name(self),
    {
        match self {
            SenderKind::Person => "person",
            SenderKind::NoReply => "no_reply",
            SenderKind::Bulk => "bulk",
            SenderKind::Newsletter => "newsletter",
            SenderKind::Promotional => "promotional",
            SenderKind::Automated => "automated",
            SenderKind::Invalid => "invalid",
        }
    }
}

/// A domain that is set up for mail nobody answers.
pub open spec fn no_reply_domain(domain: Seq<char>) -> bool {
    ||| begins_with(domain, "noreply."@)
    ||| begins_with(domain, "no-reply."@)
    ||| has_text(domain, ".noreply."@)
    ||| has_text(domain, ".no-reply."@)
}

/// A local part that says that nobody answers.
pub open spec fn no_reply_local(local: Seq<char>) -> bool {
    ||| local == "no.reply"@
    ||| has_text(local, "noreply"@)
    ||| has_text(local, "no-reply"@)
    ||| has_text(local, "no_reply"@)
    ||| has_text(local, "do-not-reply"@)
    ||| has_text(local, "do_not_reply"@)
    ||| has_text(local, "donotreply"@)
}

/// A local part that newsletters are sent from.
pub open spec fn newsletter_local(local: Seq<char>) -> bool {
    local == "newsletter"@ || local == "digest"@ || local == "updates"@
}

/// A local part that advertising is sent from.
pub open spec fn promotional_local(local: Seq<char>) -> bool {
    ||| local == "promo"@
    ||| local == "promotions"@
    ||| local == "marketing"@
    ||| local == "offers"@
    ||| local == "deals"@
}

/// A local part that programs send from.
pub open spec fn automated_local(local: Seq<char>) -> bool {
    ||| local == "notifications"@
    ||| local == "notification"@
    ||| local == "alerts"@
    ||| local == "mailer"@
    ||| local == "bot"@
}

/// Headers that mark a bulk mailing, in any case.
pub open spec fn bulk_headers(headers: Seq<char>) -> bool {
    let low = lower_text(headers);
    ||| has_text(low, "precedence: bulk"@)
    ||| has_text(low, "list-unsubscribe:"@)
    ||| has_text(low, "x-mailer:"@)
}

/// What is before the first `@` of an address.
pub open spec fn mailbox(address: Seq<char>) -> Seq<char> {
    match split_first(address, '@') {
        Some((local, _)) => local,
        None => Seq::empty(),
    }
}

/// The kind that an address has by itself.
pub open spec fn address_kind(e: EmailText) -> SenderKind {
    let local = mailbox(e.address);
    if no_reply_domain(e.domain) || no_reply_local(local) {
        SenderKind::NoReply
    } else if newsletter_local(local) {
        SenderKind::Newsletter
    } else if promotional_local(local) {
        SenderKind::Promotional
    } else if automated_local(local) {
        SenderKind::Automated
    } else {
        SenderKind::Person
    }
}

/// The kind of a sender: invalid without a mail address, else what the address says; who
/// looks like a person but sends bulk mail is a bulk sender.
pub open spec fn sender_kind(email: Seq<char>, headers: Option<Seq<char>>) -> SenderKind {
    match email_of(email) {
        None => SenderKind::Invalid,
        Some(e) => match address_kind(e) {
            SenderKind::Person => match headers {
                Some(h) if bulk_headers(h) => SenderKind::Bulk,
                _ => SenderKind::Person,
            },
            kind => kind,
        },
    }
}

/// Classifies a sender by its address and, where there are any, the headers of its message.
pub fn classify_sender(email: &str, headers: Option<&str>) -> (r: SenderKind)
    ensures
        r == sender_kind(email@, opt_str(headers)),
{
    let normalized = match normalize_email(email) {
        Some(normalized) => normalized,
        None => {
            return SenderKind::Invalid;
        },
    };
    let local = match split_once(normalized.address.as_str(), '@') {
        Some((local, _)) => local,
        None => "",
    };
    proof {
        reveal_strlit("");
        assert(local@ =~= mailbox(normalized.address@));
    }
    let domain = normalized.domain.as_str();

    if starts_with(domain, "noreply.") || starts_with(domain, "no-reply.") || contains_text(
        domain,
        ".noreply.",
    ) || contains_text(domain, ".no-reply.") {
        return SenderKind::NoReply;
    }
    if same_text(local, "no.reply") || contains_text(local, "noreply") || contains_text(
        local,
        "no-reply",
    ) || contains_text(local, "no_reply") || contains_text(local, "do-not-reply") || contains_text(
        local,
        "do_not_reply",
    ) || contains_text(local, "donotreply") {
        return SenderKind::NoReply;
    }
    if same_text(local, "newsletter") || same_text(local, "digest") || same_text(local, "updates") {
        return SenderKind::Newsletter;
    }
    if same_text(local, "promo") || same_text(local, "promotions") || same_text(local, "marketing")
        || same_text(local, "offers") || same_text(local, "deals") {
        return SenderKind::Promotional;
    }
    if same_text(local, "notifications") || same_text(local, "notification") || same_text(
        local,
        "alerts",
    ) || same_text(local, "mailer") || same_text(local, "bot") {
        return SenderKind::Automated;
    }
    if let Some(headers) = headers {
        let low = to_lower(headers);
        if contains_text(low.as_str(), "precedence: bulk") || contains_text(
            low.as_str(),
            "list-unsubscribe:",
        ) || contains_text(low.as_str(), "x-mailer:") {
            return SenderKind::Bulk;
        }
    }
    SenderKind::Person
}

/// The names of the kinds that are not people.
pub open spec fn filtered_kind(kind: Seq<char>) -> bool {
    ||| kind == "no_reply"@
    ||| kind == "bulk"@
    ||| kind == "newsletter"@
    ||| kind == "promotional"@
    ||| kind == "automated"@
    ||| kind == "invalid"@
}

/// Whether a stored kind is one that is not a person.
pub fn is_filtered_sender_kind(kind: &str) -> (r: bool)
    ensures
        r == filtered_kind(kind@),
{
    same_text(kind, "no_reply") || same_text(kind, "bulk") || same_text(kind, "newsletter")
        || same_text(kind, "promotional") || same_text(kind, "automated") || same_text(
        kind,
        "invalid",
    )
}

// ---------------------------------------------------------------------------------------
// Laws
// ---------------------------------------------------------------------------------------

/// No two kinds have the same stored name.
pub proof fn law_kind_names_differ(a: SenderKind, b: SenderKind)
    ensures
        kind_name(a) == kind_name(b) ==> a == b,
{
    lemma_kind_name_lengths();
}

/// The lengths of the names of the kinds.
pub proof fn lemma_kind_name_lengths()
    ensures
        "person"@.len() == 6,
        "no_reply"@.len() == 8,
        "bulk"@.len() == 4,
        "newsletter"@.len() == 10,
        "promotional"@.len() == 11,
        "automated"@.len() == 9,
        "invalid"@.len() == 7,
{
    reveal_strlit("person");
    reveal_strlit("no_reply");
    reveal_strlit("bulk");
    reveal_strlit("newsletter");
    reveal_strlit("promotional");
    reveal_strlit("automated");
    reveal_strlit("invalid");
}

/// Everything but a person is filtered.
pub proof fn law_only_people_pass(kind: SenderKind)
    ensures
        filtered_kind(kind_name(kind)) <==> kind != SenderKind::Person,
{
    lemma_kind_name_lengths();
}

/// Headers can only turn a person into a bulk sender.
pub proof fn law_headers_only_mark_bulk(email: Seq<char>, headers: Seq<char>)
    ensures
        sender_kind(email, Some(headers)) == sender_kind(email, None) || (sender_kind(email, None)
            == SenderKind::Person && sender_kind(email, Some(headers)) == SenderKind::Bulk),
{
}

/// A sender is invalid just when it has no mail address.
pub proof fn law_invalid_without_address(email: Seq<char>, headers: Option<Seq<char>>)
    ensures
        sender_kind(email, headers) == SenderKind::Invalid <==> email_of(email) is None,
{
}

/// Upper and lower case of ASCII letters make no difference to the kind.
pub proof fn law_kind_ignores_case(email: Seq<char>, headers: Seq<char>)
    ensures
        sender_kind(lower_text(email), None) == sender_kind(email, None),
        sender_kind(email, Some(lower_text(headers))) == sender_kind(email, Some(headers)),
{
    law_email_ignores_case(email);
    let low = lower_text(headers);
    assert(lower_text(low) =~= low) by {
        assert forall|i: int| 0 <= i < low.len() implies lower_text(low)[i] == low[i] by {
            assert(lower(lower(headers[i])) == lower(headers[i]));
        }
    }
}

/// A sender and its normalized address are of the same kind, unless the address starts or
/// ends with a bracket or a quote.
pub proof fn law_kind_of_normalized(email: Seq<char>, headers: Option<Seq<char>>)
    requires
        email_of(email) matches Some(e) ==> !is_wrapped(e.address),
    ensures
        email_of(email) matches Some(e) ==> sender_kind(e.address, headers) == sender_kind(
            email,
            headers,
        ),
{
    law_email_stable(email);
}

} // verus!
