//! Which address an input names and which kind of sender it is, told by how the input is put
//! together.
use vstd::prelude::*;

use crate::classify::{mailbox, sender_kind, SenderKind};
use crate::normalize::{domain_of, email_of, is_domain, law_email_shape, unwrapped, EmailText};
use crate::pieces::lemma_find_at;
use crate::reading::{is_trim, lacks};
use crate::text::{
    begins_with, has_text, is_space, lemma_rfind, lemma_trim_end_shape, lemma_trim_keeps,
    lemma_trim_shape, lemma_trim_start_shape, lower, lower_text, occurs_at, rfind, split_last,
    trim_end_of, trim_of, trimmed, CharClass,
};

verus! {

// ---------------------------------------------------------------------------------------
// Addresses
// ---------------------------------------------------------------------------------------

/// Whether a character is one of the brackets and quotes that are put around an address.
pub open spec fn is_wrapping(c: char) -> bool {
    c == '<' || c == '>' || c == '"' || c == '\''
}

/// Whether a text is a domain: it has a dot, but not at its ends, and no white space.
pub open spec fn is_dotted(d: Seq<char>) -> bool {
    &&& d.contains('.')
    &&& d[0] != '.'
    &&& d.last() != '.'
    &&& forall|i: int| 0 <= i < d.len() ==> !is_space(#[trigger] d[i])
}

/// An address in its normal form is a local part and a domain with an `@` between them, in lower
/// case and without white space; the domain has a dot, but not at its ends, and no `@`.
pub proof fn law_normal_form(input: Seq<char>)
    requires
        email_of(input) is Some,
    ensures
        ({
            let e = email_of(input)->0;
            let n = e.address.len() - e.domain.len() - 1;
            &&& n > 0
            &&& e.address[n] == '@'
            &&& e.address.skip(n + 1) == e.domain
            &&& is_dotted(e.domain)
            &&& lacks(e.domain, '@')
            &&& forall|i: int| 0 <= i < e.address.len() ==> !is_space(#[trigger] e.address[i])
            &&& forall|i: int|
                0 <= i < e.address.len() ==> !(0x41 <= #[trigger] e.address[i] as u32 <= 0x5a)
        }),
{
    let e = email_of(input)->0;
    let local = law_email_shape(input);
    let n = e.address.len() - e.domain.len() - 1;
    assert(n == local.len());
    assert(e.address[n] == '@');
    assert(e.address.skip(n + 1) =~= e.domain);
    let u = unwrapped(input);
    let (before, after) = split_last(u, '@')->0;
    let l = lower_text(trimmed(before));
    let d = lower_text(trim_end_of(trimmed(after), CharClass::Just('.')));
    assert(e.domain == d);
    assert(e.address == l + seq!['@'] + d);
    assert forall|i: int| 0 <= i < e.address.len() implies !is_space(#[trigger] e.address[i]) by {
        if i < l.len() {
            assert(e.address[i] == l[i]);
        } else if i > l.len() {
            assert(e.address[i] == d[i - l.len() - 1]);
        }
    }
    assert forall|i: int| 0 <= i < e.address.len() implies !(0x41 <= #[trigger] e.address[i] as u32
        <= 0x5a) by {
        if i < l.len() {
            assert(e.address[i] == l[i]);
            assert(l[i] == lower(trimmed(before)[i]));
        } else if i > l.len() {
            let k = i - l.len() - 1;
            assert(e.address[i] == d[k]);
            assert(d[k] == lower(trim_end_of(trimmed(after), CharClass::Just('.'))[k]));
        }
    }
    assert forall|j: int| 0 <= j < e.domain.len() implies #[trigger] e.domain[j] != '@' by {
        if e.domain[j] == '@' {
            assert(e.domain.contains('@'));
        }
    }
}

/// A local part and a domain with an `@` between them name an address: itself, in lower case.
pub proof fn law_plain_address(local: Seq<char>, domain: Seq<char>)
    requires
        local.len() > 0,
        forall|i: int| 0 <= i < local.len() ==> !is_space(#[trigger] local[i]),
        is_dotted(domain),
        lacks(domain, '@'),
        !is_wrapping(local[0]),
        !is_wrapping(domain.last()),
    ensures
        email_of(local + seq!['@'] + domain) == Some(
            EmailText {
                address: lower_text(local) + seq!['@'] + lower_text(domain),
                domain: lower_text(domain),
            },
        ),
{
    let s = local + seq!['@'] + domain;
    let n = local.len() as int;
    assert(domain.len() > 0);
    assert(!is_space(domain[domain.len() - 1]));
    assert(!is_space(local[0]));
    assert(!is_space(domain[0]));
    assert(!is_space(local[n - 1]));
    assert(s[0] == local[0]);
    assert(s.last() == domain.last());
    lemma_trim_keeps(s, CharClass::Space);
    lemma_trim_keeps(s, CharClass::Wrapping);
    lemma_rfind(s, '@');
    assert(s[n] == '@');
    assert(rfind(s, '@') == Some(n)) by {
        let i = rfind(s, '@')->0;
        if i > n {
            assert(s[i] == domain[i - n - 1]);
        }
    }
    assert(s.take(n) =~= local);
    assert(s.skip(n + 1) =~= domain);
    lemma_trim_keeps(local, CharClass::Space);
    lemma_trim_keeps(domain, CharClass::Space);
    assert(trim_end_of(domain, CharClass::Just('.')) == domain);
    lemma_lower_domain(domain);
    let l = lower_text(local);
    assert forall|i: int| 0 <= i < l.len() implies !is_space(#[trigger] l[i]) by {
        assert(l[i] == lower(local[i]));
    }
}

proof fn lemma_lower_domain(domain: Seq<char>)
    requires
        is_dotted(domain),
    ensures
        is_domain(lower_text(domain)),
{
    let d = lower_text(domain);
    assert forall|i: int| 0 <= i < d.len() implies !is_space(#[trigger] d[i]) by {
        assert(d[i] == lower(domain[i]));
    }
    let k = domain.index_of('.');
    assert(domain[k] == '.');
    assert(d[k] == '.');
    assert(d[0] == lower(domain[0]));
    assert(d.last() == lower(domain.last()));
}

/// White space around an input does not matter, nor do brackets and quotes around that.
pub proof fn law_wrapping_does_not_matter(input: Seq<char>, c: char)
    ensures
        is_space(c) ==> email_of(seq![c] + input) == email_of(input),
        is_space(c) ==> email_of(input + seq![c]) == email_of(input),
        is_trim(input) && is_wrapping(c) ==> email_of(seq![c] + input) == email_of(input),
        is_trim(input) && is_wrapping(c) ==> email_of(input + seq![c]) == email_of(input),
{
    if is_space(c) {
        lemma_trim_front(input, CharClass::Space, c);
        lemma_trim_back(input, CharClass::Space, c);
    }
    if is_trim(input) && is_wrapping(c) {
        lemma_trim_keeps(input, CharClass::Space);
        lemma_trim_keeps(seq![c] + input, CharClass::Space);
        lemma_trim_keeps(input + seq![c], CharClass::Space);
        lemma_trim_front(input, CharClass::Wrapping, c);
        lemma_trim_back(input, CharClass::Wrapping, c);
    }
}

proof fn lemma_trim_front(s: Seq<char>, k: CharClass, c: char)
    requires
        k.has(c),
    ensures
        trim_of(seq![c] + s, k) == trim_of(s, k),
{
    assert((seq![c] + s).drop_first() =~= s);
    assert((seq![c] + s)[0] == c);
}

proof fn lemma_trim_back(s: Seq<char>, k: CharClass, c: char)
    requires
        k.has(c),
    ensures
        trim_of(s + seq![c], k) == trim_of(s, k),
{
    let t = s + seq![c];
    let lo = lemma_trim_start_shape(s, k);
    let low = lemma_trim_start_shape(t, k);
    if lo < s.len() {
        assert(t[lo] == s[lo]);
        assert(low == lo) by {
            if low < lo {
                assert(t[low] == s[low]);
                assert(k.has(s[low]));
            }
            if low > lo {
                assert(k.has(t[lo]));
            }
        }
        assert(t.skip(lo).drop_last() =~= s.skip(lo));
        assert(t.skip(lo).last() == c);
    } else {
        assert(low == t.len()) by {
            if low < s.len() {
                assert(t[low] == s[low]);
                assert(k.has(s[low]));
            } else if low == s.len() {
                assert(t[low] == c);
            }
        }
        assert(t.skip(low) =~= s.skip(lo));
    }
}

/// Dots behind a domain do not belong to it, and neither does white space around it.
pub proof fn law_domain_input(input: Seq<char>, c: char)
    ensures
        is_space(c) ==> domain_of(seq![c] + input) == domain_of(input),
        is_space(c) ==> domain_of(input + seq![c]) == domain_of(input),
        is_trim(input) ==> domain_of(input + seq!['.']) == domain_of(input),
{
    if is_space(c) {
        lemma_trim_front(input, CharClass::Space, c);
        lemma_trim_back(input, CharClass::Space, c);
    }
    let dotted = input + seq!['.'];
    if is_trim(input) {
        lemma_trim_keeps(input, CharClass::Space);
        lemma_trim_keeps(dotted, CharClass::Space);
        assert(dotted.drop_last() =~= input);
        assert(dotted.last() == '.');
    }
}

/// A text with a dot, but not at its ends, and without white space names a domain: itself, in
/// lower case.
pub proof fn law_plain_domain(domain: Seq<char>)
    requires
        is_dotted(domain),
    ensures
        domain_of(domain) == Some(lower_text(domain)),
{
    assert(domain.len() > 0);
    assert(!is_space(domain[0]) && !is_space(domain[domain.len() - 1]));
    lemma_trim_keeps(domain, CharClass::Space);
    assert(trim_end_of(domain, CharClass::Just('.')) == domain);
    lemma_lower_domain(domain);
}

/// What an input names as a domain has a dot, but not at its ends, and no white space.
pub proof fn law_domain_is_dotted(input: Seq<char>)
    requires
        domain_of(input) is Some,
    ensures
        is_dotted(domain_of(input)->0),
        input.contains('.'),
{
    let d = domain_of(input)->0;
    assert forall|i: int| 0 <= i < d.len() implies !is_space(#[trigger] d[i]) by {}
    let t = trimmed(input);
    let u = trim_end_of(t, CharClass::Just('.'));
    let k = d.index_of('.');
    assert(d[k] == '.');
    assert(d[k] == lower(u[k]));
    let end = lemma_trim_end_shape(t, CharClass::Just('.'));
    assert(u[k] == t[k]);
    lemma_trimmed_from(input, CharClass::Space, k);
}

/// An input without an `@` names no address.
pub proof fn law_no_address_without_at(input: Seq<char>)
    requires
        !input.contains('@'),
    ensures
        email_of(input) is None,
{
    let t = trimmed(input);
    let u = unwrapped(input);
    lemma_rfind(u, '@');
    if rfind(u, '@') is Some {
        let i = rfind(u, '@')->0;
        let k = lemma_trimmed_from(t, CharClass::Wrapping, i);
        let j = lemma_trimmed_from(input, CharClass::Space, k);
    }
}

proof fn lemma_trimmed_from(s: Seq<char>, k: CharClass, i: int) -> (j: int)
    requires
        0 <= i < trim_of(s, k).len(),
    ensures
        0 <= j < s.len(),
        s[j] == trim_of(s, k)[i],
        s.contains(s[j]),
{
    let (lo, hi) = lemma_trim_shape(s, k);
    assert(trim_of(s, k)[i] == s[lo + i]);
    lo + i
}

// ---------------------------------------------------------------------------------------
// Kinds
// ---------------------------------------------------------------------------------------

/// Whether an address wants no reply: its local part says so, or its domain is set up for that.
pub open spec fn wants_no_reply(local: Seq<char>, domain: Seq<char>) -> bool {
    ||| local == "no.reply"@
    ||| has_text(local, "noreply"@)
    ||| has_text(local, "no-reply"@)
    ||| has_text(local, "no_reply"@)
    ||| has_text(local, "do-not-reply"@)
    ||| has_text(local, "do_not_reply"@)
    ||| has_text(local, "donotreply"@)
    ||| begins_with(domain, "noreply."@)
    ||| begins_with(domain, "no-reply."@)
    ||| has_text(domain, ".noreply."@)
    ||| has_text(domain, ".no-reply."@)
}

/// Whether a local part is one that a machine sends from, and of which kind.
pub open spec fn sends_as(local: Seq<char>, kind: SenderKind) -> bool {
    match kind {
        SenderKind::Newsletter => local == "newsletter"@ || local == "digest"@ || local
            == "updates"@,
        SenderKind::Promotional => local == "promo"@ || local == "promotions"@ || local
            == "marketing"@ || local == "offers"@ || local == "deals"@,
        SenderKind::Automated => local == "notifications"@ || local == "notification"@ || local
            == "alerts"@ || local == "mailer"@ || local == "bot"@,
        _ => false,
    }
}

proof fn lemma_locals_differ(local: Seq<char>)
    ensures
        sends_as(local, SenderKind::Newsletter) ==> !sends_as(local, SenderKind::Promotional)
            && !sends_as(local, SenderKind::Automated),
        sends_as(local, SenderKind::Promotional) ==> !sends_as(local, SenderKind::Automated),
{
    reveal_strlit("newsletter");
    reveal_strlit("digest");
    reveal_strlit("updates");
    reveal_strlit("promo");
    reveal_strlit("promotions");
    reveal_strlit("marketing");
    reveal_strlit("offers");
    reveal_strlit("deals");
    reveal_strlit("notifications");
    reveal_strlit("notification");
    reveal_strlit("alerts");
    reveal_strlit("mailer");
    reveal_strlit("bot");
    assert("newsletter"@.len() == 10 && "newsletter"@[0] == 'n');
    assert("digest"@.len() == 6 && "digest"@[0] == 'd');
    assert("updates"@.len() == 7 && "updates"@[0] == 'u');
    assert("promo"@.len() == 5 && "promo"@[0] == 'p');
    assert("promotions"@.len() == 10 && "promotions"@[0] == 'p');
    assert("marketing"@.len() == 9 && "marketing"@[0] == 'm');
    assert("offers"@.len() == 6 && "offers"@[0] == 'o');
    assert("deals"@.len() == 5 && "deals"@[0] == 'd');
    assert("notifications"@.len() == 13 && "notifications"@[0] == 'n');
    assert("notification"@.len() == 12 && "notification"@[0] == 'n');
    assert("alerts"@.len() == 6 && "alerts"@[0] == 'a');
    assert("mailer"@.len() == 6 && "mailer"@[0] == 'm');
    assert("bot"@.len() == 3 && "bot"@[0] == 'b');
}

/// Which address is of which kind: what names no address is invalid; what wants no reply wants
/// none, whatever else it says; the names of machines are of their kinds; all others are people,
/// or senders of bulk mail if the headers say so.
pub proof fn law_kind_of_an_address(
    input: Seq<char>,
    headers: Option<Seq<char>>,
    local: Seq<char>,
    rest: Seq<char>,
    kind: SenderKind,
)
    ensures
        email_of(input) is None ==> sender_kind(input, headers) == SenderKind::Invalid,
        email_of(input) matches Some(e) ==> e.address == local + seq!['@'] + rest && lacks(
            local,
            '@',
        ) ==> {
            let said = sender_kind(input, headers);
            let quiet = wants_no_reply(local, e.domain);
            let machine = sends_as(local, SenderKind::Newsletter) || sends_as(
                local,
                SenderKind::Promotional,
            ) || sends_as(local, SenderKind::Automated);
            &&& quiet <==> said == SenderKind::NoReply
            &&& !quiet && sends_as(local, kind) ==> said == kind
            &&& !quiet && !machine && headers is None ==> said == SenderKind::Person
            &&& !quiet && !machine ==> said == SenderKind::Person || said == SenderKind::Bulk
            &&& machine ==> said != SenderKind::Person && said != SenderKind::Bulk
        },
{
    if let Some(e) = email_of(input) {
        if e.address == local + seq!['@'] + rest && lacks(local, '@') {
            lemma_find_at(local, '@', rest);
            assert(mailbox(e.address) == local);
            lemma_locals_differ(local);
        }
    }
}

/// Who would be a person is a sender of bulk mail just when the headers have a mark of bulk mail
/// somewhere, in upper or lower case.
pub proof fn law_bulk_by_headers(
    input: Seq<char>,
    before: Seq<char>,
    mark: Seq<char>,
    after: Seq<char>,
    headers: Seq<char>,
)
    requires
        sender_kind(input, None) == SenderKind::Person,
    ensures
        lower_text(mark) == "precedence: bulk"@ || lower_text(mark) == "list-unsubscribe:"@
            || lower_text(mark) == "x-mailer:"@ ==> sender_kind(input, Some(before + mark + after))
            == SenderKind::Bulk,
        sender_kind(input, Some(headers)) == SenderKind::Bulk || sender_kind(input, Some(headers))
            == SenderKind::Person,
        sender_kind(input, Some(headers)) == SenderKind::Bulk <==> {
            ||| has_text(lower_text(headers), "precedence: bulk"@)
            ||| has_text(lower_text(headers), "list-unsubscribe:"@)
            ||| has_text(lower_text(headers), "x-mailer:"@)
        },
{
    let all = before + mark + after;
    let n = before.len() as int;
    assert(lower_text(all).subrange(n, n + mark.len()) =~= lower_text(mark));
    assert(occurs_at(lower_text(all), lower_text(mark), n));
    assert(has_text(lower_text(all), lower_text(mark)));
}

} // verus!
