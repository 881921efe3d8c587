//! Email and domain normalization.
use vstd::prelude::*;

use crate::text::{
    contains_char, contains_space, has_space, is_space, lemma_rfind, lemma_trim_end_shape,
    lemma_trim_keeps, lemma_trim_shape, lower, lower_text, opt_text, rfind, rsplit_once, split_last,
    to_chars, to_lower, trim, trim_class, trim_end_class, trim_end_of, trim_of, trim_start_of,
    trimmed, CharClass,
};

verus! {

/// A mail address in its normal form, with its domain.
#[derive(Debug, Clone, PartialEq, Eq)]
pub struct NormalizedEmail {
    pub address: String,
    pub domain: String,
}

/// The texts of a normalized address.
pub ghost struct EmailText {
    pub address: Seq<char>,
    pub domain: Seq<char>,
}

impl View for NormalizedEmail {
    type V = EmailText;

    open spec fn view(&self) -> EmailText {
        EmailText { address: self.address@, domain: self.domain@ }
    }
}

/// The texts of an optional normalized address.
pub open spec fn opt_email(v: Option<NormalizedEmail>) -> Option<EmailText> {
    match v {
        Some(e) => Some(e@),
        None => None,
    }
}

/// A domain name: white space nowhere, a dot somewhere, but not at either end.
pub open spec fn is_domain(d: Seq<char>) -> bool {
    &&& d.len() > 0
    &&& !has_space(d)
    &&& d.contains('.')
    &&& d[0] != '.'
    &&& d.last() != '.'
}

/// What is before the `@` of an address: something, without white space.
pub open spec fn is_local(l: Seq<char>) -> bool {
    l.len() > 0 && !has_space(l)
}

/// The domain that an input names: without the space around it and the dots behind it, in
/// lower case; nothing if that is no domain name.
pub open spec fn domain_of(input: Seq<char>) -> Option<Seq<char>> {
    let d = lower_text(trim_end_of(trimmed(input), CharClass::Just('.')));
    if is_domain(d) {
        Some(d)
    } else {
        None
    }
}

/// The address made of what is before and what is after the `@`.
pub open spec fn address_of(local: Seq<char>, domain: Seq<char>) -> Seq<char> {
    local + seq!['@'] + domain
}

/// An input without the space around it, then without the brackets and quotes around that.
pub open spec fn unwrapped(input: Seq<char>) -> Seq<char> {
    trim_of(trimmed(input), CharClass::Wrapping)
}

/// The mail address that an input names: the last `@` parts it into a local part and a domain.
pub open spec fn email_of(input: Seq<char>) -> Option<EmailText> {
    match split_last(unwrapped(input), '@') {
        Some((before, after)) => {
            let local = lower_text(trimmed(before));
            match domain_of(after) {
                Some(domain) if is_local(local) => Some(
                    EmailText { address: address_of(local, domain), domain },
                ),
                _ => None,
            }
        },
        None => None,
    }
}

/// Normalizes a mail address; `None` if the input names none.
pub fn normalize_email(input: &str) -> (r: Option<NormalizedEmail>)
    ensures
        opt_email(r) == email_of(input@),
{
    let inner = trim_class(trim(input), CharClass::Wrapping);
    match rsplit_once(inner, '@') {
        Some((before, after)) => {
            let local = to_lower(trim(before));
            match normalize_domain(after) {
                Some(domain) => {
                    if local.as_str().is_empty() || contains_space(local.as_str()) {
                        return None;
                    }
                    let mut address = local;
                    address.push('@');
                    address.append(domain.as_str());
                    assert(address@ == address_of(local@, domain@));
                    Some(NormalizedEmail { address, domain })
                },
                None => None,
            }
        },
        None => None,
    }
}

/// Normalizes a domain name; `None` if the input names none.
pub fn normalize_domain(input: &str) -> (r: Option<String>)
    ensures
        opt_text(r) == domain_of(input@),
{
    let domain = to_lower(trim_end_class(trim(input), CharClass::Just('.')));
    let chars = to_chars(domain.as_str());
    if chars.len() == 0 || contains_space(domain.as_str()) || !contains_char(domain.as_str(), '.')
        || chars[0] == '.' || chars[chars.len() - 1] == '.' {
        return None;
    }
    Some(domain)
}

// ---------------------------------------------------------------------------------------
// Laws
// ---------------------------------------------------------------------------------------

/// Whether the class cannot tell an ASCII letter's cases apart.
spec fn ignores_case(k: CharClass) -> bool {
    forall|c: char| k.has(#[trigger] lower(c)) == k.has(c)
}

proof fn lemma_lower_trim_start(s: Seq<char>, k: CharClass)
    requires
        ignores_case(k),
    ensures
        trim_start_of(lower_text(s), k) == lower_text(trim_start_of(s, k)),
    decreases s.len(),
{
    if s.len() > 0 {
        assert(lower_text(s)[0] == lower(s[0]));
        if k.has(s[0]) {
            lemma_lower_trim_start(s.drop_first(), k);
            assert(lower_text(s).drop_first() == lower_text(s.drop_first()));
        }
    }
}

proof fn lemma_lower_trim_end(s: Seq<char>, k: CharClass)
    requires
        ignores_case(k),
    ensures
        trim_end_of(lower_text(s), k) == lower_text(trim_end_of(s, k)),
    decreases s.len(),
{
    if s.len() > 0 {
        assert(lower_text(s).last() == lower(s.last()));
        if k.has(s.last()) {
            lemma_lower_trim_end(s.drop_last(), k);
            assert(lower_text(s).drop_last() == lower_text(s.drop_last()));
        }
    }
}

proof fn lemma_lower_trim(s: Seq<char>, k: CharClass)
    requires
        ignores_case(k),
    ensures
        trim_of(lower_text(s), k) == lower_text(trim_of(s, k)),
{
    lemma_lower_trim_start(s, k);
    lemma_lower_trim_end(trim_start_of(s, k), k);
}

proof fn lemma_lower_idempotent(s: Seq<char>)
    ensures
        lower_text(lower_text(s)) == lower_text(s),
{
    assert forall|i: int| 0 <= i < s.len() implies lower_text(lower_text(s))[i] == lower_text(
        s,
    )[i] by {
        assert(lower(lower(s[i])) == lower(s[i]));
    }
    assert(lower_text(lower_text(s)) =~= lower_text(s));
}

proof fn lemma_lower_rfind(s: Seq<char>)
    ensures
        rfind(lower_text(s), '@') == rfind(s, '@'),
    decreases s.len(),
{
    if s.len() > 0 {
        assert(lower_text(s).last() == lower(s.last()));
        lemma_lower_rfind(s.drop_last());
        assert(lower_text(s).drop_last() == lower_text(s.drop_last()));
    }
}

/// A text without white space is not changed by trimming.
pub proof fn lemma_trimmed_keeps(s: Seq<char>)
    requires
        !has_space(s),
    ensures
        trimmed(s) == s,
{
    if s.len() > 0 {
        assert(!is_space(s[0]));
        assert(!is_space(s.last()));
    }
    lemma_trim_keeps(s, CharClass::Space);
}

/// A normalized domain is a domain name in lower case.
pub proof fn law_domain_shape(input: Seq<char>)
    ensures
        domain_of(input) matches Some(d) ==> is_domain(d) && lower_text(d) == d,
{
    lemma_lower_idempotent(trim_end_of(trimmed(input), CharClass::Just('.')));
}

/// Normalizing a normalized domain changes nothing.
pub proof fn law_domain_stable(input: Seq<char>)
    ensures
        domain_of(input) matches Some(d) ==> domain_of(d) == Some(d),
{
    law_domain_shape(input);
    if let Some(d) = domain_of(input) {
        lemma_trimmed_keeps(d);
        lemma_trim_keeps(d, CharClass::Just('.'));
    }
}

/// A normalized address is a local part without white space, an `@` and the normalized
/// domain, which holds no other `@`; the whole of it is in lower case.
pub proof fn law_email_shape(input: Seq<char>) -> (local: Seq<char>)
    ensures
        email_of(input) matches Some(e) ==> {
            &&& is_local(local)
            &&& is_domain(e.domain)
            &&& e.address == address_of(local, e.domain)
            &&& lower_text(local) == local
            &&& lower_text(e.domain) == e.domain
            &&& lower_text(e.address) == e.address
            &&& !e.domain.contains('@')
            &&& !has_space(e.address)
            &&& domain_of(e.domain) == Some(e.domain)
        },
{
    match split_last(unwrapped(input), '@') {
        Some((before, after)) => {
            let local = lower_text(trimmed(before));
            if let Some(domain) = domain_of(after) {
                if is_local(local) {
                    let address = address_of(local, domain);
                    law_domain_shape(after);
                    law_domain_stable(after);
                    lemma_lower_idempotent(trimmed(before));
                    assert(lower_text(address) =~= address) by {
                        assert forall|i: int| 0 <= i < address.len() implies lower_text(address)[i]
                            == address[i] by {
                            if i < local.len() {
                                assert(lower_text(local)[i] == local[i]);
                            } else if i > local.len() {
                                assert(lower_text(domain)[i - local.len() - 1] == domain[i
                                    - local.len() - 1]);
                            }
                        }
                    }
                    assert(!has_space(address)) by {
                        assert forall|i: int| 0 <= i < address.len() implies !is_space(
                            #[trigger] address[i],
                        ) by {
                            if i < local.len() {
                                assert(address[i] == local[i]);
                            } else if i > local.len() {
                                assert(address[i] == domain[i - local.len() - 1]);
                            }
                        }
                    }
                    assert(!domain.contains('@')) by {
                        let u = unwrapped(input);
                        lemma_rfind(u, '@');
                        let cut = lemma_trim_shape(after, CharClass::Space);
                        let t = trimmed(after);
                        let hi = lemma_trim_end_shape(t, CharClass::Just('.'));
                        assert forall|i: int| 0 <= i < domain.len() implies #[trigger] domain[i]
                            != '@' by {
                            assert(domain[i] == lower(t.take(hi)[i]));
                            assert(t[i] == after[cut.0 + i]);
                            let k = rfind(u, '@')->0;
                            assert(after[cut.0 + i] == u[k + 1 + cut.0 + i]);
                        }
                    }
                }
            }
            local
        },
        None => Seq::empty(),
    }
}

/// Whether an address starts or ends with a bracket or a quote.
pub open spec fn is_wrapped(address: Seq<char>) -> bool {
    address.len() > 0 && (CharClass::Wrapping.has(address[0]) || CharClass::Wrapping.has(
        address.last(),
    ))
}

/// Normalizing a normalized address changes nothing, unless the address starts or ends with a
/// bracket or a quote.
pub proof fn law_email_stable(input: Seq<char>)
    requires
        email_of(input) matches Some(e) ==> !is_wrapped(e.address),
    ensures
        email_of(input) matches Some(e) ==> email_of(e.address) == Some(e),
{
    let local = law_email_shape(input);
    if let Some(e) = email_of(input) {
        let a = e.address;
        lemma_trimmed_keeps(a);
        lemma_trim_keeps(a, CharClass::Wrapping);
        lemma_rfind(a, '@');
        let n = local.len() as int;
        assert(a[n] == '@');
        assert forall|j: int| n < j < a.len() implies #[trigger] a[j] != '@' by {
            assert(a[j] == e.domain[j - n - 1]);
        }
        assert(rfind(a, '@') == Some(n));
        assert(a.take(n) == local);
        assert(a.skip(n + 1) == e.domain);
        lemma_trimmed_keeps(local);
    }
}

/// An address that starts or ends with a bracket or a quote is not its own normal form.
pub proof fn law_wrapped_email_unstable(input: Seq<char>)
    requires
        email_of(input) matches Some(e) ==> is_wrapped(e.address),
    ensures
        email_of(input) matches Some(e) ==> email_of(e.address) != Some(e),
{
    let local = law_email_shape(input);
    if let Some(e) = email_of(input) {
        let a = e.address;
        lemma_trimmed_keeps(a);
        let cut = lemma_trim_shape(a, CharClass::Wrapping);
        let u = unwrapped(a);
        assert(u.len() < a.len());
        if let Some((before, after)) = split_last(u, '@') {
            lemma_rfind(u, '@');
            let c1 = lemma_trim_shape(before, CharClass::Space);
            let c2 = lemma_trim_shape(after, CharClass::Space);
            let hi = lemma_trim_end_shape(trimmed(after), CharClass::Just('.'));
            if let Some(f) = email_of(a) {
                assert(f.address.len() <= u.len());
            }
        }
    }
}

/// Upper and lower case of ASCII letters make no difference to the normal form.
pub proof fn law_email_ignores_case(input: Seq<char>)
    ensures
        email_of(lower_text(input)) == email_of(input),
{
    assert(ignores_case(CharClass::Space));
    assert(ignores_case(CharClass::Wrapping));
    assert(ignores_case(CharClass::Just('.')));
    lemma_lower_trim(input, CharClass::Space);
    lemma_lower_trim(trimmed(input), CharClass::Wrapping);
    let u = unwrapped(input);
    lemma_lower_rfind(u);
    lemma_rfind(u, '@');
    if let Some((before, after)) = split_last(u, '@') {
        let k = rfind(u, '@')->0;
        assert(lower_text(u).take(k) == lower_text(before));
        assert(lower_text(u).skip(k + 1) == lower_text(after));
        lemma_lower_trim(before, CharClass::Space);
        lemma_lower_idempotent(trimmed(before));
        lemma_lower_trim(after, CharClass::Space);
        lemma_lower_trim_end(trimmed(after), CharClass::Just('.'));
        lemma_lower_idempotent(trim_end_of(trimmed(after), CharClass::Just('.')));
    }
}

/// An address tells its domain: inputs that name the same address name the same domain.
pub proof fn law_address_tells_domain(x: Seq<char>, y: Seq<char>)
    requires
        email_of(x) matches Some(e) && (email_of(y) matches Some(f) && e.address == f.address),
    ensures
        email_of(x) == email_of(y),
{
    let e = email_of(x)->0;
    let f = email_of(y)->0;
    let a = law_email_shape(x);
    let b = law_email_shape(y);
    let n = a.len() as int;
    let k = b.len() as int;
    assert(e.address[n] == '@');
    assert(f.address[k] == '@');
    if n < k {
        assert(e.domain[k - n - 1] == e.address[k]);
        assert(e.domain.contains('@'));
    } else if k < n {
        assert(f.domain[n - k - 1] == f.address[n]);
        assert(f.domain.contains('@'));
    }
    assert(e.domain =~= e.address.skip(n + 1));
    assert(f.domain =~= f.address.skip(k + 1));
}

} // verus!
