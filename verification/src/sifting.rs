//! What cleaning a list keeps and drops, told by the options and the rows.
use vstd::prelude::*;

use crate::clean::{
    clean_all, clean_result, column_at, column_for, detected, domain_terms, email_names,
    email_terms, field_at, is_column, is_excluded, kept_row, law_kept_once_and_wanted,
    law_wanted_is_kept, name_names, names_address, optional_column_for, unwanted, wanted,
    CleanFault, CleanText, DropReason, DroppedText, Progress, DEFAULT_EMAIL_CONTAINS,
    FREE_MAIL_DOMAINS, ROLE_ACCOUNT_PREFIXES,
};
use crate::normalize::{email_of, law_address_tells_domain, EmailText};
use crate::numbers::unsigned_value;
use crate::pieces::{has_any, lemma_find_at, lemma_split_single, split_on};
use crate::terms::{all_terms, term_of, terms_of};
use crate::text::{
    has_text, is_space, lemma_rfind, lemma_trim_keeps, lower, lower_text, trimmed, CharClass,
};

verus! {

// ---------------------------------------------------------------------------------------
// Terms
// ---------------------------------------------------------------------------------------

/// Whether some list has a term: it stands between commas, in upper or lower case, with or
/// without space around it.
pub open spec fn is_term_in(lists: Seq<Seq<char>>, t: Seq<char>) -> bool {
    t.len() > 0 && exists|i: int, k: int|
        0 <= i < lists.len() && 0 <= k < split_on(lists[i], ',').len() && lower_text(
            trimmed(#[trigger] split_on(lists[i], ',')[k]),
        ) == t
}

proof fn lemma_one_list(list: Seq<char>, t: Seq<char>)
    ensures
        terms_of(list).contains(t) <==> t.len() > 0 && exists|k: int|
            0 <= k < split_on(list, ',').len() && lower_text(
                trimmed(#[trigger] split_on(list, ',')[k]),
            ) == t,
{
    let pieces = split_on(list, ',');
    let all = pieces.map_values(|p: Seq<char>| term_of(p));
    let keep = |p: Seq<char>| p.len() > 0;
    if terms_of(list).contains(t) {
        all.lemma_filter_contains_rev(keep, t);
        let k = choose|k: int| 0 <= k < all.len() && all[k] == t;
        assert(lower_text(trimmed(pieces[k])) == t);
        let j = choose|j: int| 0 <= j < terms_of(list).len() && terms_of(list)[j] == t;
        all.lemma_filter_pred(keep, j);
    }
    if t.len() > 0 && exists|k: int|
        0 <= k < pieces.len() && lower_text(trimmed(#[trigger] pieces[k])) == t {
        let k = choose|k: int| 0 <= k < pieces.len() && lower_text(trimmed(#[trigger] pieces[k]))
            == t;
        assert(all[k] == t);
        assert(keep(all[k]));
        all.lemma_filter_contains(keep, k);
    }
}

/// The terms of some lists are what stands between their commas, in lower case and without the
/// space around it, unless nothing is left.
pub proof fn law_terms_stand_between_commas(lists: Seq<Seq<char>>, t: Seq<char>)
    ensures
        all_terms(lists).contains(t) <==> is_term_in(lists, t),
    decreases lists.len(),
{
    if lists.len() > 0 {
        let d = lists.drop_last();
        let a = all_terms(d);
        let b = terms_of(lists.last());
        law_terms_stand_between_commas(d, t);
        lemma_one_list(lists.last(), t);
        if all_terms(lists).contains(t) {
            let j = choose|j: int| 0 <= j < all_terms(lists).len() && all_terms(lists)[j] == t;
            if j < a.len() {
                assert(a[j] == t);
                assert(a.contains(t));
                let (i, k) = choose|i: int, k: int|
                    0 <= i < d.len() && 0 <= k < split_on(d[i], ',').len() && lower_text(
                        trimmed(#[trigger] split_on(d[i], ',')[k]),
                    ) == t;
                assert(lists[i] == d[i]);
                assert(lower_text(trimmed(split_on(lists[i], ',')[k])) == t);
            } else {
                assert(b[j - a.len()] == t);
                assert(b.contains(t));
                let k = choose|k: int|
                    0 <= k < split_on(lists.last(), ',').len() && lower_text(
                        trimmed(#[trigger] split_on(lists.last(), ',')[k]),
                    ) == t;
                assert(lower_text(trimmed(split_on(lists[lists.len() - 1], ',')[k])) == t);
            }
        }
        if is_term_in(lists, t) {
            let (i, k) = choose|i: int, k: int|
                0 <= i < lists.len() && 0 <= k < split_on(lists[i], ',').len() && lower_text(
                    trimmed(#[trigger] split_on(lists[i], ',')[k]),
                ) == t;
            if i < d.len() {
                assert(d[i] == lists[i]);
                assert(lower_text(trimmed(split_on(d[i], ',')[k])) == t);
                assert(a.contains(t));
                let j = choose|j: int| 0 <= j < a.len() && a[j] == t;
                assert(all_terms(lists)[j] == t);
            } else {
                assert(lower_text(trimmed(split_on(lists.last(), ',')[k])) == t);
                let j = choose|j: int| 0 <= j < b.len() && b[j] == t;
                assert(all_terms(lists)[a.len() + j] == t);
            }
        }
    } else {
        assert(all_terms(lists).len() == 0);
    }
}

/// One term of a list that is written out.
proof fn lemma_term_step(s: Seq<char>, lo: int, hi: int, p: Seq<char>, x: Seq<char>)
    requires
        0 <= lo < hi <= s.len(),
        s.subrange(lo, hi) == p,
        forall|j: int|
            0 <= j < p.len() ==> #[trigger] p[j] != ',' && lower(p[j]) == p[j] && !is_space(p[j]),
        hi < s.len() ==> s[hi] == ',',
    ensures
        terms_of(s.skip(lo)).contains(x) <==> x == p || hi < s.len() && terms_of(
            s.skip(hi + 1),
        ).contains(x),
{
    let rest = s.skip(lo);
    lemma_trim_keeps(p, CharClass::Space);
    assert(lower_text(p) =~= p);
    assert(term_of(p) == p);
    lemma_one_list(rest, x);
    if hi < s.len() {
        let more = s.skip(hi + 1);
        assert(rest =~= p + seq![','] + more);
        lemma_find_at(p, ',', more);
        let a = split_on(rest, ',');
        let b = split_on(more, ',');
        assert(a == seq![p] + b);
        lemma_one_list(more, x);
        assert(a[0] == p);
        assert forall|k: int| 0 <= k < b.len() implies #[trigger] b[k] == a[k + 1] by {}
        if terms_of(rest).contains(x) {
            let k = choose|k: int| 0 <= k < a.len() && lower_text(trimmed(#[trigger] a[k])) == x;
            if k > 0 {
                assert(b[k - 1] == a[k]);
            }
        }
        if terms_of(more).contains(x) {
            let k = choose|k: int| 0 <= k < b.len() && lower_text(trimmed(#[trigger] b[k])) == x;
            assert(lower_text(trimmed(a[k + 1])) == x);
        }
    } else {
        assert(rest =~= p);
        lemma_split_single(p, ',');
        assert(split_on(rest, ',')[0] == p);
    }
}

/// Whether a text is the domain of one of the providers of free mail.
pub open spec fn is_free_mail(t: Seq<char>) -> bool {
    ||| t == "gmail.com"@
    ||| t == "hotmail.com"@
    ||| t == "yahoo.com"@
    ||| t == "outlook.com"@
    ||| t == "icloud.com"@
    ||| t == "aol.com"@
    ||| t == "live.com"@
    ||| t == "me.com"@
    ||| t == "msn.com"@
    ||| t == "googlemail.com"@
    ||| t == "proton.me"@
    ||| t == "protonmail.com"@
    ||| t == "mail.ru"@
    ||| t == "gmx.com"@
    ||| t == "gmx.de"@
    ||| t == "t-online.de"@
}

proof fn lemma_free_mail_terms(x: Seq<char>)
    ensures
        terms_of(FREE_MAIL_DOMAINS@).contains(x) <==> is_free_mail(x),
{
    let s = FREE_MAIL_DOMAINS@;
    reveal_strlit(
        "gmail.com,hotmail.com,yahoo.com,outlook.com,icloud.com,aol.com,live.com,me.com,msn.com,googlemail.com,proton.me,protonmail.com,mail.ru,gmx.com,gmx.de,t-online.de",
    );
    assert(s.skip(0) =~= s);
    assert(terms_of(s.skip(0)).contains(x) <==> x == "gmail.com"@
        || terms_of(s.skip(10)).contains(x)) by {
        reveal_strlit("gmail.com");
        assert(s.subrange(0, 9) =~= "gmail.com"@);
        lemma_term_step(s, 0, 9, "gmail.com"@, x);
    }
    assert(terms_of(s.skip(10)).contains(x) <==> x == "hotmail.com"@
        || terms_of(s.skip(22)).contains(x)) by {
        reveal_strlit("hotmail.com");
        assert(s.subrange(10, 21) =~= "hotmail.com"@);
        lemma_term_step(s, 10, 21, "hotmail.com"@, x);
    }
    assert(terms_of(s.skip(22)).contains(x) <==> x == "yahoo.com"@
        || terms_of(s.skip(32)).contains(x)) by {
        reveal_strlit("yahoo.com");
        assert(s.subrange(22, 31) =~= "yahoo.com"@);
        lemma_term_step(s, 22, 31, "yahoo.com"@, x);
    }
    assert(terms_of(s.skip(32)).contains(x) <==> x == "outlook.com"@
        || terms_of(s.skip(44)).contains(x)) by {
        reveal_strlit("outlook.com");
        assert(s.subrange(32, 43) =~= "outlook.com"@);
        lemma_term_step(s, 32, 43, "outlook.com"@, x);
    }
    assert(terms_of(s.skip(44)).contains(x) <==> x == "icloud.com"@
        || terms_of(s.skip(55)).contains(x)) by {
        reveal_strlit("icloud.com");
        assert(s.subrange(44, 54) =~= "icloud.com"@);
        lemma_term_step(s, 44, 54, "icloud.com"@, x);
    }
    assert(terms_of(s.skip(55)).contains(x) <==> x == "aol.com"@
        || terms_of(s.skip(63)).contains(x)) by {
        reveal_strlit("aol.com");
        assert(s.subrange(55, 62) =~= "aol.com"@);
        lemma_term_step(s, 55, 62, "aol.com"@, x);
    }
    assert(terms_of(s.skip(63)).contains(x) <==> x == "live.com"@
        || terms_of(s.skip(72)).contains(x)) by {
        reveal_strlit("live.com");
        assert(s.subrange(63, 71) =~= "live.com"@);
        lemma_term_step(s, 63, 71, "live.com"@, x);
    }
    assert(terms_of(s.skip(72)).contains(x) <==> x == "me.com"@
        || terms_of(s.skip(79)).contains(x)) by {
        reveal_strlit("me.com");
        assert(s.subrange(72, 78) =~= "me.com"@);
        lemma_term_step(s, 72, 78, "me.com"@, x);
    }
    assert(terms_of(s.skip(79)).contains(x) <==> x == "msn.com"@
        || terms_of(s.skip(87)).contains(x)) by {
        reveal_strlit("msn.com");
        assert(s.subrange(79, 86) =~= "msn.com"@);
        lemma_term_step(s, 79, 86, "msn.com"@, x);
    }
    assert(terms_of(s.skip(87)).contains(x) <==> x == "googlemail.com"@
        || terms_of(s.skip(102)).contains(x)) by {
        reveal_strlit("googlemail.com");
        assert(s.subrange(87, 101) =~= "googlemail.com"@);
        lemma_term_step(s, 87, 101, "googlemail.com"@, x);
    }
    assert(terms_of(s.skip(102)).contains(x) <==> x == "proton.me"@
        || terms_of(s.skip(112)).contains(x)) by {
        reveal_strlit("proton.me");
        assert(s.subrange(102, 111) =~= "proton.me"@);
        lemma_term_step(s, 102, 111, "proton.me"@, x);
    }
    assert(terms_of(s.skip(112)).contains(x) <==> x == "protonmail.com"@
        || terms_of(s.skip(127)).contains(x)) by {
        reveal_strlit("protonmail.com");
        assert(s.subrange(112, 126) =~= "protonmail.com"@);
        lemma_term_step(s, 112, 126, "protonmail.com"@, x);
    }
    assert(terms_of(s.skip(127)).contains(x) <==> x == "mail.ru"@
        || terms_of(s.skip(135)).contains(x)) by {
        reveal_strlit("mail.ru");
        assert(s.subrange(127, 134) =~= "mail.ru"@);
        lemma_term_step(s, 127, 134, "mail.ru"@, x);
    }
    assert(terms_of(s.skip(135)).contains(x) <==> x == "gmx.com"@
        || terms_of(s.skip(143)).contains(x)) by {
        reveal_strlit("gmx.com");
        assert(s.subrange(135, 142) =~= "gmx.com"@);
        lemma_term_step(s, 135, 142, "gmx.com"@, x);
    }
    assert(terms_of(s.skip(143)).contains(x) <==> x == "gmx.de"@
        || terms_of(s.skip(150)).contains(x)) by {
        reveal_strlit("gmx.de");
        assert(s.subrange(143, 149) =~= "gmx.de"@);
        lemma_term_step(s, 143, 149, "gmx.de"@, x);
    }
    assert(terms_of(s.skip(150)).contains(x) <==> x == "t-online.de"@) by {
        reveal_strlit("t-online.de");
        assert(s.subrange(150, 161) =~= "t-online.de"@);
        lemma_term_step(s, 150, 161, "t-online.de"@, x);
    }
}

/// Whether a text is one of the marks of addresses of machines.
pub open spec fn is_machine_mark(t: Seq<char>) -> bool {
    ||| t == "noreply"@
    ||| t == "no-reply"@
    ||| t == "no_reply"@
    ||| t == "do-not-reply"@
    ||| t == "do_not_reply"@
    ||| t == "donotreply"@
    ||| t == "postmaster"@
    ||| t == "mailer-daemon"@
    ||| t == "noresponse"@
    ||| t == "no-replay"@
}

proof fn lemma_machine_mark_terms(x: Seq<char>)
    ensures
        terms_of(DEFAULT_EMAIL_CONTAINS@).contains(x) <==> is_machine_mark(x),
{
    let s = DEFAULT_EMAIL_CONTAINS@;
    reveal_strlit(
        "noreply,no-reply,no_reply,do-not-reply,do_not_reply,donotreply,postmaster,mailer-daemon,noresponse,no-replay",
    );
    assert(s.skip(0) =~= s);
    assert(terms_of(s.skip(0)).contains(x) <==> x == "noreply"@
        || terms_of(s.skip(8)).contains(x)) by {
        reveal_strlit("noreply");
        assert(s.subrange(0, 7) =~= "noreply"@);
        lemma_term_step(s, 0, 7, "noreply"@, x);
    }
    assert(terms_of(s.skip(8)).contains(x) <==> x == "no-reply"@
        || terms_of(s.skip(17)).contains(x)) by {
        reveal_strlit("no-reply");
        assert(s.subrange(8, 16) =~= "no-reply"@);
        lemma_term_step(s, 8, 16, "no-reply"@, x);
    }
    assert(terms_of(s.skip(17)).contains(x) <==> x == "no_reply"@
        || terms_of(s.skip(26)).contains(x)) by {
        reveal_strlit("no_reply");
        assert(s.subrange(17, 25) =~= "no_reply"@);
        lemma_term_step(s, 17, 25, "no_reply"@, x);
    }
    assert(terms_of(s.skip(26)).contains(x) <==> x == "do-not-reply"@
        || terms_of(s.skip(39)).contains(x)) by {
        reveal_strlit("do-not-reply");
        assert(s.subrange(26, 38) =~= "do-not-reply"@);
        lemma_term_step(s, 26, 38, "do-not-reply"@, x);
    }
    assert(terms_of(s.skip(39)).contains(x) <==> x == "do_not_reply"@
        || terms_of(s.skip(52)).contains(x)) by {
        reveal_strlit("do_not_reply");
        assert(s.subrange(39, 51) =~= "do_not_reply"@);
        lemma_term_step(s, 39, 51, "do_not_reply"@, x);
    }
    assert(terms_of(s.skip(52)).contains(x) <==> x == "donotreply"@
        || terms_of(s.skip(63)).contains(x)) by {
        reveal_strlit("donotreply");
        assert(s.subrange(52, 62) =~= "donotreply"@);
        lemma_term_step(s, 52, 62, "donotreply"@, x);
    }
    assert(terms_of(s.skip(63)).contains(x) <==> x == "postmaster"@
        || terms_of(s.skip(74)).contains(x)) by {
        reveal_strlit("postmaster");
        assert(s.subrange(63, 73) =~= "postmaster"@);
        lemma_term_step(s, 63, 73, "postmaster"@, x);
    }
    assert(terms_of(s.skip(74)).contains(x) <==> x == "mailer-daemon"@
        || terms_of(s.skip(88)).contains(x)) by {
        reveal_strlit("mailer-daemon");
        assert(s.subrange(74, 87) =~= "mailer-daemon"@);
        lemma_term_step(s, 74, 87, "mailer-daemon"@, x);
    }
    assert(terms_of(s.skip(88)).contains(x) <==> x == "noresponse"@
        || terms_of(s.skip(99)).contains(x)) by {
        reveal_strlit("noresponse");
        assert(s.subrange(88, 98) =~= "noresponse"@);
        lemma_term_step(s, 88, 98, "noresponse"@, x);
    }
    assert(terms_of(s.skip(99)).contains(x) <==> x == "no-replay"@) by {
        reveal_strlit("no-replay");
        assert(s.subrange(99, 108) =~= "no-replay"@);
        lemma_term_step(s, 99, 108, "no-replay"@, x);
    }
}

/// Whether a text is how the address of a role begins.
pub open spec fn is_role_mark(t: Seq<char>) -> bool {
    ||| t == "support@"@
    ||| t == "info@"@
    ||| t == "admin@"@
    ||| t == "administrator@"@
    ||| t == "contact@"@
    ||| t == "hello@"@
    ||| t == "webmaster@"@
    ||| t == "sales@"@
    ||| t == "office@"@
    ||| t == "feedback@"@
    ||| t == "accounts@"@
    ||| t == "account@"@
    ||| t == "customer@"@
    ||| t == "team@"@
    ||| t == "mail@"@
    ||| t == "help@"@
    ||| t == "security@"@
    ||| t == "reply@"@
    ||| t == "service@"@
    ||| t == "server@"@
    ||| t == "staff@"@
    ||| t == "domainsupport@"@
}

proof fn lemma_role_mark_terms(x: Seq<char>)
    ensures
        terms_of(ROLE_ACCOUNT_PREFIXES@).contains(x) <==> is_role_mark(x),
{
    let s = ROLE_ACCOUNT_PREFIXES@;
    reveal_strlit(
        "support@,info@,admin@,administrator@,contact@,hello@,webmaster@,sales@,office@,feedback@,accounts@,account@,customer@,team@,mail@,help@,security@,reply@,service@,server@,staff@,domainsupport@",
    );
    assert(s.skip(0) =~= s);
    assert(terms_of(s.skip(0)).contains(x) <==> x == "support@"@
        || terms_of(s.skip(9)).contains(x)) by {
        reveal_strlit("support@");
        assert(s.subrange(0, 8) =~= "support@"@);
        lemma_term_step(s, 0, 8, "support@"@, x);
    }
    assert(terms_of(s.skip(9)).contains(x) <==> x == "info@"@
        || terms_of(s.skip(15)).contains(x)) by {
        reveal_strlit("info@");
        assert(s.subrange(9, 14) =~= "info@"@);
        lemma_term_step(s, 9, 14, "info@"@, x);
    }
    assert(terms_of(s.skip(15)).contains(x) <==> x == "admin@"@
        || terms_of(s.skip(22)).contains(x)) by {
        reveal_strlit("admin@");
        assert(s.subrange(15, 21) =~= "admin@"@);
        lemma_term_step(s, 15, 21, "admin@"@, x);
    }
    assert(terms_of(s.skip(22)).contains(x) <==> x == "administrator@"@
        || terms_of(s.skip(37)).contains(x)) by {
        reveal_strlit("administrator@");
        assert(s.subrange(22, 36) =~= "administrator@"@);
        lemma_term_step(s, 22, 36, "administrator@"@, x);
    }
    assert(terms_of(s.skip(37)).contains(x) <==> x == "contact@"@
        || terms_of(s.skip(46)).contains(x)) by {
        reveal_strlit("contact@");
        assert(s.subrange(37, 45) =~= "contact@"@);
        lemma_term_step(s, 37, 45, "contact@"@, x);
    }
    assert(terms_of(s.skip(46)).contains(x) <==> x == "hello@"@
        || terms_of(s.skip(53)).contains(x)) by {
        reveal_strlit("hello@");
        assert(s.subrange(46, 52) =~= "hello@"@);
        lemma_term_step(s, 46, 52, "hello@"@, x);
    }
    assert(terms_of(s.skip(53)).contains(x) <==> x == "webmaster@"@
        || terms_of(s.skip(64)).contains(x)) by {
        reveal_strlit("webmaster@");
        assert(s.subrange(53, 63) =~= "webmaster@"@);
        lemma_term_step(s, 53, 63, "webmaster@"@, x);
    }
    assert(terms_of(s.skip(64)).contains(x) <==> x == "sales@"@
        || terms_of(s.skip(71)).contains(x)) by {
        reveal_strlit("sales@");
        assert(s.subrange(64, 70) =~= "sales@"@);
        lemma_term_step(s, 64, 70, "sales@"@, x);
    }
    assert(terms_of(s.skip(71)).contains(x) <==> x == "office@"@
        || terms_of(s.skip(79)).contains(x)) by {
        reveal_strlit("office@");
        assert(s.subrange(71, 78) =~= "office@"@);
        lemma_term_step(s, 71, 78, "office@"@, x);
    }
    assert(terms_of(s.skip(79)).contains(x) <==> x == "feedback@"@
        || terms_of(s.skip(89)).contains(x)) by {
        reveal_strlit("feedback@");
        assert(s.subrange(79, 88) =~= "feedback@"@);
        lemma_term_step(s, 79, 88, "feedback@"@, x);
    }
    assert(terms_of(s.skip(89)).contains(x) <==> x == "accounts@"@
        || terms_of(s.skip(99)).contains(x)) by {
        reveal_strlit("accounts@");
        assert(s.subrange(89, 98) =~= "accounts@"@);
        lemma_term_step(s, 89, 98, "accounts@"@, x);
    }
    assert(terms_of(s.skip(99)).contains(x) <==> x == "account@"@
        || terms_of(s.skip(108)).contains(x)) by {
        reveal_strlit("account@");
        assert(s.subrange(99, 107) =~= "account@"@);
        lemma_term_step(s, 99, 107, "account@"@, x);
    }
    assert(terms_of(s.skip(108)).contains(x) <==> x == "customer@"@
        || terms_of(s.skip(118)).contains(x)) by {
        reveal_strlit("customer@");
        assert(s.subrange(108, 117) =~= "customer@"@);
        lemma_term_step(s, 108, 117, "customer@"@, x);
    }
    assert(terms_of(s.skip(118)).contains(x) <==> x == "team@"@
        || terms_of(s.skip(124)).contains(x)) by {
        reveal_strlit("team@");
        assert(s.subrange(118, 123) =~= "team@"@);
        lemma_term_step(s, 118, 123, "team@"@, x);
    }
    assert(terms_of(s.skip(124)).contains(x) <==> x == "mail@"@
        || terms_of(s.skip(130)).contains(x)) by {
        reveal_strlit("mail@");
        assert(s.subrange(124, 129) =~= "mail@"@);
        lemma_term_step(s, 124, 129, "mail@"@, x);
    }
    assert(terms_of(s.skip(130)).contains(x) <==> x == "help@"@
        || terms_of(s.skip(136)).contains(x)) by {
        reveal_strlit("help@");
        assert(s.subrange(130, 135) =~= "help@"@);
        lemma_term_step(s, 130, 135, "help@"@, x);
    }
    assert(terms_of(s.skip(136)).contains(x) <==> x == "security@"@
        || terms_of(s.skip(146)).contains(x)) by {
        reveal_strlit("security@");
        assert(s.subrange(136, 145) =~= "security@"@);
        lemma_term_step(s, 136, 145, "security@"@, x);
    }
    assert(terms_of(s.skip(146)).contains(x) <==> x == "reply@"@
        || terms_of(s.skip(153)).contains(x)) by {
        reveal_strlit("reply@");
        assert(s.subrange(146, 152) =~= "reply@"@);
        lemma_term_step(s, 146, 152, "reply@"@, x);
    }
    assert(terms_of(s.skip(153)).contains(x) <==> x == "service@"@
        || terms_of(s.skip(162)).contains(x)) by {
        reveal_strlit("service@");
        assert(s.subrange(153, 161) =~= "service@"@);
        lemma_term_step(s, 153, 161, "service@"@, x);
    }
    assert(terms_of(s.skip(162)).contains(x) <==> x == "server@"@
        || terms_of(s.skip(170)).contains(x)) by {
        reveal_strlit("server@");
        assert(s.subrange(162, 169) =~= "server@"@);
        lemma_term_step(s, 162, 169, "server@"@, x);
    }
    assert(terms_of(s.skip(170)).contains(x) <==> x == "staff@"@
        || terms_of(s.skip(177)).contains(x)) by {
        reveal_strlit("staff@");
        assert(s.subrange(170, 176) =~= "staff@"@);
        lemma_term_step(s, 170, 176, "staff@"@, x);
    }
    assert(terms_of(s.skip(177)).contains(x) <==> x == "domainsupport@"@) by {
        reveal_strlit("domainsupport@");
        assert(s.subrange(177, 191) =~= "domainsupport@"@);
        lemma_term_step(s, 177, 191, "domainsupport@"@, x);
    }
}

// ---------------------------------------------------------------------------------------
// What is dropped
// ---------------------------------------------------------------------------------------

/// Whether the options keep out an address, and why: it is one of those to drop, its domain
/// contains a given term or, unless free mail is kept or the built-in filters are left out, the
/// domain of a provider of free mail, or it contains a given term, a mark of a machine, unless the
/// built-in filters are left out, or the beginning of the address of a role, if those are dropped.
pub open spec fn kept_out(a: CleanText, address: Seq<char>, domain: Seq<char>) -> Option<
    DropReason,
> {
    if exists|t: Seq<char>| #[trigger]
        is_term_in(a.exclude_email, t) && (email_of(t) matches Some(e) && e.address == address) {
        Some(DropReason::Excluded)
    } else if exists|t: Seq<char>| #[trigger]
        has_text(domain, t) && (is_term_in(a.exclude_domain_contains, t) || !a.no_defaults
            && !a.keep_free_mail && is_free_mail(t)) {
        Some(DropReason::DomainPattern)
    } else if exists|t: Seq<char>| #[trigger]
        has_text(address, t) && (is_term_in(a.exclude_email_contains, t) || !a.no_defaults
            && is_machine_mark(t) || a.drop_role_accounts && is_role_mark(t)) {
        Some(DropReason::EmailPattern)
    } else {
        None
    }
}

/// A given domain term is among the terms that a domain must not contain, with and without the
/// built-in filters, and so is the domain of each provider of free mail unless the options keep
/// free mail; no other term is among them.
pub proof fn law_domain_terms(a: CleanText, t: Seq<char>)
    ensures
        all_terms(a.exclude_domain_contains).contains(t) ==> domain_terms(a).contains(t),
        domain_terms(a).contains(t) <==> is_term_in(a.exclude_domain_contains, t) || !a.no_defaults
            && !a.keep_free_mail && is_free_mail(t),
{
    law_terms_stand_between_commas(a.exclude_domain_contains, t);
    lemma_free_mail_terms(t);
    let x = if !a.no_defaults && !a.keep_free_mail {
        terms_of(FREE_MAIL_DOMAINS@)
    } else {
        Seq::empty()
    };
    lemma_contains_cat(x, all_terms(a.exclude_domain_contains), t);
}

/// A given term is among the terms that an address must not contain, with and without the
/// built-in filters; so are the marks of machines unless those filters are left out, and the
/// beginnings of the addresses of roles if those are dropped; no other term is among them.
pub proof fn law_email_terms(a: CleanText, t: Seq<char>)
    ensures
        all_terms(a.exclude_email_contains).contains(t) ==> email_terms(a).contains(t),
        email_terms(a).contains(t) <==> is_term_in(a.exclude_email_contains, t) || !a.no_defaults
            && is_machine_mark(t) || a.drop_role_accounts && is_role_mark(t),
{
    law_terms_stand_between_commas(a.exclude_email_contains, t);
    lemma_machine_mark_terms(t);
    lemma_role_mark_terms(t);
    let x = if !a.no_defaults {
        terms_of(DEFAULT_EMAIL_CONTAINS@)
    } else {
        Seq::empty()
    };
    let y = if a.drop_role_accounts {
        terms_of(ROLE_ACCOUNT_PREFIXES@)
    } else {
        Seq::empty()
    };
    lemma_contains_cat(x, y, t);
    lemma_contains_cat(x + y, all_terms(a.exclude_email_contains), t);
}

proof fn lemma_contains_cat(x: Seq<Seq<char>>, y: Seq<Seq<char>>, t: Seq<char>)
    ensures
        (x + y).contains(t) <==> x.contains(t) || y.contains(t),
{
    if x.contains(t) {
        let i = choose|i: int| 0 <= i < x.len() && x[i] == t;
        assert((x + y)[i] == t);
    }
    if y.contains(t) {
        let i = choose|i: int| 0 <= i < y.len() && y[i] == t;
        assert((x + y)[x.len() + i] == t);
    }
    if (x + y).contains(t) {
        let i = choose|i: int| 0 <= i < (x + y).len() && (x + y)[i] == t;
        if i < x.len() {
            assert(x[i] == t);
        } else {
            assert(y[i - x.len()] == t);
        }
    }
}

pub proof fn lemma_has_one(s: Seq<char>, terms: Seq<Seq<char>>)
    ensures
        has_any(s, terms) <==> exists|t: Seq<char>| #[trigger] has_text(s, t) && terms.contains(t),
{
    if has_any(s, terms) {
        let i = choose|i: int| 0 <= i < terms.len() && has_text(s, #[trigger] terms[i]);
        assert(terms.contains(terms[i]));
    }
    if exists|t: Seq<char>| #[trigger] has_text(s, t) && terms.contains(t) {
        let t = choose|t: Seq<char>| #[trigger] has_text(s, t) && terms.contains(t);
        let i = choose|i: int| 0 <= i < terms.len() && terms[i] == t;
        assert(has_text(s, terms[i]));
    }
}

proof fn lemma_excluded(a: CleanText, address: Seq<char>)
    ensures
        is_excluded(a, address) <==> exists|t: Seq<char>| #[trigger]
            is_term_in(a.exclude_email, t) && (email_of(t) matches Some(e) && e.address == address),
{
    let all = all_terms(a.exclude_email);
    if is_excluded(a, address) {
        let i = choose|i: int| 0 <= i < all.len() && names_address(#[trigger] all[i], address);
        assert(all.contains(all[i]));
        law_terms_stand_between_commas(a.exclude_email, all[i]);
        assert(is_term_in(a.exclude_email, all[i]));
    }
    if exists|t: Seq<char>| #[trigger]
        is_term_in(a.exclude_email, t) && (email_of(t) matches Some(e) && e.address == address) {
        let t = choose|t: Seq<char>| #[trigger]
            is_term_in(a.exclude_email, t) && (email_of(t) matches Some(e) && e.address == address);
        law_terms_stand_between_commas(a.exclude_email, t);
        let i = choose|i: int| 0 <= i < all.len() && all[i] == t;
        assert(names_address(all[i], address));
    }
}

/// What keeps an address out is what the options say, and nothing else.
pub proof fn law_kept_out(a: CleanText, e: EmailText)
    ensures
        unwanted(a, e) == kept_out(a, e.address, e.domain),
{
    lemma_excluded(a, e.address);
    lemma_has_one(e.domain, domain_terms(a));
    lemma_has_one(e.address, email_terms(a));
    assert forall|t: Seq<char>| #[trigger]
        has_text(e.domain, t) && domain_terms(a).contains(t) implies is_term_in(
        a.exclude_domain_contains,
        t,
    ) || !a.no_defaults && !a.keep_free_mail && is_free_mail(t) by {
        law_domain_terms(a, t);
    }
    assert forall|t: Seq<char>| #[trigger]
        has_text(e.domain, t) && (is_term_in(a.exclude_domain_contains, t) || !a.no_defaults
            && !a.keep_free_mail && is_free_mail(t)) implies domain_terms(a).contains(t) by {
        law_domain_terms(a, t);
    }
    assert forall|t: Seq<char>| #[trigger]
        has_text(e.address, t) && email_terms(a).contains(t) implies is_term_in(
        a.exclude_email_contains,
        t,
    ) || !a.no_defaults && is_machine_mark(t) || a.drop_role_accounts && is_role_mark(t) by {
        law_email_terms(a, t);
    }
    assert forall|t: Seq<char>| #[trigger]
        has_text(e.address, t) && (is_term_in(a.exclude_email_contains, t) || !a.no_defaults
            && is_machine_mark(t) || a.drop_role_accounts && is_role_mark(t)) implies email_terms(
        a,
    ).contains(t) by {
        law_email_terms(a, t);
    }
}

/// An address is kept only if the options do not keep it out: neither a given domain term nor,
/// unless the options keep it, the domain of a provider of free mail is in its domain, neither a
/// given term nor a built-in mark is in the address, and it is none of those to drop.
pub proof fn law_kept_is_not_kept_out(
    a: CleanText,
    email: int,
    name: Option<int>,
    rows: Seq<Seq<Seq<char>>>,
    i: int,
    e: EmailText,
    t: Seq<char>,
)
    requires
        rows.len() > 0,
        0 <= i < clean_all(a, email, name, rows).kept.len(),
        exists|raw: Seq<char>| #[trigger] email_of(raw) == Some(e),
        e.address == clean_all(a, email, name, rows).kept[i],
    ensures
        is_term_in(a.exclude_domain_contains, t) ==> !has_text(e.domain, t),
        !a.no_defaults && !a.keep_free_mail && is_free_mail(t) ==> !has_text(e.domain, t),
        is_term_in(a.exclude_email_contains, t) ==> !has_text(e.address, t),
        !a.no_defaults && is_machine_mark(t) ==> !has_text(e.address, t),
        a.drop_role_accounts && is_role_mark(t) ==> !has_text(e.address, t),
        is_term_in(a.exclude_email, t) ==> (email_of(t) matches Some(x) ==> x.address != e.address),
{
    law_kept_once_and_wanted(a, email, name, rows);
    let kept = clean_all(a, email, name, rows).kept;
    let j = choose|j: int| 1 <= j < rows.len() && wanted(a, email, #[trigger] rows[j], kept[i]);
    let f = email_of(field_at(rows[j], email))->0;
    let raw = choose|raw: Seq<char>| #[trigger] email_of(raw) == Some(e);
    law_address_tells_domain(raw, field_at(rows[j], email));
    assert(f == e);
    law_kept_out(a, e);
}

/// An address of a row that the options do not keep out is kept.
pub proof fn law_not_kept_out_is_kept(
    a: CleanText,
    email: int,
    name: Option<int>,
    rows: Seq<Seq<Seq<char>>>,
    j: int,
)
    requires
        1 <= j < rows.len(),
        email_of(field_at(rows[j], email)) matches Some(e) && kept_out(a, e.address, e.domain)
            is None,
    ensures
        clean_all(a, email, name, rows).kept.contains((email_of(field_at(rows[j], email))->0).address),
{
    let e = email_of(field_at(rows[j], email))->0;
    law_kept_out(a, e);
    law_wanted_is_kept(a, email, name, rows, j, e.address);
}

// ---------------------------------------------------------------------------------------
// Row by row
// ---------------------------------------------------------------------------------------

/// One more row at the end changes nothing of what came of the rows above it. It is counted once:
/// as invalid if it has no address, as filtered if its address is kept out, as a duplicate if its
/// address is kept already, and else it is kept, with the address in its normal form. What is
/// dropped is told with its line, counted from the header as the first, and the reason.
pub proof fn law_one_more_row(
    a: CleanText,
    email: int,
    name: Option<int>,
    rows: Seq<Seq<Seq<char>>>,
    row: Seq<Seq<char>>,
)
    requires
        rows.len() > 0,
        0 <= email,
    ensures
        ({
            let p = clean_all(a, email, name, rows);
            let q = clean_all(a, email, name, rows.push(row));
            let line = rows.len() as int + 1;
            let raw = if email < row.len() {
                row[email]
            } else {
                Seq::empty()
            };
            let e = email_of(raw);
            &&& q.input == p.input + 1
            &&& e is None ==> {
                &&& q.invalid == p.invalid + 1
                &&& q.dropped == p.dropped.push(
                    (DroppedText { line, email: raw, reason: DropReason::Invalid }),
                )
                &&& q.filtered == p.filtered && q.duplicates == p.duplicates
                &&& q.kept == p.kept && q.rows == p.rows
            }
            &&& e matches Some(e) ==> {
                let why = kept_out(a, e.address, e.domain);
                &&& q.invalid == p.invalid
                &&& why matches Some(reason) ==> {
                    &&& q.filtered == p.filtered + 1
                    &&& q.dropped
                        == p.dropped.push((DroppedText { line, email: e.address, reason }))
                    &&& q.duplicates == p.duplicates
                    &&& q.kept == p.kept && q.rows == p.rows
                }
                &&& why is None && p.kept.contains(e.address) ==> {
                    &&& q.duplicates == p.duplicates + 1
                    &&& q.dropped == p.dropped.push(
                        (DroppedText { line, email: e.address, reason: DropReason::Duplicate }),
                    )
                    &&& q.filtered == p.filtered
                    &&& q.kept == p.kept && q.rows == p.rows
                }
                &&& why is None && !p.kept.contains(e.address) ==> {
                    &&& q.kept == p.kept.push(e.address)
                    &&& q.dropped == p.dropped
                    &&& q.filtered == p.filtered && q.duplicates == p.duplicates
                    &&& q.rows.drop_last() == p.rows
                    &&& q.rows.len() == p.rows.len() + 1
                    &&& a.email_name_only ==> q.rows.last().len() == 2 && q.rows.last()[0]
                        == e.address
                    &&& a.email_name_only && name is None ==> q.rows.last()[1].len() == 0
                    &&& a.email_name_only ==> (name matches Some(n) ==> 0 <= n < row.len()
                        ==> q.rows.last()[1] == trimmed(row[n]))
                    &&& !a.email_name_only ==> q.rows.last().len() == row.len()
                        && q.rows.last()[email] == e.address && forall|k: int|
                        0 <= k < row.len() && k != email ==> #[trigger] q.rows.last()[k] == row[k]
                }
            }
        }),
{
    let p = clean_all(a, email, name, rows);
    let q = clean_all(a, email, name, rows.push(row));
    assert(rows.push(row).drop_last() =~= rows);
    let raw = field_at(row, email);
    if let Some(e) = email_of(raw) {
        law_kept_out(a, e);
        if row.len() <= email {
            lemma_trim_keeps(raw, CharClass::Space);
            lemma_trim_keeps(raw, CharClass::Wrapping);
            lemma_rfind(raw, '@');
        }
        assert(p.rows.push(kept_row(a, email, name, row, e.address)).drop_last() =~= p.rows);
    }
}

/// Before the first row nothing is kept or dropped; the header is written as it is, or names the
/// two columns that are written.
pub proof fn law_header_is_written(
    a: CleanText,
    email: int,
    name: Option<int>,
    rows: Seq<Seq<Seq<char>>>,
)
    requires
        rows.len() > 0,
    ensures
        ({
            let p = clean_all(a, email, name, rows);
            &&& p.rows.len() > 0
            &&& p.rows[0] == if a.email_name_only {
                seq!["email"@, "name"@]
            } else {
                rows[0]
            }
            &&& rows.len() == 1 ==> p.input == 0 && p.duplicates == 0 && p.invalid == 0
                && p.filtered == 0 && p.kept.len() == 0 && p.dropped.len() == 0
        }),
    decreases rows.len(),
{
    if rows.len() > 1 {
        law_header_is_written(a, email, name, rows.drop_last());
        assert(rows.drop_last()[0] == rows[0]);
    }
}

// ---------------------------------------------------------------------------------------
// Columns
// ---------------------------------------------------------------------------------------

/// Whether a column has a name, in upper or lower case.
pub open spec fn is_named(header: Seq<Seq<char>>, i: int, name: Seq<char>) -> bool {
    0 <= i < header.len() && lower_text(trimmed(header[i])) == lower_text(name)
}

/// Whether a column is the first one with a name.
pub open spec fn is_first_named(header: Seq<Seq<char>>, i: int, name: Seq<char>) -> bool {
    is_named(header, i, name) && forall|j: int| 0 <= j < i ==> !#[trigger] is_named(header, j, name)
}

/// Whether a column is the one that is meant: the one with the number, counted from one, or the
/// first with the name that is asked for; if none is asked for, the first with the first of the
/// usual names that there is a column for.
pub open spec fn is_meant(
    header: Seq<Seq<char>>,
    asked: Option<Seq<char>>,
    usual: Seq<Seq<char>>,
    i: int,
) -> bool {
    match asked {
        Some(v) => match unsigned_value(v, usize::MAX as nat) {
            Some(n) => 0 <= i < header.len() && (i + 1 == n || i == 0 && n == 0),
            None => is_first_named(header, i, trimmed(v)),
        },
        None => exists|c: int|
            0 <= c < usual.len() && is_first_named(header, i, #[trigger] usual[c]) && forall|
                d: int,
                j: int,
            |
                0 <= d < c ==> !#[trigger] is_named(header, j, usual[d]),
    }
}

/// Whether no column is meant.
pub open spec fn none_is_meant(
    header: Seq<Seq<char>>,
    asked: Option<Seq<char>>,
    usual: Seq<Seq<char>>,
) -> bool {
    match asked {
        Some(v) => match unsigned_value(v, usize::MAX as nat) {
            Some(n) => if n == 0 {
                header.len() == 0
            } else {
                n > header.len()
            },
            None => forall|j: int| !#[trigger] is_named(header, j, trimmed(v)),
        },
        None => forall|d: int, j: int|
            0 <= d < usual.len() ==> !#[trigger] is_named(header, j, usual[d]),
    }
}

proof fn lemma_column_at(header: Seq<Seq<char>>, name: Seq<char>)
    ensures
        match column_at(header, name) {
            Some(i) => is_first_named(header, i, name),
            None => forall|j: int| !#[trigger] is_named(header, j, name),
        },
    decreases header.len(),
{
    if header.len() > 0 {
        let d = header.drop_last();
        lemma_column_at(d, name);
        assert forall|j: int| 0 <= j < d.len() implies is_named(header, j, name) == #[trigger]
            is_named(d, j, name) by {
            assert(d[j] == header[j]);
        }
        match column_at(d, name) {
            Some(i) => {
                assert(is_named(header, i, name));
                assert forall|j: int| 0 <= j < i implies !#[trigger] is_named(header, j, name) by {
                    assert(!is_named(d, j, name));
                }
            },
            None => {
                assert forall|j: int| 0 <= j < d.len() implies !#[trigger] is_named(
                    header,
                    j,
                    name,
                ) by {
                    assert(!is_named(d, j, name));
                }
                if is_column(header.last(), name) {
                    assert(is_named(header, header.len() - 1, name));
                }
            },
        }
    }
}

proof fn lemma_detected(header: Seq<Seq<char>>, usual: Seq<Seq<char>>)
    ensures
        match detected(header, usual) {
            Some(i) => is_meant(header, None, usual, i),
            None => none_is_meant(header, None, usual),
        },
    decreases usual.len(),
{
    if usual.len() > 0 {
        let d = usual.drop_last();
        let last = usual.last();
        let n = usual.len() - 1;
        lemma_detected(header, d);
        lemma_column_at(header, last);
        match detected(header, d) {
            Some(i) => {
                let c = choose|c: int|
                    0 <= c < d.len() && is_first_named(header, i, #[trigger] d[c]) && forall|
                        x: int,
                        j: int,
                    |
                        0 <= x < c ==> !#[trigger] is_named(header, j, d[x]);
                assert(usual[c] == d[c]);
                assert forall|x: int, j: int| 0 <= x < c implies !#[trigger] is_named(
                    header,
                    j,
                    usual[x],
                ) by {
                    assert(d[x] == usual[x]);
                    assert(!is_named(header, j, d[x]));
                }
                assert(is_first_named(header, i, usual[c]));
            },
            None => {
                assert forall|x: int, j: int| 0 <= x < n implies !#[trigger] is_named(
                    header,
                    j,
                    usual[x],
                ) by {
                    assert(d[x] == usual[x]);
                    assert(!is_named(header, j, d[x]));
                }
                if let Some(i) = column_at(header, last) {
                    assert(is_first_named(header, i, usual[n]));
                }
            },
        }
    }
}

proof fn lemma_meant_once(
    header: Seq<Seq<char>>,
    asked: Option<Seq<char>>,
    usual: Seq<Seq<char>>,
    i: int,
    j: int,
)
    requires
        is_meant(header, asked, usual, i),
        is_meant(header, asked, usual, j),
    ensures
        i == j,
        !none_is_meant(header, asked, usual),
{
    match asked {
        Some(v) => {
            if unsigned_value(v, usize::MAX as nat) is None {
                assert(is_named(header, i, trimmed(v)));
                assert(is_named(header, j, trimmed(v)));
            }
        },
        None => {
            let c = choose|c: int|
                0 <= c < usual.len() && is_first_named(header, i, #[trigger] usual[c]) && forall|
                    d: int,
                    k: int,
                |
                    0 <= d < c ==> !#[trigger] is_named(header, k, usual[d]);
            let b = choose|b: int|
                0 <= b < usual.len() && is_first_named(header, j, #[trigger] usual[b]) && forall|
                    d: int,
                    k: int,
                |
                    0 <= d < b ==> !#[trigger] is_named(header, k, usual[d]);
            assert(is_named(header, i, usual[c]));
            assert(is_named(header, j, usual[b]));
            assert(c == b);
        },
    }
}

/// The usual names of the column with the addresses.
pub open spec fn usual_email_columns() -> Seq<Seq<char>> {
    seq!["email"@, "e-mail"@, "email_address"@, "email address"@, "address"@]
}

/// The usual names of the column with the names.
pub open spec fn usual_name_columns() -> Seq<Seq<char>> {
    seq!["name"@, "display_name"@, "display name"@, "full_name"@, "full name"@]
}

/// A list is cleaned by the column that is meant for the addresses and the one that is meant for
/// the names, if there is one; without a column for the addresses, or without the column that is
/// asked for the names, it is not cleaned, and neither is a list without a line.
pub proof fn law_columns_are_found(a: CleanText, rows: Seq<Seq<Seq<char>>>, i: int, j: int)
    ensures
        rows.len() == 0 ==> clean_result(a, rows) == Err::<Progress, CleanFault>(CleanFault::Empty),
        rows.len() > 0 && is_meant(rows[0], a.email_column, usual_email_columns(), i) ==> {
            &&& is_meant(rows[0], a.name_column, usual_name_columns(), j) ==> clean_result(a, rows)
                == Ok::<Progress, CleanFault>(clean_all(a, i, Some(j), rows))
            &&& none_is_meant(rows[0], None, usual_name_columns()) && a.name_column is None
                ==> clean_result(a, rows) == Ok::<Progress, CleanFault>(
                clean_all(a, i, None, rows),
            )
            &&& a.name_column is Some && none_is_meant(
                rows[0],
                a.name_column,
                usual_name_columns(),
            ) ==> clean_result(a, rows) is Err
        },
        rows.len() > 0 && none_is_meant(rows[0], a.email_column, usual_email_columns()) ==> {
            &&& a.email_column is None ==> clean_result(a, rows) == Err::<Progress, CleanFault>(
                CleanFault::NotDetected(usual_email_columns()),
            )
            &&& a.email_column matches Some(v) ==> clean_result(a, rows) == Err::<
                Progress,
                CleanFault,
            >(
                if unsigned_value(v, usize::MAX as nat) is Some {
                    CleanFault::OutOfRange(v)
                } else {
                    CleanFault::NotFound(v)
                },
            )
        },
{
    if rows.len() > 0 {
        let h = rows[0];
        lemma_column_for(h, a.email_column, usual_email_columns(), i);
        lemma_column_for(h, a.name_column, usual_name_columns(), j);
        assert(email_names() == usual_email_columns());
        assert(name_names() == usual_name_columns());
    }
}

proof fn lemma_column_for(
    header: Seq<Seq<char>>,
    asked: Option<Seq<char>>,
    usual: Seq<Seq<char>>,
    i: int,
)
    ensures
        is_meant(header, asked, usual, i) ==> column_for(header, asked, usual) == Ok::<
            int,
            CleanFault,
        >(i) && optional_column_for(header, asked, usual) == Ok::<Option<int>, CleanFault>(Some(i)),
        none_is_meant(header, asked, usual) ==> {
            &&& asked is None ==> column_for(header, asked, usual) == Err::<int, CleanFault>(
                CleanFault::NotDetected(usual),
            )
            &&& asked is None ==> optional_column_for(header, asked, usual) == Ok::<
                Option<int>,
                CleanFault,
            >(None)
            &&& asked matches Some(v) ==> optional_column_for(header, asked, usual) is Err
                && column_for(header, asked, usual) == Err::<int, CleanFault>(
                if unsigned_value(v, usize::MAX as nat) is Some {
                    CleanFault::OutOfRange(v)
                } else {
                    CleanFault::NotFound(v)
                },
            )
        },
{
    match asked {
        Some(v) => {
            lemma_column_at(header, trimmed(v));
            if unsigned_value(v, usize::MAX as nat) is None {
                if let Some(k) = column_at(header, trimmed(v)) {
                    assert(is_named(header, k, trimmed(v)));
                    if is_meant(header, asked, usual, i) {
                        lemma_meant_once(header, asked, usual, i, k);
                    }
                }
            }
        },
        None => {
            lemma_detected(header, usual);
            if let Some(k) = detected(header, usual) {
                lemma_meant_once(header, asked, usual, k, k);
                if is_meant(header, asked, usual, i) {
                    lemma_meant_once(header, asked, usual, i, k);
                }
            } else if is_meant(header, asked, usual, i) {
                lemma_meant_once(header, asked, usual, i, i);
            }
        },
    }
}

} // verus!
