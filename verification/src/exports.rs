//! What reading an exported message gives, told by the lines of its files.
use vstd::prelude::*;

use crate::archive::{
    close_recipient, no_recipients, pff_message, recipient_line, recipient_lines, recipients_of,
    rfc822_message, AddressText, PffTexts, RecipientState,
};
use crate::headers::{key_value_line, key_value_lines, key_values_of, value_of, FieldTexts};
use crate::numbers::signed_value;
use crate::pieces::lines_of;
use crate::reading::{lemma_lines_cat, lemma_value_of_other, whole_lines};
use crate::text::{lower_text, split_first, trimmed, upper_text};

verus! {

// ---------------------------------------------------------------------------------------
// Recipient files
// ---------------------------------------------------------------------------------------

/// Whether a line of a recipient file gives a value for a key: in lower case and without the space
/// around it, what stands before the first colon is the key.
pub open spec fn gives(line: Seq<char>, key: Seq<char>) -> bool {
    split_first(trimmed(line), ':') matches Some((name, _)) && lower_text(trimmed(name)) == key
}

/// The value that a line gives.
pub open spec fn given(line: Seq<char>) -> Seq<char> {
    trimmed((split_first(trimmed(line), ':')->0).1)
}

/// Whether a text is the text of one entry: none of its lines is blank.
pub open spec fn is_entry(text: Seq<char>) -> bool {
    forall|i: int| 0 <= i < lines_of(text).len() ==> trimmed(#[trigger] lines_of(text)[i]).len() > 0
}

/// Whether the last line of an entry that gives a value for a key gives this one; `None` stands
/// for an entry without such a line.
pub open spec fn entry_gives(text: Seq<char>, key: Seq<char>, value: Option<Seq<char>>) -> bool {
    match value {
        Some(v) => exists|i: int|
            0 <= i < lines_of(text).len() && gives(#[trigger] lines_of(text)[i], key) && given(
                lines_of(text)[i],
            ) == v && forall|j: int|
                i < j < lines_of(text).len() ==> !gives(#[trigger] lines_of(text)[j], key),
        None => forall|i: int|
            0 <= i < lines_of(text).len() ==> !gives(#[trigger] lines_of(text)[i], key),
    }
}

/// Whether the internet headers of an exported message name no recipient.
pub open spec fn no_recipient_in_headers(files: PffTexts) -> bool {
    let m = rfc822_message(files.source, files.folder, files.internet_headers, 0);
    m.to.len() == 0 && m.cc.len() == 0 && m.bcc.len() == 0
}

/// What the lines of an entry say, key by key.
spec fn reads_as(st: RecipientState, lines: Seq<Seq<char>>, key: Seq<char>) -> Option<Seq<char>>
    decreases lines.len(),
{
    if lines.len() == 0 {
        if key == "display name"@ {
            st.name
        } else if key == "email address"@ {
            st.email
        } else {
            st.kind
        }
    } else if gives(lines.last(), key) {
        if key == "recipient type"@ {
            Some(upper_text(given(lines.last())))
        } else {
            Some(given(lines.last()))
        }
    } else {
        reads_as(st, lines.drop_last(), key)
    }
}

proof fn lemma_keys_differ()
    ensures
        "display name"@ != "email address"@,
        "display name"@ != "recipient type"@,
        "email address"@ != "recipient type"@,
        "CC"@ != "BCC"@,
{
    reveal_strlit("display name");
    reveal_strlit("email address");
    reveal_strlit("recipient type");
    reveal_strlit("CC");
    reveal_strlit("BCC");
    assert("display name"@.len() == 12);
    assert("email address"@.len() == 13);
    assert("recipient type"@.len() == 14);
    assert("CC"@.len() == 2);
    assert("BCC"@.len() == 3);
}

proof fn lemma_recipient_cat(st: RecipientState, a: Seq<Seq<char>>, b: Seq<Seq<char>>)
    ensures
        recipient_lines(st, a + b) == recipient_lines(recipient_lines(st, a), b),
    decreases a.len(),
{
    if a.len() == 0 {
        assert(a + b =~= b);
    } else {
        assert((a + b)[0] == a[0]);
        assert((a + b).drop_first() =~= a.drop_first() + b);
        lemma_recipient_cat(recipient_line(st, a[0]), a.drop_first(), b);
    }
}

proof fn lemma_entry_lines(st: RecipientState, lines: Seq<Seq<char>>)
    requires
        forall|i: int| 0 <= i < lines.len() ==> trimmed(#[trigger] lines[i]).len() > 0,
    ensures
        recipient_lines(st, lines) == (RecipientState {
            name: reads_as(st, lines, "display name"@),
            email: reads_as(st, lines, "email address"@),
            kind: reads_as(st, lines, "recipient type"@),
            ..st
        }),
    decreases lines.len(),
{
    lemma_keys_differ();
    if lines.len() > 0 {
        let d = lines.drop_last();
        let last = lines.last();
        assert forall|i: int| 0 <= i < d.len() implies trimmed(#[trigger] d[i]).len() > 0 by {
            assert(d[i] == lines[i]);
        }
        assert(trimmed(lines[lines.len() - 1]).len() > 0);
        lemma_entry_lines(st, d);
        assert(lines =~= d + seq![last]);
        lemma_recipient_cat(st, d, seq![last]);
        let mid = recipient_lines(st, d);
        assert(seq![last][0] == last);
        assert(seq![last].drop_first() =~= Seq::<Seq<char>>::empty());
        assert(recipient_lines(recipient_line(mid, last), Seq::<Seq<char>>::empty())
            == recipient_line(mid, last));
        assert(recipient_lines(mid, seq![last]) == recipient_line(mid, last));
    }
}

proof fn lemma_reads_as(lines: Seq<Seq<char>>, key: Seq<char>, i: int)
    requires
        0 <= i < lines.len(),
        gives(lines[i], key),
        forall|j: int| i < j < lines.len() ==> !gives(#[trigger] lines[j], key),
    ensures
        reads_as(no_recipients(), lines, key) == Some(
            if key == "recipient type"@ {
                upper_text(given(lines[i]))
            } else {
                given(lines[i])
            },
        ),
    decreases lines.len(),
{
    if i < lines.len() - 1 {
        assert(!gives(lines[lines.len() - 1], key));
        let d = lines.drop_last();
        assert forall|j: int| i < j < d.len() implies !gives(#[trigger] d[j], key) by {
            assert(d[j] == lines[j]);
        }
        lemma_reads_as(d, key, i);
    }
}

proof fn lemma_reads_nothing(lines: Seq<Seq<char>>, key: Seq<char>)
    requires
        forall|j: int| 0 <= j < lines.len() ==> !gives(#[trigger] lines[j], key),
    ensures
        reads_as(no_recipients(), lines, key) is None,
    decreases lines.len(),
{
    if lines.len() > 0 {
        assert(!gives(lines[lines.len() - 1], key));
        let d = lines.drop_last();
        assert forall|j: int| 0 <= j < d.len() implies !gives(#[trigger] d[j], key) by {
            assert(d[j] == lines[j]);
        }
        lemma_reads_nothing(d, key);
    }
}

proof fn lemma_entry_gives(text: Seq<char>, key: Seq<char>, value: Option<Seq<char>>)
    requires
        entry_gives(text, key, value),
    ensures
        reads_as(no_recipients(), lines_of(text), key) == match value {
            Some(v) => if key == "recipient type"@ {
                Some(upper_text(v))
            } else {
                Some(v)
            },
            None => None,
        },
{
    let lines = lines_of(text);
    match value {
        Some(v) => {
            let i = choose|i: int|
                0 <= i < lines.len() && gives(#[trigger] lines[i], key) && given(lines[i]) == v
                    && forall|j: int| i < j < lines.len() ==> !gives(#[trigger] lines[j], key);
            lemma_reads_as(lines, key, i);
        },
        None => {
            lemma_reads_nothing(lines, key);
        },
    }
}

/// One entry of a recipient file, where the headers name no recipient, is one recipient of the
/// message if it gives an address: under `CC` in `cc`, under `BCC` in `bcc`, in upper or lower
/// case, and else in `to`, with the name that it gives; an entry without an address is none.
pub proof fn law_entry_is_a_recipient(
    files: PffTexts,
    name: Option<Seq<char>>,
    email: Option<Seq<char>>,
    kind: Option<Seq<char>>,
)
    requires
        no_recipient_in_headers(files),
        is_entry(files.recipients),
        entry_gives(files.recipients, "display name"@, name),
        entry_gives(files.recipients, "email address"@, email),
        entry_gives(files.recipients, "recipient type"@, kind),
    ensures
        ({
            let m = pff_message(files);
            let none = Seq::<AddressText>::empty();
            let copy = kind matches Some(k) && upper_text(k) == "CC"@;
            let blind = kind matches Some(k) && upper_text(k) == "BCC"@;
            &&& email is None ==> m.to == none && m.cc == none && m.bcc == none
            &&& email matches Some(e) ==> {
                let one = seq![AddressText { name, email: e }];
                &&& copy ==> m.cc == one && m.to == none && m.bcc == none
                &&& blind ==> m.bcc == one && m.to == none && m.cc == none
                &&& !copy && !blind ==> m.to == one && m.cc == none && m.bcc == none
            }
        }),
{
    lemma_keys_differ();
    let text = files.recipients;
    lemma_entry_lines(no_recipients(), lines_of(text));
    lemma_entry_gives(text, "display name"@, name);
    lemma_entry_gives(text, "email address"@, email);
    lemma_entry_gives(text, "recipient type"@, kind);
    let none = Seq::<AddressText>::empty();
    if let Some(e) = email {
        let a = AddressText { name, email: e };
        assert(none.push(a) =~= seq![a]);
    }
}

/// A blank line ends an entry: where the headers name no recipient, the recipients of two pieces
/// of a recipient file with a blank line between them are those of the first piece and then those
/// of the second, list by list.
pub proof fn law_entries_add_up(files: PffTexts, a: Seq<char>, blank: Seq<char>, b: Seq<char>)
    requires
        no_recipient_in_headers(files),
        whole_lines(a),
        whole_lines(blank),
        lines_of(blank).len() == 1,
        trimmed(lines_of(blank)[0]).len() == 0,
        files.recipients == a + blank + b,
    ensures
        ({
            let m = pff_message(files);
            let x = pff_message(PffTexts { recipients: a, ..files });
            let y = pff_message(PffTexts { recipients: b, ..files });
            &&& m.to == x.to + y.to
            &&& m.cc == x.cc + y.cc
            &&& m.bcc == x.bcc + y.bcc
        }),
{
    let first = lines_of(a);
    let line = lines_of(blank)[0];
    let second = lines_of(b);
    lemma_lines_cat(a, blank);
    if blank.len() > 0 {
        assert((a + blank).last() == '\n');
    }
    lemma_lines_cat(a + blank, b);
    assert(lines_of(blank) =~= seq![line]);
    lemma_recipient_cat(no_recipients(), first + seq![line], second);
    lemma_recipient_cat(no_recipients(), first, seq![line]);
    let st = recipient_lines(no_recipients(), first);
    assert(seq![line][0] == line);
    assert(seq![line].drop_first() =~= Seq::<Seq<char>>::empty());
    let mid = close_recipient(st);
    assert(recipient_lines(mid, Seq::<Seq<char>>::empty()) == mid);
    assert(recipient_lines(st, seq![line]) == mid);
    lemma_after_closed(mid, second);
}

/// Lists one after the other.
spec fn onto(base: RecipientState, st: RecipientState) -> RecipientState {
    RecipientState {
        to: base.to + st.to,
        cc: base.cc + st.cc,
        bcc: base.bcc + st.bcc,
        ..st
    }
}

proof fn lemma_after_closed(base: RecipientState, lines: Seq<Seq<char>>)
    requires
        base.name is None,
        base.email is None,
        base.kind is None,
    ensures
        ({
            let u = close_recipient(recipient_lines(base, lines));
            let v = close_recipient(recipient_lines(no_recipients(), lines));
            u.to == base.to + v.to && u.cc == base.cc + v.cc && u.bcc == base.bcc + v.bcc
        }),
{
    let st = no_recipients();
    assert(base.to + st.to =~= base.to);
    assert(base.cc + st.cc =~= base.cc);
    assert(base.bcc + st.bcc =~= base.bcc);
    assert(base == onto(base, st));
    lemma_onto(base, st, lines);
    lemma_close_onto(base, recipient_lines(st, lines));
}

proof fn lemma_close_onto(base: RecipientState, st: RecipientState)
    ensures
        close_recipient(onto(base, st)) == onto(base, close_recipient(st)),
{
    if let Some(email) = st.email {
        let a = AddressText { name: st.name, email };
        assert((base.to + st.to).push(a) =~= base.to + st.to.push(a));
        assert((base.cc + st.cc).push(a) =~= base.cc + st.cc.push(a));
        assert((base.bcc + st.bcc).push(a) =~= base.bcc + st.bcc.push(a));
    }
}

proof fn lemma_onto(base: RecipientState, st: RecipientState, lines: Seq<Seq<char>>)
    ensures
        recipient_lines(onto(base, st), lines) == onto(base, recipient_lines(st, lines)),
    decreases lines.len(),
{
    if lines.len() > 0 {
        lemma_close_onto(base, st);
        assert(recipient_line(onto(base, st), lines[0])
            == onto(base, recipient_line(st, lines[0])));
        lemma_onto(base, recipient_line(st, lines[0]), lines.drop_first());
    }
}

/// Whether two lines belong to one entry: neither of them nor a line between them is blank.
pub open spec fn in_one_entry(lines: Seq<Seq<char>>, j: int, k: int) -> bool {
    forall|b: int|
        (j <= b <= k || k <= b <= j) && 0 <= b < lines.len() ==> trimmed(#[trigger] lines[b]).len()
            > 0
}

/// Whether, in the entry that a line belongs to, the last line that gives a value for a key gives
/// this one; `None` stands for an entry without such a line.
pub open spec fn entry_says(
    lines: Seq<Seq<char>>,
    j: int,
    key: Seq<char>,
    value: Option<Seq<char>>,
) -> bool {
    match value {
        Some(v) => exists|k: int|
            0 <= k < lines.len() && in_one_entry(lines, j, k) && gives(#[trigger] lines[k], key)
                && given(lines[k]) == v && forall|m: int|
                k < m < lines.len() && in_one_entry(lines, j, m) ==> !gives(
                    #[trigger] lines[m],
                    key,
                ),
        None => forall|k: int|
            0 <= k < lines.len() && in_one_entry(lines, j, k) ==> !gives(#[trigger] lines[k], key),
    }
}

/// Whether the entry that a line belongs to is that of a recipient, with a type or without.
pub open spec fn is_entry_of(
    lines: Seq<Seq<char>>,
    j: int,
    a: AddressText,
    kind: Option<Seq<char>>,
) -> bool {
    &&& 0 <= j < lines.len()
    &&& entry_says(lines, j, "display name"@, a.name)
    &&& entry_says(lines, j, "email address"@, Some(a.email))
    &&& entry_says(lines, j, "recipient type"@, kind)
}

/// Whether a type is a given one, in upper or lower case.
pub open spec fn is_type(kind: Option<Seq<char>>, name: Seq<char>) -> bool {
    kind matches Some(k) && upper_text(k) == name
}

/// Whether a recipient has an entry with the type `CC`.
pub open spec fn listed_as_copy(text: Seq<char>, a: AddressText) -> bool {
    exists|j: int, kind: Option<Seq<char>>| #[trigger]
        is_entry_of(lines_of(text), j, a, kind) && is_type(kind, "CC"@)
}

/// Whether a recipient has an entry with the type `BCC`.
pub open spec fn listed_as_blind_copy(text: Seq<char>, a: AddressText) -> bool {
    exists|j: int, kind: Option<Seq<char>>| #[trigger]
        is_entry_of(lines_of(text), j, a, kind) && is_type(kind, "BCC"@)
}

/// Whether a recipient has an entry without a type or with another one.
pub open spec fn listed_otherwise(text: Seq<char>, a: AddressText) -> bool {
    exists|j: int, kind: Option<Seq<char>>| #[trigger]
        is_entry_of(lines_of(text), j, a, kind) && !is_type(kind, "CC"@) && !is_type(kind, "BCC"@)
}

spec fn state_at(lines: Seq<Seq<char>>, n: int) -> RecipientState {
    recipient_lines(no_recipients(), lines.take(n))
}

/// Where the entry starts that is open after `n` lines.
spec fn entry_start(lines: Seq<Seq<char>>, n: int) -> int
    decreases n,
{
    if n <= 0 {
        0
    } else if trimmed(lines[n - 1]).len() == 0 {
        n
    } else {
        entry_start(lines, n - 1)
    }
}

proof fn lemma_entry_start(lines: Seq<Seq<char>>, n: int)
    requires
        0 <= n <= lines.len(),
    ensures
        0 <= entry_start(lines, n) <= n,
        entry_start(lines, n) > 0 ==> trimmed(lines[entry_start(lines, n) - 1]).len() == 0,
        forall|b: int|
            entry_start(lines, n) <= b < n ==> trimmed(#[trigger] lines[b]).len() > 0,
    decreases n,
{
    if n > 0 && trimmed(lines[n - 1]).len() > 0 {
        lemma_entry_start(lines, n - 1);
    }
}

proof fn lemma_state_step(lines: Seq<Seq<char>>, n: int)
    requires
        0 < n <= lines.len(),
    ensures
        state_at(lines, n) == recipient_line(state_at(lines, n - 1), lines[n - 1]),
{
    let before = state_at(lines, n - 1);
    let line = lines[n - 1];
    assert(lines.take(n) =~= lines.take(n - 1) + seq![line]);
    lemma_recipient_cat(no_recipients(), lines.take(n - 1), seq![line]);
    assert(seq![line][0] == line);
    assert(seq![line].drop_first() =~= Seq::<Seq<char>>::empty());
    assert(recipient_lines(recipient_line(before, line), Seq::<Seq<char>>::empty())
        == recipient_line(before, line));
}

proof fn lemma_open_entry(lines: Seq<Seq<char>>, n: int)
    requires
        0 <= n <= lines.len(),
    ensures
        ({
            let open = lines.subrange(entry_start(lines, n), n);
            let st = state_at(lines, n);
            &&& st.name == reads_as(no_recipients(), open, "display name"@)
            &&& st.email == reads_as(no_recipients(), open, "email address"@)
            &&& st.kind == reads_as(no_recipients(), open, "recipient type"@)
        }),
    decreases n,
{
    lemma_keys_differ();
    lemma_entry_start(lines, n);
    let open = lines.subrange(entry_start(lines, n), n);
    if n == 0 {
        assert(lines.take(0).len() == 0);
        assert(state_at(lines, 0) == no_recipients());
        assert(open.len() == 0);
    } else {
        lemma_state_step(lines, n);
        lemma_open_entry(lines, n - 1);
        lemma_entry_start(lines, n - 1);
        if trimmed(lines[n - 1]).len() == 0 {
            assert(open.len() == 0);
        } else {
            let s = entry_start(lines, n);
            assert(open.drop_last() =~= lines.subrange(s, n - 1));
            assert(open.last() == lines[n - 1]);
        }
    }
}

/// What an entry says of a key is what its last line with that key says.
proof fn lemma_read_from(seg: Seq<Seq<char>>, key: Seq<char>) -> (k: int)
    requires
        key == "display name"@ || key == "email address"@ || key == "recipient type"@,
    ensures
        -1 <= k < seg.len(),
        forall|m: int| k < m < seg.len() ==> !gives(#[trigger] seg[m], key),
        k < 0 ==> reads_as(no_recipients(), seg, key) is None,
        k >= 0 ==> gives(seg[k], key) && reads_as(no_recipients(), seg, key) == Some(
            if key == "recipient type"@ {
                upper_text(given(seg[k]))
            } else {
                given(seg[k])
            },
        ),
    decreases seg.len(),
{
    if seg.len() == 0 {
        -1
    } else if gives(seg.last(), key) {
        seg.len() - 1
    } else {
        let d = seg.drop_last();
        let k = lemma_read_from(d, key);
        assert forall|m: int| k < m < seg.len() implies !gives(#[trigger] seg[m], key) by {
            if m < d.len() {
                assert(d[m] == seg[m]);
            }
        }
        k
    }
}

proof fn lemma_entry_says(lines: Seq<Seq<char>>, n: int, j: int, key: Seq<char>) -> (value: Option<
    Seq<char>,
>)
    requires
        0 <= n <= lines.len(),
        n < lines.len() ==> trimmed(lines[n]).len() == 0,
        entry_start(lines, n) <= j < n,
        key == "display name"@ || key == "email address"@ || key == "recipient type"@,
    ensures
        entry_says(lines, j, key, value),
        ({
            let open = lines.subrange(entry_start(lines, n), n);
            reads_as(no_recipients(), open, key) == match value {
                Some(v) => if key == "recipient type"@ {
                    Some(upper_text(v))
                } else {
                    Some(v)
                },
                None => None,
            }
        }),
{
    let s = entry_start(lines, n);
    let open = lines.subrange(s, n);
    lemma_entry_start(lines, n);
    let k = lemma_read_from(open, key);
    assert forall|m: int| 0 <= m < lines.len() && #[trigger] in_one_entry(
        lines,
        j,
        m,
    ) implies s <= m < n by {
        if m >= n {
            assert(trimmed(lines[n]).len() == 0);
        }
        if m < s {
            assert(trimmed(lines[s - 1]).len() == 0);
        }
    }
    assert forall|m: int| s + k < m < lines.len() && in_one_entry(lines, j, m) implies !gives(
        #[trigger] lines[m],
        key,
    ) by {
        if m >= s {
            assert(open[m - s] == lines[m]);
        }
    }
    if k >= 0 {
        assert(open[k] == lines[s + k]);
        assert(in_one_entry(lines, j, s + k));
        Some(given(lines[s + k]))
    } else {
        assert forall|m: int| 0 <= m < lines.len() && in_one_entry(lines, j, m) implies !gives(
            #[trigger] lines[m],
            key,
        ) by {
            assert(open[m - s] == lines[m]);
        }
        None
    }
}

spec fn lists_stem(text: Seq<char>, st: RecipientState) -> bool {
    &&& forall|i: int| 0 <= i < st.cc.len() ==> listed_as_copy(text, #[trigger] st.cc[i])
    &&& forall|i: int| 0 <= i < st.bcc.len() ==> listed_as_blind_copy(text, #[trigger] st.bcc[i])
    &&& forall|i: int| 0 <= i < st.to.len() ==> listed_otherwise(text, #[trigger] st.to[i])
}

proof fn lemma_closing_stems(text: Seq<char>, n: int)
    requires
        0 <= n <= lines_of(text).len(),
        n < lines_of(text).len() ==> trimmed(lines_of(text)[n]).len() == 0,
        lists_stem(text, state_at(lines_of(text), n)),
    ensures
        lists_stem(text, close_recipient(state_at(lines_of(text), n))),
{
    lemma_keys_differ();
    let lines = lines_of(text);
    let st = state_at(lines, n);
    lemma_open_entry(lines, n);
    lemma_entry_start(lines, n);
    if let Some(e) = st.email {
        let s = entry_start(lines, n);
        let open = lines.subrange(s, n);
        let j = s + lemma_read_from(open, "email address"@);
        let name = lemma_entry_says(lines, n, j, "display name"@);
        let email = lemma_entry_says(lines, n, j, "email address"@);
        let kind = lemma_entry_says(lines, n, j, "recipient type"@);
        let a = AddressText { name: st.name, email: e };
        assert(is_entry_of(lines, j, a, kind));
        let c = close_recipient(st);
        assert forall|i: int| 0 <= i < c.cc.len() implies listed_as_copy(
            text,
            #[trigger] c.cc[i],
        ) by {
            if i < st.cc.len() {
                assert(c.cc[i] == st.cc[i]);
            }
        }
        assert forall|i: int| 0 <= i < c.bcc.len() implies listed_as_blind_copy(
            text,
            #[trigger] c.bcc[i],
        ) by {
            if i < st.bcc.len() {
                assert(c.bcc[i] == st.bcc[i]);
            }
        }
        assert forall|i: int| 0 <= i < c.to.len() implies listed_otherwise(
            text,
            #[trigger] c.to[i],
        ) by {
            if i < st.to.len() {
                assert(c.to[i] == st.to[i]);
            }
        }
    }
}

proof fn lemma_lists_stem(text: Seq<char>, n: int)
    requires
        0 <= n <= lines_of(text).len(),
    ensures
        lists_stem(text, state_at(lines_of(text), n)),
    decreases n,
{
    let lines = lines_of(text);
    if n == 0 {
        assert(lines.take(0).len() == 0);
        assert(state_at(lines, 0) == no_recipients());
    } else {
        lemma_lists_stem(text, n - 1);
        lemma_state_step(lines, n);
        if trimmed(lines[n - 1]).len() == 0 {
            lemma_closing_stems(text, n - 1);
        }
    }
}

/// Where the headers name no recipient, each recipient in `cc` has an entry of the recipient file
/// with the type `CC`, each in `bcc` one with the type `BCC`, and each in `to` one without a type
/// or with another; the entry gives the recipient's address, and its name or none.
pub proof fn law_lists_hold_their_own(files: PffTexts)
    requires
        no_recipient_in_headers(files),
    ensures
        forall|i: int|
            0 <= i < pff_message(files).cc.len() ==> listed_as_copy(
                files.recipients,
                #[trigger] pff_message(files).cc[i],
            ),
        forall|i: int|
            0 <= i < pff_message(files).bcc.len() ==> listed_as_blind_copy(
                files.recipients,
                #[trigger] pff_message(files).bcc[i],
            ),
        forall|i: int|
            0 <= i < pff_message(files).to.len() ==> listed_otherwise(
                files.recipients,
                #[trigger] pff_message(files).to[i],
            ),
{
    let text = files.recipients;
    let n = lines_of(text).len() as int;
    lemma_lists_stem(text, n);
    lemma_closing_stems(text, n);
    assert(lines_of(text).take(n) =~= lines_of(text));
    assert(recipients_of(text) == close_recipient(state_at(lines_of(text), n)));
}

/// A recipient file without a line has no recipients.
pub proof fn law_no_entries(files: PffTexts)
    requires
        no_recipient_in_headers(files),
        files.recipients.len() == 0,
    ensures
        pff_message(files).to.len() == 0,
        pff_message(files).cc.len() == 0,
        pff_message(files).bcc.len() == 0,
{
    assert(lines_of(files.recipients).len() == 0);
}

// ---------------------------------------------------------------------------------------
// Headers
// ---------------------------------------------------------------------------------------

/// Where the internet headers of an exported message name a recipient, its recipients are theirs,
/// and the recipient file does not count.
pub proof fn law_headers_name_recipients(files: PffTexts)
    requires
        !no_recipient_in_headers(files),
    ensures
        ({
            let m = pff_message(files);
            let h = rfc822_message(files.source, files.folder, files.internet_headers, 0);
            m.to == h.to && m.cc == h.cc && m.bcc == h.bcc
        }),
{
}

/// What the internet headers of an exported message say comes before what Outlook's say, but for
/// the conversation and the delivery; who sent the message is who it is from where they do not
/// tell.
pub proof fn law_internet_headers_first(files: PffTexts)
    ensures
        ({
            let m = pff_message(files);
            let h = rfc822_message(files.source, files.folder, files.internet_headers, 0);
            &&& m.source_id == Some(files.source)
            &&& m.folder_path == h.folder_path
            &&& m.internet_message_id == h.internet_message_id
            &&& m.in_reply_to == h.in_reply_to
            &&& m.references == h.references
            &&& h.subject is Some ==> m.subject == h.subject
            &&& h.sent_at is Some ==> m.sent_at == h.sent_at
            &&& h.sender is Some ==> m.sender == h.sender
            &&& h.from is Some ==> m.from == h.from
            &&& h.from is None ==> m.from == m.sender
            &&& m.has_attachments == files.has_attachments
            &&& trimmed(files.internet_headers).len() > 0 ==> m.headers == Some(
                files.internet_headers,
            )
            &&& trimmed(files.internet_headers).len() == 0 ==> m.headers is None
        }),
{
}

/// Whether a line of a key-value file gives a key a value that is not blank.
pub open spec fn sets(line: Seq<char>, key: Seq<char>) -> bool {
    split_first(line, ':') matches Some((name, content)) && lower_text(trimmed(name)) == key
        && trimmed(content).len() > 0
}

/// The value that such a line gives.
pub open spec fn set_to(line: Seq<char>) -> Seq<char> {
    trimmed((split_first(line, ':')->0).1)
}

/// Whether the last line of a key-value file that gives a key a value gives this one; `None`
/// stands for a file without such a line.
pub open spec fn file_sets(text: Seq<char>, key: Seq<char>, value: Option<Seq<char>>) -> bool {
    match value {
        Some(v) => exists|i: int|
            0 <= i < lines_of(text).len() && sets(#[trigger] lines_of(text)[i], key) && set_to(
                lines_of(text)[i],
            ) == v && forall|j: int|
                i < j < lines_of(text).len() ==> !sets(#[trigger] lines_of(text)[j], key),
        None => forall|i: int|
            0 <= i < lines_of(text).len() ==> !sets(#[trigger] lines_of(text)[i], key),
    }
}

proof fn lemma_key_value_cat(f: FieldTexts, a: Seq<Seq<char>>, line: Seq<char>)
    ensures
        key_value_lines(f, a + seq![line]) == key_value_line(key_value_lines(f, a), line),
    decreases a.len(),
{
    let one = seq![line];
    if a.len() == 0 {
        assert(a + one =~= one);
        assert(one.drop_first() =~= Seq::<Seq<char>>::empty());
        assert(key_value_lines(key_value_line(f, line), Seq::<Seq<char>>::empty())
            == key_value_line(f, line));
    } else {
        assert((a + one)[0] == a[0]);
        assert((a + one).drop_first() =~= a.drop_first() + one);
        lemma_key_value_cat(key_value_line(f, a[0]), a.drop_first(), line);
    }
}

proof fn lemma_last_set(lines: Seq<Seq<char>>, key: Seq<char>, i: int)
    requires
        -1 <= i < lines.len(),
        i >= 0 ==> sets(lines[i], key),
        forall|j: int| i < j < lines.len() ==> !sets(#[trigger] lines[j], key),
    ensures
        value_of(key_value_lines(FieldTexts::empty(), lines), key) == (if i >= 0 {
            Some(set_to(lines[i]))
        } else {
            None
        }),
    decreases lines.len(),
{
    let none = FieldTexts::empty();
    if lines.len() == 0 {
        assert(key_value_lines(none, lines) == none);
        assert(value_of(none, key) is None);
    } else {
        let d = lines.drop_last();
        let last = lines.last();
        assert(lines =~= d + seq![last]);
        lemma_key_value_cat(none, d, last);
        let f = key_value_lines(none, d);
        if let Some((name, content)) = split_first(last, ':') {
            lemma_value_of_other(f, lower_text(trimmed(name)), trimmed(content), key);
        }
        if i < lines.len() - 1 {
            assert(!sets(lines[lines.len() - 1], key));
            assert forall|j: int| i < j < d.len() implies !sets(#[trigger] d[j], key) by {
                assert(d[j] == lines[j]);
            }
            lemma_last_set(d, key, i);
        }
    }
}

proof fn lemma_file_sets(text: Seq<char>, key: Seq<char>, value: Option<Seq<char>>)
    requires
        file_sets(text, key, value),
    ensures
        value_of(key_values_of(text), key) == value,
{
    let lines = lines_of(text);
    match value {
        Some(v) => {
            let i = choose|i: int|
                0 <= i < lines.len() && sets(#[trigger] lines[i], key) && set_to(lines[i]) == v
                    && forall|j: int| i < j < lines.len() ==> !sets(#[trigger] lines[j], key);
            lemma_last_set(lines, key, i);
        },
        None => {
            lemma_last_set(lines, key, -1);
        },
    }
}

/// Outlook's headers of an exported message fill in what the internet headers lack, each its own
/// field; they come first for the conversation and the delivery, and they alone tell the size.
pub proof fn law_outlook_fills_in(files: PffTexts, key: Seq<char>, value: Option<Seq<char>>)
    requires
        file_sets(files.outlook_headers, key, value),
    ensures
        ({
            let m = pff_message(files);
            let h = rfc822_message(files.source, files.folder, files.internet_headers, 0);
            &&& key == "subject"@ && h.subject is None ==> m.subject == value
            &&& key == "client submit time"@ && h.sent_at is None ==> m.sent_at == value
            &&& key == "conversation topic"@ && value is Some ==> m.conversation_id == value
            &&& key == "conversation topic"@ && value is None ==> m.conversation_id
                == h.conversation_id
            &&& key == "delivery time"@ && value is Some ==> m.received_at == value
            &&& key == "delivery time"@ && value is None ==> m.received_at == h.received_at
            &&& key == "sender email address"@ && h.sender is None ==> (m.sender is Some <==> value
                is Some)
            &&& key == "sender email address"@ && h.sender is None && value is Some ==> (
            m.sender->0).email == value->0
            &&& key == "sender name"@ && h.sender is None && m.sender is Some ==> (m.sender->0).name
                == value
            &&& key == "size"@ && value is None ==> m.size_bytes is None
            &&& key == "size"@ && value is Some ==> (m.size_bytes is Some <==> signed_value(
                value->0,
            ) is Some)
            &&& key == "size"@ && value is Some && m.size_bytes is Some ==> m.size_bytes->0
                == signed_value(value->0)->0
        }),
{
    lemma_file_sets(files.outlook_headers, key, value);
}

} // verus!
