//! What reading a mail or an exported message gives, told by the lines of its texts.
use vstd::prelude::*;

use crate::archive::{
    address_in, address_list, addresses_in, rfc822_message, AddressText, MessageText,
};
use crate::headers::{
    bare_line, field_line, fields_text, first_value, header_line, header_lines, headers_of,
    is_folded, key_at, lemma_key_at, no_headers, value_of, with_value, FieldTexts, HeaderState,
};
use crate::pieces::{
    join_with, lemma_find_at, lemma_lines_after, lemma_split_single, lines_of, split_on, without_cr,
};
use crate::text::{
    find, has_text, is_space, lemma_find, lemma_rfind, lemma_trim_end_shape, lemma_trim_keeps,
    lemma_trim_shape, lemma_trim_start_shape, lower_text, occurs_at, rfind, split_first,
    trim_end_of, trim_of, trim_start_of, trimmed, CharClass,
};

verus! {

// ---------------------------------------------------------------------------------------
// Pieces and lines
// ---------------------------------------------------------------------------------------

/// Whether a character does not occur in a text.
pub open spec fn lacks(s: Seq<char>, c: char) -> bool {
    forall|j: int| 0 <= j < s.len() ==> #[trigger] s[j] != c
}

/// Whether there is no white space at the ends of a text.
pub open spec fn is_trim(s: Seq<char>) -> bool {
    s.len() > 0 ==> !is_space(s[0]) && !is_space(s.last())
}

/// Whether a text is made of whole lines.
pub open spec fn whole_lines(s: Seq<char>) -> bool {
    s.len() == 0 || s.last() == '\n'
}

pub proof fn lemma_split_after(v: Seq<char>, c: char, e: Seq<char>)
    requires
        lacks(e, c),
    ensures
        split_on(v + seq![c] + e, c) == split_on(v, c).push(e),
    decreases v.len(),
{
    lemma_find(v, c);
    lemma_split_single(e, c);
    match find(v, c) {
        Some(i) => {
            let a = v.take(i);
            let b = v.skip(i + 1);
            assert(v + seq![c] + e =~= a + seq![c] + (b + seq![c] + e));
            assert forall|j: int| 0 <= j < a.len() implies #[trigger] a[j] != c by {
                assert(a[j] == v[j]);
            }
            lemma_find_at(a, c, b + seq![c] + e);
            lemma_split_after(b, c, e);
            assert((seq![a] + split_on(b, c)).push(e) =~= seq![a] + split_on(b, c).push(e));
        },
        None => {
            lemma_find_at(v, c, e);
            assert(seq![v] + seq![e] =~= seq![v].push(e));
        },
    }
}

pub proof fn lemma_lines_cat(h: Seq<char>, y: Seq<char>)
    requires
        whole_lines(h),
    ensures
        lines_of(h + y) == lines_of(h) + lines_of(y),
{
    if h.len() == 0 {
        assert(h + y =~= y);
        assert(lines_of(h) + lines_of(y) =~= lines_of(y));
    } else {
        let x = h.drop_last();
        assert(h =~= x + seq!['\n']);
        lemma_lines_after(x, y);
    }
}

proof fn lemma_one_line(line: Seq<char>)
    requires
        lacks(line, '\n'),
    ensures
        lines_of(line + seq!['\n']) == seq![without_cr(line)],
        whole_lines(line + seq!['\n']),
{
    let none = Seq::<char>::empty();
    lemma_find_at(line, '\n', none);
    assert(line + seq!['\n'] + none =~= line + seq!['\n']);
    assert(lines_of(none) =~= Seq::empty());
    assert(seq![without_cr(line)] + Seq::<Seq<char>>::empty() =~= seq![without_cr(line)]);
}

proof fn lemma_trim_pushed(s: Seq<char>, c: char)
    requires
        is_space(c),
    ensures
        trimmed(s.push(c)) == trimmed(s),
{
    let k = CharClass::Space;
    let t = s.push(c);
    let lo = lemma_trim_start_shape(s, k);
    let low = lemma_trim_start_shape(t, k);
    if lo < s.len() {
        assert(t[lo] == s[lo]);
        assert(low == lo) by {
            if low < lo {
                assert(t[low] == s[low]);
                assert(k.has(s[low]));
            }
            if low > lo {
                assert(k.has(t[lo]));
            }
        }
        assert(t.skip(lo) =~= s.skip(lo).push(c));
        assert(t.skip(lo).drop_last() =~= s.skip(lo));
        assert(t.skip(lo).last() == c);
    } else {
        assert(low == t.len()) by {
            if low < s.len() {
                assert(t[low] == s[low]);
                assert(k.has(s[low]));
            }
        }
        assert(t.skip(low) =~= s.skip(lo));
    }
}

proof fn lemma_trim_bare(s: Seq<char>)
    ensures
        trimmed(trim_end_of(s, CharClass::Just('\r'))) == trimmed(s),
    decreases s.len(),
{
    if s.len() > 0 && s.last() == '\r' {
        let t = s.drop_last();
        assert(s =~= t.push('\r'));
        lemma_trim_pushed(t, '\r');
        lemma_trim_bare(t);
    }
}

// ---------------------------------------------------------------------------------------
// Addresses
// ---------------------------------------------------------------------------------------

/// An entry in angle brackets names the address between them; what stands before them, without
/// the space and the quotes around it, is the name.
pub proof fn law_named_address(name: Seq<char>, email: Seq<char>)
    requires
        lacks(email, '<'),
        lacks(email, '>'),
        email.contains('@'),
        is_trim(email),
    ensures
        address_in(name + seq!['<'] + email + seq!['>']) is Some,
        (address_in(name + seq!['<'] + email + seq!['>'])->0).email == email,
        name.len() == 0 ==> (address_in(name + seq!['<'] + email + seq!['>'])->0).name is None,
        name.len() > 0 && is_trim(name) && name[0] != '"' && name.last() != '"' ==> {
            &&& (address_in(name + seq!['<'] + email + seq!['>'])->0).name == Some(name)
            &&& (address_in(name + seq![' '] + seq!['<'] + email + seq!['>'])->0).name == Some(name)
            &&& (address_in(
                seq!['"'] + name + seq!['"'] + seq![' '] + seq!['<'] + email + seq!['>'],
            )->0).name == Some(name)
        },
{
    lemma_bracketed(name, email);
    lemma_bracketed(name + seq![' '], email);
    lemma_bracketed(seq!['"'] + name + seq!['"'] + seq![' '], email);
    let q = CharClass::Just('"');
    if name.len() == 0 {
        lemma_trim_keeps(name, CharClass::Space);
        lemma_trim_keeps(name, q);
    }
    if name.len() > 0 && is_trim(name) && name[0] != '"' && name.last() != '"' {
        lemma_trim_keeps(name, CharClass::Space);
        lemma_trim_keeps(name, q);
        assert(name + seq![' '] =~= name.push(' '));
        lemma_trim_pushed(name, ' ');
        let quoted = seq!['"'] + name + seq!['"'];
        assert(quoted + seq![' '] =~= quoted.push(' '));
        lemma_trim_pushed(quoted, ' ');
        lemma_trim_keeps(quoted, CharClass::Space);
        assert(quoted.drop_first() =~= name + seq!['"']);
        assert(quoted[0] == '"');
        assert((name + seq!['"'])[0] == name[0]);
        assert(trim_start_of(quoted, q) == trim_start_of(name + seq!['"'], q));
        assert(trim_start_of(name + seq!['"'], q) == name + seq!['"']);
        assert((name + seq!['"']).drop_last() =~= name);
        assert((name + seq!['"']).last() == '"');
        assert(trim_end_of(name + seq!['"'], q) == trim_end_of(name, q));
    }
}

proof fn lemma_bracketed(name: Seq<char>, email: Seq<char>)
    requires
        lacks(email, '<'),
        lacks(email, '>'),
        email.contains('@'),
        is_trim(email),
    ensures
        address_in(name + seq!['<'] + email + seq!['>']) == Some(
            AddressText {
                name: if trim_of(trimmed(name), CharClass::Just('"')).len() > 0 {
                    Some(trim_of(trimmed(name), CharClass::Just('"')))
                } else {
                    None
                },
                email,
            },
        ),
{
    let part = name + seq!['<'] + email + seq!['>'];
    let after = email + seq!['>'];
    let n = name.len() as int;
    lemma_rfind(part, '<');
    assert(part[n] == '<');
    assert(rfind(part, '<') == Some(n)) by {
        let i = rfind(part, '<')->0;
        if i > n {
            if i < n + 1 + email.len() {
                assert(part[i] == email[i - n - 1]);
            }
        }
    }
    assert(part.take(n) =~= name);
    assert(part.skip(n + 1) =~= after);
    assert(email.len() > 0);
    lemma_trim_keeps(after, CharClass::Space);
    assert(after.drop_last() =~= email);
    assert(after.last() == '>');
    assert(trim_end_of(after, CharClass::Just('>')) == trim_end_of(email, CharClass::Just('>')));
    assert(email.last() == email[email.len() - 1]);
    assert(trim_end_of(email, CharClass::Just('>')) == email);
    lemma_trim_keeps(email, CharClass::Space);
}

/// A bracket that is left open names the address behind it all the same; where what is in the
/// brackets has no `@`, the whole entry is the address if it has one.
pub proof fn law_odd_brackets(name: Seq<char>, inner: Seq<char>)
    requires
        lacks(inner, '<'),
        lacks(inner, '>'),
        is_trim(inner),
    ensures
        inner.contains('@') ==> (address_in(name + seq!['<'] + inner) matches Some(a) && a.email
            == inner),
        !inner.contains('@') ==> {
            let whole = name + seq!['<'] + inner + seq!['>'];
            let plain = trim_of(trimmed(whole), CharClass::Just('"'));
            &&& plain.contains('@') ==> address_in(whole) == Some(
                AddressText { name: None, email: plain },
            )
            &&& !plain.contains('@') ==> address_in(whole) is None
        },
{
    let part = name + seq!['<'] + inner;
    let whole = part + seq!['>'];
    let n = name.len() as int;
    lemma_rfind(part, '<');
    lemma_rfind(whole, '<');
    assert(part[n] == '<');
    assert(whole[n] == '<');
    assert(rfind(part, '<') == Some(n)) by {
        let i = rfind(part, '<')->0;
        if i > n {
            assert(part[i] == inner[i - n - 1]);
        }
    }
    assert(rfind(whole, '<') == Some(n)) by {
        let i = rfind(whole, '<')->0;
        if n < i < n + 1 + inner.len() {
            assert(whole[i] == inner[i - n - 1]);
        }
    }
    assert(part.skip(n + 1) =~= inner);
    let after = inner + seq!['>'];
    assert(whole.skip(n + 1) =~= after);
    lemma_trim_keeps(inner, CharClass::Space);
    lemma_trim_keeps(after, CharClass::Space);
    assert(after.drop_last() =~= inner);
    assert(after.last() == '>');
    if inner.len() > 0 {
        assert(inner.last() == inner[inner.len() - 1]);
    }
    assert(trim_end_of(inner, CharClass::Just('>')) == inner);
    assert(trim_end_of(after, CharClass::Just('>')) == inner);
}

/// An entry without brackets is an address if it has an `@`; the space and the quotes around it
/// do not belong to it.
pub proof fn law_bare_address(entry: Seq<char>)
    requires
        lacks(entry, '<'),
    ensures
        address_in(entry) is Some <==> trim_of(trimmed(entry), CharClass::Just('"')).contains('@'),
        is_trim(entry) && entry.contains('@') && entry[0] != '"' && entry.last() != '"'
            ==> address_in(entry) == Some(AddressText { name: None, email: entry }),
        !entry.contains('@') ==> address_in(entry) is None,
{
    lemma_rfind(entry, '<');
    lemma_trim_adds_none(entry, CharClass::Space, '@');
    lemma_trim_adds_none(trimmed(entry), CharClass::Just('"'), '@');
    if is_trim(entry) && entry.contains('@') && entry[0] != '"' && entry.last() != '"' {
        lemma_trim_keeps(entry, CharClass::Space);
        lemma_trim_keeps(entry, CharClass::Just('"'));
    }
}

proof fn lemma_trim_adds_none(s: Seq<char>, k: CharClass, c: char)
    ensures
        trim_of(s, k).contains(c) ==> s.contains(c),
{
    let (lo, hi) = lemma_trim_shape(s, k);
    let t = trim_of(s, k);
    if t.contains(c) {
        let i = t.index_of(c);
        assert(t[i] == s[lo + i]);
    }
}

/// An entry at the end of an address list comes last; one that names no address adds none.
pub proof fn law_address_list_grows(list: Seq<char>, entry: Seq<char>)
    requires
        lacks(entry, ','),
    ensures
        address_list(list + seq![','] + entry) == match address_in(trimmed(entry)) {
            Some(a) => address_list(list).push(a),
            None => address_list(list),
        },
        address_list(entry) == match address_in(trimmed(entry)) {
            Some(a) => seq![a],
            None => Seq::empty(),
        },
{
    lemma_split_after(list, ',', entry);
    assert(split_on(list, ',').push(entry).drop_last() =~= split_on(list, ','));
    lemma_split_single(entry, ',');
    assert(seq![entry].drop_last() =~= Seq::<Seq<char>>::empty());
    assert(addresses_in(Seq::<Seq<char>>::empty()) =~= Seq::<AddressText>::empty());
    assert(Seq::<AddressText>::empty().push((address_in(trimmed(entry))->0)) =~= seq![
        (address_in(trimmed(entry))->0),
    ]);
}

/// The addresses of a list are those that its entries name, in the order of the entries.
pub proof fn law_list_keeps_order(entries: Seq<Seq<char>>)
    requires
        entries.len() > 0,
        forall|i: int|
            0 <= i < entries.len() ==> lacks(#[trigger] entries[i], ',') && is_trim(entries[i])
                && address_in(entries[i]) is Some,
    ensures
        address_list(join_with(entries, seq![',', ' '])).len() == entries.len(),
        forall|i: int|
            0 <= i < entries.len() ==> address_in(#[trigger] entries[i]) == Some(
                address_list(join_with(entries, seq![',', ' ']))[i],
            ),
    decreases entries.len(),
{
    let e = entries.last();
    let sep = seq![',', ' '];
    assert(lacks(entries[entries.len() - 1], ','));
    lemma_trim_keeps(e, CharClass::Space);
    if entries.len() == 1 {
        law_address_list_grows(Seq::empty(), e);
        assert(join_with(entries, sep) == e);
    } else {
        let front = entries.drop_last();
        assert forall|i: int| 0 <= i < front.len() implies lacks(#[trigger] front[i], ',')
            && is_trim(front[i]) && address_in(front[i]) is Some by {
            assert(front[i] == entries[i]);
        }
        law_list_keeps_order(front);
        let list = join_with(front, sep);
        let padded = seq![' '] + e;
        assert(join_with(entries, sep) =~= list + seq![','] + padded);
        assert(lacks(padded, ','));
        law_address_list_grows(list, padded);
        assert(padded.drop_first() =~= e);
        assert(padded[0] == ' ');
        assert(trim_start_of(padded, CharClass::Space) == trim_start_of(e, CharClass::Space));
        assert(trimmed(padded) == trimmed(e));
        assert forall|i: int| 0 <= i < entries.len() implies address_in(
            #[trigger] entries[i],
        ) == Some(address_list(join_with(entries, sep))[i]) by {
            if i < front.len() {
                assert(front[i] == entries[i]);
            }
        }
    }
}

// ---------------------------------------------------------------------------------------
// Headers
// ---------------------------------------------------------------------------------------

/// Whether a line starts a header: it is not set in, and it has a colon.
pub open spec fn starts_header(line: Seq<char>) -> bool {
    line.len() > 0 && line[0] != ' ' && line[0] != '\t' && line.contains(':')
}

/// Whether a line starts the header of a key: in lower case and without the space around it, what
/// stands before the first colon is the key.
pub open spec fn is_header_of(line: Seq<char>, key: Seq<char>) -> bool {
    starts_header(line) && (split_first(line, ':') matches Some((name, _)) && lower_text(
        trimmed(name),
    ) == key)
}

/// One line of a text, without the carriage returns at its end.
pub open spec fn line_at(text: Seq<char>, i: int) -> Seq<char> {
    trim_end_of(lines_of(text)[i], CharClass::Just('\r'))
}

/// Whether the first `n` lines of a text are its header lines: the text ends there, or a blank
/// line follows.
pub open spec fn head_ends_at(text: Seq<char>, n: int) -> bool {
    &&& 0 <= n <= lines_of(text).len()
    &&& n < lines_of(text).len() ==> line_at(text, n).len() == 0
}

/// Whether none of the first `n` lines of a text starts the header of a key.
pub open spec fn without_header(text: Seq<char>, n: int, key: Seq<char>) -> bool {
    forall|i: int| 0 <= i < n ==> !is_header_of(#[trigger] line_at(text, i), key)
}

/// Whether a text is made of whole lines, none of which is blank.
pub open spec fn only_head(text: Seq<char>) -> bool {
    whole_lines(text) && forall|i: int|
        0 <= i < lines_of(text).len() ==> (#[trigger] line_at(text, i)).len() > 0
}

/// Whether a text can stand before the colon of a header with this key.
pub open spec fn is_name_of(name: Seq<char>, key: Seq<char>) -> bool {
    &&& name.len() > 0
    &&& name[0] != ' '
    &&& name[0] != '\t'
    &&& lacks(name, ':')
    &&& lacks(name, '\n')
    &&& lower_text(trimmed(name)) == key
}

/// A header of a message: above it are header lines, below it the other header lines, and none of
/// them starts a header of the same key or goes on with this one.
pub open spec fn one_header_in(
    head: Seq<char>,
    name: Seq<char>,
    value: Seq<char>,
    tail: Seq<char>,
    n: int,
    key: Seq<char>,
) -> bool {
    &&& only_head(head)
    &&& without_header(head, lines_of(head).len() as int, key)
    &&& is_name_of(name, key)
    &&& lacks(value, '\n')
    &&& head_ends_at(tail, n)
    &&& without_header(tail, n, key)
    &&& n > 0 ==> starts_header(line_at(tail, 0))
}

/// The text of a message with that header.
pub open spec fn text_with(
    head: Seq<char>,
    name: Seq<char>,
    value: Seq<char>,
    tail: Seq<char>,
) -> Seq<char> {
    head + (name + seq![':'] + value + seq!['\n']) + tail
}

pub proof fn lemma_value_of_other(
    fields: FieldTexts,
    other: Seq<char>,
    value: Seq<char>,
    key: Seq<char>,
)
    ensures
        key != other ==> value_of(with_value(fields, other, value), key) == value_of(fields, key),
        value_of(with_value(fields, other, value), other) == Some(value),
{
    let after = with_value(fields, other, value);
    lemma_key_at(fields, key);
    lemma_key_at(fields, other);
    lemma_key_at(after, key);
    lemma_key_at(after, other);
    let i = match key_at(fields, other) {
        Some(i) => i,
        None => fields.len() as int,
    };
    assert(after[i] == (other, value));
    assert forall|j: int| 0 <= j < fields.len() && j != i implies after[j] == fields[j] by {}
    if key != other {
        match key_at(fields, key) {
            Some(k) => {
                assert(after[k] == fields[k]);
                let a = key_at(after, key)->0;
                if a < k {
                    assert(fields[a].0 != key);
                }
            },
            None => {
                if key_at(after, key) is Some {
                    let a = key_at(after, key)->0;
                    if a < fields.len() {
                        assert(fields[a].0 != key);
                    }
                }
            },
        }
    }
    assert(key_at(after, other) == Some(i)) by {
        let a = key_at(after, other)->0;
        if a < i {
            assert(fields[a].0 != other);
        }
    }
}

proof fn lemma_has_colon(line: Seq<char>)
    ensures
        line.contains(':') <==> split_first(line, ':') is Some,
{
    lemma_find(line, ':');
}

proof fn lemma_pass(st: HeaderState, lines: Seq<Seq<char>>, n: int, key: Seq<char>)
    requires
        0 <= n <= lines.len(),
        n < lines.len() ==> bare_line(lines[n]).len() == 0,
        forall|i: int| 0 <= i < n ==> !is_header_of(bare_line(#[trigger] lines[i]), key),
        st.current == Some(key) && n > 0 ==> starts_header(bare_line(lines[0])),
    ensures
        value_of(header_lines(st, lines).fields, key) == value_of(st.fields, key),
    decreases lines.len(),
{
    if n > 0 && bare_line(lines[0]).len() > 0 {
        let line = bare_line(lines[0]);
        let next = header_line(st, line);
        let rest = lines.drop_first();
        assert(!is_header_of(line, key));
        lemma_has_colon(line);
        if is_folded(line) {
            if let Some(k) = st.current {
                match value_of(st.fields, k) {
                    Some(v) => {
                        lemma_value_of_other(st.fields, k, v + seq![' '] + trimmed(line), key);
                    },
                    None => {
                        lemma_value_of_other(st.fields, k, seq![' '] + trimmed(line), key);
                    },
                }
            }
        } else if let Some((name, content)) = split_first(line, ':') {
            let k = lower_text(trimmed(name));
            let value = match value_of(st.fields, k) {
                Some(before) => before + seq!['\n'] + trimmed(content),
                None => trimmed(content),
            };
            lemma_value_of_other(st.fields, k, value, key);
        }
        assert(value_of(next.fields, key) == value_of(st.fields, key));
        assert(next.current != Some(key));
        assert forall|i: int| 0 <= i < n - 1 implies !is_header_of(
            bare_line(#[trigger] rest[i]),
            key,
        ) by {
            assert(rest[i] == lines[i + 1]);
        }
        if n < lines.len() {
            assert(rest[n - 1] == lines[n]);
        }
        lemma_pass(next, rest, n - 1, key);
    }
}

proof fn lemma_header_cat(st: HeaderState, a: Seq<Seq<char>>, b: Seq<Seq<char>>)
    requires
        forall|i: int| 0 <= i < a.len() ==> bare_line(#[trigger] a[i]).len() > 0,
    ensures
        header_lines(st, a + b) == header_lines(header_lines(st, a), b),
    decreases a.len(),
{
    if a.len() == 0 {
        assert(a + b =~= b);
    } else {
        let rest = a.drop_first();
        assert((a + b)[0] == a[0]);
        assert((a + b).drop_first() =~= rest + b);
        assert forall|i: int| 0 <= i < rest.len() implies bare_line(#[trigger] rest[i]).len()
            > 0 by {
            assert(rest[i] == a[i + 1]);
        }
        assert(bare_line(a[0]).len() > 0);
        lemma_header_cat(header_line(st, bare_line(a[0])), rest, b);
    }
}

proof fn lemma_bare_after_colon(name: Seq<char>, value: Seq<char>)
    ensures
        trim_end_of(name + seq![':'] + value, CharClass::Just('\r')) == name + seq![':']
            + trim_end_of(value, CharClass::Just('\r')),
    decreases value.len(),
{
    let s = name + seq![':'] + value;
    if value.len() == 0 {
        assert(s =~= name + seq![':']);
        assert(s.last() == ':');
        assert(trim_end_of(value, CharClass::Just('\r')) =~= value);
    } else {
        assert(s.last() == value.last());
        if value.last() == '\r' {
            assert(s.drop_last() =~= name + seq![':'] + value.drop_last());
            lemma_bare_after_colon(name, value.drop_last());
        }
    }
}

/// The line of a header, as it is read.
proof fn lemma_header_line(name: Seq<char>, value: Seq<char>, key: Seq<char>)
    requires
        is_name_of(name, key),
        lacks(value, '\n'),
    ensures
        ({
            let line = name + seq![':'] + value;
            let bare = bare_line(without_cr(line));
            &&& lines_of(line + seq!['\n']) == seq![without_cr(line)]
            &&& whole_lines(line + seq!['\n'])
            &&& is_header_of(bare, key)
            &&& !is_folded(bare)
            &&& split_first(bare, ':') matches Some((n, content)) && n == name && trimmed(content)
                == trimmed(value)
        }),
{
    let line = name + seq![':'] + value;
    let cut = trim_end_of(value, CharClass::Just('\r'));
    assert(lacks(line, '\n'));
    lemma_one_line(line);
    lemma_bare_after_colon(name, value);
    assert(bare_line(without_cr(line)) == trim_end_of(line, CharClass::Just('\r')));
    let bare = name + seq![':'] + cut;
    assert(bare[name.len() as int] == ':');
    lemma_find_at(name, ':', cut);
    assert(bare[0] == name[0]);
    lemma_trim_bare(value);
}

proof fn lemma_header_value(
    head: Seq<char>,
    name: Seq<char>,
    value: Seq<char>,
    tail: Seq<char>,
    n: int,
    key: Seq<char>,
)
    requires
        one_header_in(head, name, value, tail, n, key),
    ensures
        value_of(headers_of(text_with(head, name, value, tail)), key) == Some(trimmed(value)),
{
    let line = name + seq![':'] + value;
    let a = lines_of(head);
    let b = lines_of(tail);
    let one = seq![without_cr(line)];
    lemma_header_line(name, value, key);
    lemma_lines_cat(head, line + seq!['\n']);
    let upper = head + (line + seq!['\n']);
    assert(upper.last() == '\n');
    lemma_lines_cat(upper, tail);
    assert(lines_of(text_with(head, name, value, tail)) == a + one + b);
    let st = header_lines(no_headers(), a);
    assert forall|i: int| 0 <= i < a.len() implies bare_line(#[trigger] a[i]).len() > 0 by {
        assert(line_at(head, i).len() > 0);
    }
    assert forall|i: int| 0 <= i < a.len() implies !is_header_of(
        bare_line(#[trigger] a[i]),
        key,
    ) by {
        assert(!is_header_of(line_at(head, i), key));
    }
    lemma_pass(no_headers(), a, a.len() as int, key);
    assert(value_of(no_headers().fields, key) is None);
    let next = header_line(st, bare_line(without_cr(line)));
    lemma_value_of_other(st.fields, key, trimmed(value), key);
    assert(next.fields == with_value(st.fields, key, trimmed(value)));
    assert forall|i: int| 0 <= i < (a + one).len() implies bare_line(#[trigger] (a + one)[i]).len()
        > 0 by {
        if i < a.len() {
            assert((a + one)[i] == a[i]);
        } else {
            assert((a + one)[i] == without_cr(line));
        }
    }
    lemma_header_cat(no_headers(), a + one, b);
    lemma_header_cat(no_headers(), a, one);
    assert(one[0] == without_cr(line));
    assert(one.drop_first() =~= Seq::<Seq<char>>::empty());
    assert(header_lines(next, Seq::<Seq<char>>::empty()) == next);
    assert(header_lines(st, one) == next);
    assert forall|i: int| 0 <= i < n implies !is_header_of(bare_line(#[trigger] b[i]), key) by {
        assert(!is_header_of(line_at(tail, i), key));
    }
    lemma_pass(next, b, n, key);
}

proof fn lemma_no_value(text: Seq<char>, n: int, key: Seq<char>)
    requires
        head_ends_at(text, n),
        without_header(text, n, key),
    ensures
        value_of(headers_of(text), key) is None,
{
    let b = lines_of(text);
    assert forall|i: int| 0 <= i < n implies !is_header_of(bare_line(#[trigger] b[i]), key) by {
        assert(!is_header_of(line_at(text, i), key));
    }
    lemma_pass(no_headers(), b, n, key);
    assert(value_of(no_headers().fields, key) is None);
}

proof fn lemma_trim_twice(s: Seq<char>)
    ensures
        trimmed(trimmed(s)) == trimmed(s),
        is_trim(trimmed(s)),
{
    let (lo, hi) = lemma_trim_shape(s, CharClass::Space);
    let t = trimmed(s);
    if t.len() > 0 {
        assert(t[0] == s[lo]);
        assert(t.last() == s[hi - 1]);
    }
    lemma_trim_keeps(t, CharClass::Space);
}

proof fn lemma_blank_list(value: Seq<char>)
    requires
        value.len() == 0,
    ensures
        address_list(value) == Seq::<AddressText>::empty(),
{
    lemma_trim_keeps(value, CharClass::Space);
    law_bare_address(value);
    law_address_list_grows(value, value);
}

// ---------------------------------------------------------------------------------------
// Mails
// ---------------------------------------------------------------------------------------

/// Whether a message says what a header of this key with this value says: each of the headers has
/// a field of its own, a header of recipients gives all of its addresses, one of a sender the
/// first of them, and a blank one counts for nothing.
pub open spec fn says(m: MessageText, key: Seq<char>, v: Seq<char>) -> bool {
    let said = if v.len() > 0 {
        Some(v)
    } else {
        None
    };
    &&& key == "to"@ ==> m.to == address_list(v)
    &&& key == "cc"@ ==> m.cc == address_list(v)
    &&& key == "bcc"@ ==> m.bcc == address_list(v)
    &&& key == "from"@ ==> (m.from is Some <==> address_list(v).len() > 0)
    &&& key == "from"@ ==> (m.from matches Some(a) ==> a == address_list(v)[0])
    &&& key == "sender"@ && v.len() > 0 ==> (m.sender is Some <==> address_list(v).len() > 0)
    &&& key == "sender"@ && v.len() > 0 ==> (m.sender matches Some(a) ==> a == address_list(v)[0])
    &&& key == "sender"@ && v.len() == 0 ==> m.sender == m.from
    &&& key == "subject"@ ==> m.subject == said
    &&& key == "date"@ ==> m.sent_at == said
    &&& key == "in-reply-to"@ ==> m.in_reply_to == said
    &&& key == "references"@ ==> m.references == said
    &&& key == "message-id"@ ==> m.internet_message_id == said
    &&& key == "thread-index"@ ==> m.conversation_id == said
    &&& key == "delivery-date"@ ==> m.received_at == said
}

proof fn lemma_says(
    source: Seq<char>,
    folder: Option<Seq<char>>,
    size: i64,
    text: Seq<char>,
    key: Seq<char>,
    value: Seq<char>,
)
    requires
        value_of(headers_of(text), key) == Some(value),
    ensures
        says(rfc822_message(source, folder, text, size), key, trimmed(value)),
{
    lemma_blank_list(Seq::empty());
    if trimmed(value).len() == 0 {
        assert(trimmed(value) =~= Seq::empty());
    }
}

/// What a header of a mail says is what its message says, whatever other headers stand above and
/// below it.
pub proof fn law_header_is_read(
    source: Seq<char>,
    folder: Option<Seq<char>>,
    size: i64,
    head: Seq<char>,
    name: Seq<char>,
    value: Seq<char>,
    tail: Seq<char>,
    n: int,
    key: Seq<char>,
)
    requires
        one_header_in(head, name, value, tail, n, key),
    ensures
        says(
            rfc822_message(source, folder, text_with(head, name, value, tail), size),
            key,
            trimmed(value),
        ),
{
    lemma_header_value(head, name, value, tail, n, key);
    lemma_trim_twice(value);
    lemma_says(source, folder, size, text_with(head, name, value, tail), key, trimmed(value));
}

/// A header that goes on in a line that is set in says what both lines say, with one space
/// between them.
pub proof fn law_folded_header_is_read(
    source: Seq<char>,
    folder: Option<Seq<char>>,
    size: i64,
    head: Seq<char>,
    name: Seq<char>,
    value: Seq<char>,
    more: Seq<char>,
    tail: Seq<char>,
    n: int,
    key: Seq<char>,
)
    requires
        one_header_in(head, name, value, tail, n, key),
        more.len() > 0,
        more[0] == ' ' || more[0] == '\t',
        lacks(more, '\n'),
    ensures
        says(
            rfc822_message(
                source,
                folder,
                text_with(head, name, value, more + seq!['\n'] + tail),
                size,
            ),
            key,
            trimmed(trimmed(value) + seq![' '] + trimmed(more)),
        ),
{
    let line = name + seq![':'] + value;
    let a = lines_of(head);
    let b = lines_of(tail);
    let one = seq![without_cr(line)];
    let two = seq![without_cr(more)];
    let text = text_with(head, name, value, more + seq!['\n'] + tail);
    lemma_header_line(name, value, key);
    lemma_one_line(more);
    lemma_lines_cat(head, line + seq!['\n']);
    let upper = head + (line + seq!['\n']);
    assert(upper.last() == '\n');
    lemma_lines_cat(upper, more + seq!['\n'] + tail);
    assert(more + seq!['\n'] + tail =~= (more + seq!['\n']) + tail);
    lemma_lines_cat(more + seq!['\n'], tail);
    assert(lines_of(text) == a + one + (two + b));
    let st = header_lines(no_headers(), a);
    assert forall|i: int| 0 <= i < a.len() implies bare_line(#[trigger] a[i]).len() > 0 by {
        assert(line_at(head, i).len() > 0);
    }
    assert forall|i: int| 0 <= i < a.len() implies !is_header_of(
        bare_line(#[trigger] a[i]),
        key,
    ) by {
        assert(!is_header_of(line_at(head, i), key));
    }
    lemma_pass(no_headers(), a, a.len() as int, key);
    assert(value_of(no_headers().fields, key) is None);
    let next = header_line(st, bare_line(without_cr(line)));
    lemma_value_of_other(st.fields, key, trimmed(value), key);
    assert(next.fields == with_value(st.fields, key, trimmed(value)));
    assert forall|i: int| 0 <= i < (a + one).len() implies bare_line(#[trigger] (a + one)[i]).len()
        > 0 by {
        if i < a.len() {
            assert((a + one)[i] == a[i]);
        } else {
            assert((a + one)[i] == without_cr(line));
        }
    }
    lemma_header_cat(no_headers(), a + one, two + b);
    lemma_header_cat(no_headers(), a, one);
    assert(one[0] == without_cr(line));
    assert(one.drop_first() =~= Seq::<Seq<char>>::empty());
    assert(header_lines(next, Seq::<Seq<char>>::empty()) == next);
    let bare = bare_line(without_cr(more));
    assert(bare == trim_end_of(more, CharClass::Just('\r')));
    lemma_set_in(more);
    lemma_trim_bare(more);
    let last = header_line(next, bare);
    lemma_value_of_other(next.fields, key, trimmed(value) + seq![' '] + trimmed(more), key);
    assert((two + b)[0] == without_cr(more));
    assert((two + b).drop_first() =~= b);
    assert(header_lines(next, two + b) == header_lines(last, b));
    assert forall|i: int| 0 <= i < n implies !is_header_of(bare_line(#[trigger] b[i]), key) by {
        assert(!is_header_of(line_at(tail, i), key));
    }
    lemma_pass(last, b, n, key);
    lemma_says(source, folder, size, text, key, trimmed(value) + seq![' '] + trimmed(more));
}

proof fn lemma_set_in(more: Seq<char>)
    requires
        more.len() > 0,
        more[0] == ' ' || more[0] == '\t',
    ensures
        trim_end_of(more, CharClass::Just('\r')).len() > 0,
        is_folded(trim_end_of(more, CharClass::Just('\r'))),
{
    let hi = lemma_trim_end_shape(more, CharClass::Just('\r'));
    if hi == 0 {
        assert(CharClass::Just('\r').has(more[0]));
    }
    assert(more.take(hi)[0] == more[0]);
}

/// A header that comes again adds its value in a new line.
pub proof fn law_header_comes_again(
    head: Seq<char>,
    name: Seq<char>,
    value: Seq<char>,
    key: Seq<char>,
)
    requires
        only_head(head),
        is_name_of(name, key),
        lacks(value, '\n'),
        value_of(headers_of(head), key) is Some,
    ensures
        value_of(headers_of(text_with(head, name, value, Seq::empty())), key) == Some(
            value_of(headers_of(head), key)->0 + seq!['\n'] + trimmed(value),
        ),
{
    let line = name + seq![':'] + value;
    let a = lines_of(head);
    let one = seq![without_cr(line)];
    let text = text_with(head, name, value, Seq::empty());
    lemma_header_line(name, value, key);
    lemma_lines_cat(head, line + seq!['\n']);
    assert(text =~= head + (line + seq!['\n']));
    assert forall|i: int| 0 <= i < a.len() implies bare_line(#[trigger] a[i]).len() > 0 by {
        assert(line_at(head, i).len() > 0);
    }
    lemma_header_cat(no_headers(), a, one);
    let st = header_lines(no_headers(), a);
    let next = header_line(st, bare_line(without_cr(line)));
    assert(one[0] == without_cr(line));
    assert(one.drop_first() =~= Seq::<Seq<char>>::empty());
    assert(header_lines(next, Seq::<Seq<char>>::empty()) == next);
    lemma_value_of_other(
        st.fields,
        key,
        value_of(st.fields, key)->0 + seq!['\n'] + trimmed(value),
        key,
    );
}

/// A mail without the header of a key has nothing where that header would be read; without a
/// sender, who it is from sent it.
pub proof fn law_missing_header(
    source: Seq<char>,
    folder: Option<Seq<char>>,
    size: i64,
    text: Seq<char>,
    n: int,
    key: Seq<char>,
)
    requires
        head_ends_at(text, n),
        without_header(text, n, key),
    ensures
        ({
            let m = rfc822_message(source, folder, text, size);
            &&& key == "to"@ ==> m.to.len() == 0
            &&& key == "cc"@ ==> m.cc.len() == 0
            &&& key == "bcc"@ ==> m.bcc.len() == 0
            &&& key == "from"@ ==> m.from is None
            &&& key == "sender"@ ==> m.sender == m.from
            &&& key == "subject"@ ==> m.subject is None
            &&& key == "date"@ ==> m.sent_at is None
            &&& key == "in-reply-to"@ ==> m.in_reply_to is None
            &&& key == "references"@ ==> m.references is None
        }),
{
    lemma_no_value(text, n, key);
    assert(seq![key].drop_first() =~= Seq::<Seq<char>>::empty());
    assert(first_value(headers_of(text), Seq::<Seq<char>>::empty()) is None);
    assert(first_value(headers_of(text), seq![key]) is None);
}

/// Where the first header of the message id, the conversation or the delivery is missing, the
/// second one counts.
pub proof fn law_second_header_is_read(
    source: Seq<char>,
    folder: Option<Seq<char>>,
    size: i64,
    head: Seq<char>,
    name: Seq<char>,
    value: Seq<char>,
    tail: Seq<char>,
    n: int,
    key: Seq<char>,
    k: int,
    first: Seq<char>,
)
    requires
        one_header_in(head, name, value, tail, n, key),
        head_ends_at(text_with(head, name, value, tail), k),
        without_header(text_with(head, name, value, tail), k, first),
    ensures
        ({
            let m = rfc822_message(source, folder, text_with(head, name, value, tail), size);
            let v = trimmed(value);
            let said = if v.len() > 0 {
                Some(v)
            } else {
                None
            };
            &&& first == "message-id"@ && key == "message id"@ ==> m.internet_message_id == said
            &&& first == "thread-index"@ && key == "conversation-id"@ ==> m.conversation_id == said
            &&& first == "delivery-date"@ && key == "received"@ ==> m.received_at == said
        }),
{
    let text = text_with(head, name, value, tail);
    lemma_header_value(head, name, value, tail, n, key);
    lemma_no_value(text, k, first);
    lemma_trim_twice(value);
    let fields = headers_of(text);
    assert(seq![first, key].drop_first() =~= seq![key]);
    assert(first_value(fields, seq![key]) == value_of(fields, key));
    assert(first_value(fields, seq![first, key]) == value_of(fields, key));
}

/// A header that lists addresses, with a comma and a space between them, gives the message all of
/// them, in their order: `To` its recipients, `Cc` and `Bcc` those of the copies.
pub proof fn law_recipients_in_order(
    source: Seq<char>,
    folder: Option<Seq<char>>,
    size: i64,
    head: Seq<char>,
    name: Seq<char>,
    entries: Seq<Seq<char>>,
    tail: Seq<char>,
    n: int,
    key: Seq<char>,
)
    requires
        one_header_in(
            head,
            name,
            seq![' '] + join_with(entries, seq![',', ' ']),
            tail,
            n,
            key,
        ),
        entries.len() > 0,
        forall|i: int|
            0 <= i < entries.len() ==> lacks(#[trigger] entries[i], ',') && is_trim(entries[i])
                && address_in(entries[i]) is Some,
    ensures
        ({
            let value = seq![' '] + join_with(entries, seq![',', ' ']);
            let m = rfc822_message(source, folder, text_with(head, name, value, tail), size);
            let named = Seq::new(entries.len(), |i: int| address_in(entries[i])->0);
            &&& key == "to"@ ==> m.to == named
            &&& key == "cc"@ ==> m.cc == named
            &&& key == "bcc"@ ==> m.bcc == named
        }),
{
    let list = join_with(entries, seq![',', ' ']);
    let value = seq![' '] + list;
    law_header_is_read(source, folder, size, head, name, value, tail, n, key);
    law_list_keeps_order(entries);
    assert forall|i: int| 0 <= i < entries.len() implies (#[trigger] entries[i]).len() > 0 by {
        if entries[i].len() == 0 {
            law_bare_address(entries[i]);
        }
    }
    lemma_join_ends(entries, seq![',', ' ']);
    assert(value.drop_first() =~= list);
    assert(trim_start_of(value, CharClass::Space) == trim_start_of(list, CharClass::Space));
    assert(entries[0].len() > 0 && entries[entries.len() - 1].len() > 0);
    lemma_trim_keeps(list, CharClass::Space);
    assert(trimmed(value) == list);
    assert(address_list(list) =~= Seq::new(entries.len(), |i: int| address_in(entries[i])->0)) by {
        assert forall|i: int| 0 <= i < entries.len() implies address_list(list)[i] == (address_in(
            #[trigger] entries[i],
        )->0) by {}
    }
}

proof fn lemma_join_ends(parts: Seq<Seq<char>>, sep: Seq<char>)
    requires
        parts.len() > 0,
        forall|i: int| 0 <= i < parts.len() ==> (#[trigger] parts[i]).len() > 0,
    ensures
        join_with(parts, sep).len() > 0,
        join_with(parts, sep)[0] == parts[0][0],
        join_with(parts, sep).last() == parts.last().last(),
    decreases parts.len(),
{
    assert(parts[0].len() > 0);
    assert(parts[parts.len() - 1].len() > 0);
    if parts.len() > 1 {
        let front = parts.drop_last();
        assert forall|i: int| 0 <= i < front.len() implies (#[trigger] front[i]).len() > 0 by {
            assert(front[i] == parts[i]);
        }
        lemma_join_ends(front, sep);
    }
}

/// Two addresses in one header of recipients: both are read, in their order.
pub proof fn law_two_recipients(
    source: Seq<char>,
    folder: Option<Seq<char>>,
    size: i64,
    head: Seq<char>,
    name: Seq<char>,
    x: Seq<char>,
    y: Seq<char>,
    tail: Seq<char>,
    n: int,
    key: Seq<char>,
)
    requires
        one_header_in(head, name, seq![' '] + x + seq![',', ' '] + y, tail, n, key),
        lacks(x, ',') && is_trim(x) && address_in(x) is Some,
        lacks(y, ',') && is_trim(y) && address_in(y) is Some,
    ensures
        ({
            let value = seq![' '] + x + seq![',', ' '] + y;
            let m = rfc822_message(source, folder, text_with(head, name, value, tail), size);
            &&& key == "to"@ ==> m.to == seq![address_in(x)->0, address_in(y)->0]
            &&& key == "cc"@ ==> m.cc == seq![address_in(x)->0, address_in(y)->0]
            &&& key == "bcc"@ ==> m.bcc == seq![address_in(x)->0, address_in(y)->0]
        }),
{
    let entries = seq![x, y];
    assert(entries.drop_last() =~= seq![x]);
    assert(join_with(seq![x], seq![',', ' ']) == x);
    assert(join_with(entries, seq![',', ' ']) == x + seq![',', ' '] + y);
    assert(seq![' '] + join_with(entries, seq![',', ' ']) =~= seq![' '] + x + seq![',', ' '] + y);
    law_recipients_in_order(source, folder, size, head, name, entries, tail, n, key);
    assert(Seq::new(entries.len(), |i: int| address_in(entries[i])->0) =~= seq![
        address_in(x)->0,
        address_in(y)->0,
    ]);
}

/// A mail is known by its source, lies in its folder and has its size; a mark of an attachment
/// anywhere in its text, in upper or lower case, and nothing else, tells that it has one.
pub proof fn law_mail_tells_its_place(
    source: Seq<char>,
    folder: Option<Seq<char>>,
    size: i64,
    before: Seq<char>,
    mark: Seq<char>,
    after: Seq<char>,
)
    ensures
        ({
            let m = rfc822_message(source, folder, before + mark + after, size);
            &&& m.source_id == Some(source)
            &&& m.size_bytes == Some(size)
            &&& folder is None ==> m.folder_path is None
            &&& folder matches Some(f) ==> (if f.len() > 0 {
                m.folder_path == Some(f)
            } else {
                m.folder_path is None
            })
            &&& lower_text(mark) == "content-disposition: attachment"@ ==> m.has_attachments
            &&& m.has_attachments ==> exists|i: int|
                0 <= i && i + 31 <= (before + mark + after).len() && lower_text(
                    #[trigger] (before + mark + after).subrange(i, i + 31),
                ) == "content-disposition: attachment"@
        }),
{
    let text = before + mark + after;
    let want = "content-disposition: attachment"@;
    let m = rfc822_message(source, folder, text, size);
    if lower_text(mark) == want {
        assert(lower_text(text).subrange(
            before.len() as int,
            (before.len() + mark.len()) as int,
        ) =~= lower_text(mark));
        assert(occurs_at(lower_text(text), want, before.len() as int));
    }
    reveal_strlit("content-disposition: attachment");
    assert(want.len() == 31);
    if m.has_attachments {
        let i = choose|i: int| #[trigger] occurs_at(lower_text(text), want, i);
        assert(lower_text(text.subrange(i, i + 31)) =~= lower_text(text).subrange(i, i + 31));
    }
}

proof fn lemma_no_fields(st: HeaderState, lines: Seq<Seq<char>>, n: int)
    requires
        0 <= n <= lines.len(),
        n < lines.len() ==> bare_line(lines[n]).len() == 0,
        forall|i: int| 0 <= i < n ==> !starts_header(bare_line(#[trigger] lines[i])),
        st.fields.len() == 0,
        st.current is None,
    ensures
        header_lines(st, lines).fields.len() == 0,
    decreases lines.len(),
{
    if n > 0 && bare_line(lines[0]).len() > 0 {
        let line = bare_line(lines[0]);
        let rest = lines.drop_first();
        assert(!starts_header(line));
        lemma_has_colon(line);
        assert(header_line(st, line) == st);
        assert forall|i: int| 0 <= i < n - 1 implies !starts_header(
            bare_line(#[trigger] rest[i]),
        ) by {
            assert(rest[i] == lines[i + 1]);
        }
        if n < lines.len() {
            assert(rest[n - 1] == lines[n]);
        }
        lemma_no_fields(st, rest, n - 1);
    }
}

/// A mail none of whose first lines starts a header has no headers.
pub proof fn law_no_headers_to_keep(
    source: Seq<char>,
    folder: Option<Seq<char>>,
    size: i64,
    text: Seq<char>,
    n: int,
)
    requires
        head_ends_at(text, n),
        forall|i: int| 0 <= i < n ==> !starts_header(#[trigger] line_at(text, i)),
    ensures
        rfc822_message(source, folder, text, size).headers is None,
{
    let b = lines_of(text);
    assert forall|i: int| 0 <= i < n implies !starts_header(bare_line(#[trigger] b[i])) by {
        assert(!starts_header(line_at(text, i)));
    }
    lemma_no_fields(no_headers(), b, n);
}

/// One header more, of a key that the headers above it lack, is kept in one line more below them:
/// its key in lower case, a colon, a space and its value.
pub proof fn law_headers_are_kept_in_order(
    source: Seq<char>,
    folder: Option<Seq<char>>,
    size: i64,
    head: Seq<char>,
    name: Seq<char>,
    value: Seq<char>,
    key: Seq<char>,
)
    requires
        only_head(head),
        without_header(head, lines_of(head).len() as int, key),
        is_name_of(name, key),
        lacks(value, '\n'),
    ensures
        ({
            let line = key + seq![':', ' '] + trimmed(value);
            let above = rfc822_message(source, folder, head, size).headers;
            let all = rfc822_message(
                source,
                folder,
                text_with(head, name, value, Seq::empty()),
                size,
            ).headers;
            &&& above is None ==> all == Some(line)
            &&& above matches Some(h) ==> all == Some(h + seq!['\n'] + line)
        }),
{
    let line = name + seq![':'] + value;
    let a = lines_of(head);
    let one = seq![without_cr(line)];
    let text = text_with(head, name, value, Seq::empty());
    lemma_header_line(name, value, key);
    lemma_lines_cat(head, line + seq!['\n']);
    assert(text =~= head + (line + seq!['\n']));
    assert forall|i: int| 0 <= i < a.len() implies bare_line(#[trigger] a[i]).len() > 0 by {
        assert(line_at(head, i).len() > 0);
    }
    lemma_header_cat(no_headers(), a, one);
    lemma_no_value(head, a.len() as int, key);
    let st = header_lines(no_headers(), a);
    let next = header_line(st, bare_line(without_cr(line)));
    assert(one[0] == without_cr(line));
    assert(one.drop_first() =~= Seq::<Seq<char>>::empty());
    assert(header_lines(next, Seq::<Seq<char>>::empty()) == next);
    let f = headers_of(head);
    let field = (key, trimmed(value));
    assert(headers_of(text) == f.push(field));
    let show = |f: (Seq<char>, Seq<char>)| field_line(f);
    let parts = f.map_values(show);
    assert(f.push(field).map_values(show) =~= parts.push(field_line(field)));
    assert(parts.push(field_line(field)).drop_last() =~= parts);
    if f.len() > 0 {
        lemma_part_of_join(parts, seq!['\n'], 0);
        assert(parts[0] == field_line(f[0]));
        let at = choose|at: int| #[trigger] occurs_at(fields_text(f), parts[0], at);
        assert(fields_text(f).len() > 0);
    } else {
        assert(fields_text(f).len() == 0);
    }
}

/// The headers of a mail are kept, each in a line of its own.
pub proof fn law_headers_are_kept(
    source: Seq<char>,
    folder: Option<Seq<char>>,
    size: i64,
    head: Seq<char>,
    name: Seq<char>,
    value: Seq<char>,
    tail: Seq<char>,
    n: int,
    key: Seq<char>,
)
    requires
        one_header_in(head, name, value, tail, n, key),
    ensures
        ({
            let m = rfc822_message(source, folder, text_with(head, name, value, tail), size);
            m.headers matches Some(h) && has_text(
                h,
                key + seq![':', ' '] + trimmed(value),
            )
        }),
{
    let text = text_with(head, name, value, tail);
    let fields = headers_of(text);
    lemma_header_value(head, name, value, tail, n, key);
    lemma_key_at(fields, key);
    let i = key_at(fields, key)->0;
    let parts = fields.map_values(|f: (Seq<char>, Seq<char>)| field_line(f));
    assert(parts[i] == field_line(fields[i]));
    lemma_part_of_join(parts, seq!['\n'], i);
    let h = fields_text(fields);
    let at = choose|at: int| #[trigger] occurs_at(h, parts[i], at);
    assert(parts[i].len() >= 2);
}

pub proof fn lemma_part_of_join(parts: Seq<Seq<char>>, sep: Seq<char>, i: int)
    requires
        0 <= i < parts.len(),
    ensures
        has_text(join_with(parts, sep), parts[i]),
    decreases parts.len(),
{
    let all = join_with(parts, sep);
    if parts.len() == 1 {
        assert(all.subrange(0, all.len() as int) =~= all);
        assert(occurs_at(all, parts[i], 0));
    } else {
        let front = parts.drop_last();
        let before = join_with(front, sep) + sep;
        if i == parts.len() - 1 {
            let n = before.len() as int;
            assert(all.subrange(n, n + parts[i].len()) =~= parts[i]);
            assert(occurs_at(all, parts[i], n));
        } else {
            lemma_part_of_join(front, sep, i);
            assert(front[i] == parts[i]);
            let f = join_with(front, sep);
            let at = choose|at: int| #[trigger] occurs_at(f, parts[i], at);
            assert(all.subrange(at, at + parts[i].len()) =~= f.subrange(at, at + parts[i].len()));
            assert(occurs_at(all, parts[i], at));
        }
    }
}

} // verus!
