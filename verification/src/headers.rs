//! Message headers and the key-value files of exported messages.
use vstd::prelude::*;

use crate::pieces::{join, join_with, lemma_find_at, lemma_lines_after, lines, lines_of, without_cr};
use crate::text::{
    lemma_trim_keeps, lower_text, opt_text, same_text, split_first, split_once, texts, to_chars,
    to_lower, trim, trim_end_class, trim_end_of, trimmed, CharClass,
};

verus! {

/// One header: a key and its value.
#[derive(Debug, PartialEq, Eq)]
pub struct Field {
    pub key: String,
    pub value: String,
}

impl View for Field {
    type V = (Seq<char>, Seq<char>);

    open spec fn view(&self) -> (Seq<char>, Seq<char>) {
        (self.key@, self.value@)
    }
}

/// Headers by key, in the order in which the keys came; no key occurs twice.
#[derive(Debug, PartialEq, Eq)]
pub struct Headers {
    pub fields: Vec<Field>,
}

/// The keys and values of some headers.
pub type FieldTexts = Seq<(Seq<char>, Seq<char>)>;

impl View for Headers {
    type V = FieldTexts;

    open spec fn view(&self) -> FieldTexts {
        self.fields@.map_values(|f: Field| f@)
    }
}

/// Where a key stands.
pub open spec fn key_at(fields: FieldTexts, key: Seq<char>) -> Option<int>
    decreases fields.len(),
{
    if fields.len() == 0 {
        None
    } else if fields[0].0 == key {
        Some(0)
    } else {
        match key_at(fields.drop_first(), key) {
            Some(i) => Some(i + 1),
            None => None,
        }
    }
}

/// The value of a key.
pub open spec fn value_of(fields: FieldTexts, key: Seq<char>) -> Option<Seq<char>> {
    match key_at(fields, key) {
        Some(i) => Some(fields[i].1),
        None => None,
    }
}

/// The fields with `value` as the value of `key`.
pub open spec fn with_value(fields: FieldTexts, key: Seq<char>, value: Seq<char>) -> FieldTexts {
    match key_at(fields, key) {
        Some(i) => fields.update(i, (key, value)),
        None => fields.push((key, value)),
    }
}

/// No key occurs twice.
pub open spec fn unique_keys(fields: FieldTexts) -> bool {
    forall|i: int, j: int|
        0 <= i < j < fields.len() ==> (#[trigger] fields[i]).0 != (#[trigger] fields[j]).0
}

/// `key_at` gives the first place of the key, if there is one.
pub proof fn lemma_key_at(fields: FieldTexts, key: Seq<char>)
    ensures
        match key_at(fields, key) {
            Some(i) => 0 <= i < fields.len() && fields[i].0 == key && forall|j: int|
                0 <= j < i ==> (#[trigger] fields[j]).0 != key,
            None => forall|j: int| 0 <= j < fields.len() ==> (#[trigger] fields[j]).0 != key,
        },
    decreases fields.len(),
{
    if fields.len() > 0 && fields[0].0 != key {
        let t = fields.drop_first();
        lemma_key_at(t, key);
        match key_at(t, key) {
            Some(i) => {
                assert(t[i] == fields[i + 1]);
                assert forall|j: int| 0 <= j < i + 1 implies (#[trigger] fields[j]).0 != key by {
                    if j > 0 {
                        assert(t[j - 1] == fields[j]);
                    }
                }
            },
            None => {
                assert forall|j: int| 0 <= j < fields.len() implies (#[trigger] fields[j]).0
                    != key by {
                    if j > 0 {
                        assert(t[j - 1] == fields[j]);
                    }
                }
            },
        }
    }
}

/// Giving a key a value keeps the keys apart, and the key then has that value.
pub proof fn lemma_with_value(fields: FieldTexts, key: Seq<char>, value: Seq<char>)
    requires
        unique_keys(fields),
    ensures
        unique_keys(with_value(fields, key, value)),
        value_of(with_value(fields, key, value), key) == Some(value),
{
    let after = with_value(fields, key, value);
    lemma_key_at(fields, key);
    lemma_key_at(after, key);
    let i = match key_at(fields, key) {
        Some(i) => i,
        None => fields.len() as int,
    };
    assert(after[i] == (key, value));
    assert(unique_keys(after));
    assert(key_at(after, key) == Some(i));
}

impl Headers {
    /// No headers.
    pub fn empty() -> (r: Headers)
        ensures
            r@ == FieldTexts::empty(),
    {
        let r = Headers { fields: Vec::new() };
        assert(r@ =~= FieldTexts::empty());
        r
    }

    fn position(&self, key: &str) -> (r: Option<usize>)
        ensures
            match r {
                Some(i) => key_at(self@, key@) == Some(i as int) && i < self.fields@.len(),
                None => key_at(self@, key@) is None,
            },
    {
        proof {
            lemma_key_at(self@, key@);
        }
        let mut i: usize = 0;
        while i < self.fields.len()
            invariant
                0 <= i <= self.fields.len(),
                self@.len() == self.fields.len(),
                forall|j: int| 0 <= j < i ==> (#[trigger] self@[j]).0 != key@,
                match key_at(self@, key@) {
                    Some(k) => i <= k < self@.len() && self@[k].0 == key@ && forall|j: int|
                        0 <= j < k ==> (#[trigger] self@[j]).0 != key@,
                    None => forall|j: int| 0 <= j < self@.len() ==> (#[trigger] self@[j]).0 != key@,
                },
            decreases self.fields.len() - i,
        {
            assert(self@[i as int] == self.fields@[i as int]@);
            if same_text(self.fields[i].key.as_str(), key) {
                return Some(i);
            }
            i = i + 1;
        }
        None
    }

    /// The value of a key.
    pub fn get(&self, key: &str) -> (r: Option<&String>)
        ensures
            match r {
                Some(v) => value_of(self@, key@) == Some(v@),
                None => value_of(self@, key@) is None,
            },
    {
        match self.position(key) {
            Some(i) => {
                assert(self@[i as int] == self.fields@[i as int]@);
                Some(&self.fields[i].value)
            },
            None => None,
        }
    }

    /// Gives a key a value.
    pub fn set(&mut self, key: String, value: String)
        ensures
            final(self)@ == with_value(old(self)@, key@, value@),
    {
        let ghost before = self@;
        match self.position(key.as_str()) {
            Some(i) => {
                let ghost f = Field { key, value };
                self.fields.set(i, Field { key, value });
                assert(self@ =~= before.update(i as int, f@));
            },
            None => {
                let ghost f = Field { key, value };
                self.fields.push(Field { key, value });
                assert(self@ =~= before.push(f@));
            },
        }
    }
}

// ---------------------------------------------------------------------------------------
// Reading headers
// ---------------------------------------------------------------------------------------

/// The headers read so far, and the key of the last one.
pub ghost struct HeaderState {
    pub fields: FieldTexts,
    pub current: Option<Seq<char>>,
}

/// Whether a line goes on with the header before it.
pub open spec fn is_folded(line: Seq<char>) -> bool {
    line.len() > 0 && (line[0] == ' ' || line[0] == '\t')
}

/// What one line adds to the headers. A folded line goes on with the value of the header
/// before it; a line with a colon is a header, whose value is put on a new line if its key
/// has a value already; any other line is passed over.
pub open spec fn header_line(st: HeaderState, line: Seq<char>) -> HeaderState {
    if is_folded(line) {
        match st.current {
            Some(key) => match value_of(st.fields, key) {
                Some(value) => HeaderState {
                    fields: with_value(st.fields, key, value + seq![' '] + trimmed(line)),
                    current: st.current,
                },
                None => HeaderState {
                    fields: with_value(st.fields, key, seq![' '] + trimmed(line)),
                    current: st.current,
                },
            },
            None => st,
        }
    } else {
        match split_first(line, ':') {
            Some((name, content)) => {
                let key = lower_text(trimmed(name));
                let value = match value_of(st.fields, key) {
                    Some(before) => before + seq!['\n'] + trimmed(content),
                    None => trimmed(content),
                };
                HeaderState { fields: with_value(st.fields, key, value), current: Some(key) }
            },
            None => st,
        }
    }
}

/// A line without carriage returns at its end.
pub open spec fn bare_line(raw: Seq<char>) -> Seq<char> {
    trim_end_of(raw, CharClass::Just('\r'))
}

/// What lines add to the headers: all of them up to the first blank one.
pub open spec fn header_lines(st: HeaderState, lines: Seq<Seq<char>>) -> HeaderState
    decreases lines.len(),
{
    if lines.len() == 0 || bare_line(lines[0]).len() == 0 {
        st
    } else {
        header_lines(header_line(st, bare_line(lines[0])), lines.drop_first())
    }
}

/// No headers read yet.
pub open spec fn no_headers() -> HeaderState {
    HeaderState { fields: FieldTexts::empty(), current: None }
}

/// The headers at the head of a message.
pub open spec fn headers_of(text: Seq<char>) -> FieldTexts {
    header_lines(no_headers(), lines_of(text)).fields
}

/// Reads the headers at the head of a message.
pub fn parse_headers(text: &str) -> (r: Headers)
    ensures
        r@ == headers_of(text@),
        unique_keys(r@),
{
    let all = lines(text);
    let mut headers = Headers::empty();
    let mut current: Option<String> = None;
    let mut i: usize = 0;
    let ghost want = header_lines(no_headers(), lines_of(text@));
    assert(texts(all@).skip(0) == lines_of(text@));
    while i < all.len()
        invariant
            0 <= i <= all.len(),
            unique_keys(headers@),
            header_lines(
                HeaderState { fields: headers@, current: opt_text(current) },
                texts(all@).skip(i as int),
            ) == want,
        ensures
            headers@ == want.fields,
            unique_keys(headers@),
        decreases all.len() - i,
    {
        let ghost st = HeaderState { fields: headers@, current: opt_text(current) };
        let ghost rest = texts(all@).skip(i as int);
        assert(rest[0] == all@[i as int]@);
        assert(rest.drop_first() == texts(all@).skip(i + 1));
        let line = trim_end_class(all[i].as_str(), CharClass::Just('\r'));
        if line.is_empty() {
            break;
        }
        let chars = to_chars(line);
        if chars[0] == ' ' || chars[0] == '\t' {
            if let Some(key) = &current {
                let mut value = match headers.get(key.as_str()) {
                    Some(v) => v.clone(),
                    None => String::new(),
                };
                value.push(' ');
                value.append(trim(line));
                proof {
                    lemma_with_value(headers@, key@, value@);
                    match value_of(st.fields, key@) {
                        Some(v) => {
                            assert(value@ == v + seq![' '] + trimmed(line@));
                        },
                        None => {
                            assert(value@ == seq![' '] + trimmed(line@));
                        },
                    }
                }
                headers.set(key.clone(), value);
            }
            assert(HeaderState { fields: headers@, current: opt_text(current) } == header_line(
                st,
                line@,
            ));
        } else {
            match split_once(line, ':') {
                Some((name, content)) => {
                    let key = to_lower(trim(name));
                    let value = match headers.get(key.as_str()) {
                        Some(v) => {
                            let mut value = v.clone();
                            value.push('\n');
                            value.append(trim(content));
                            assert(value@ == v@ + seq!['\n'] + trimmed(content@));
                            value
                        },
                        None => trim(content).to_owned(),
                    };
                    proof {
                        lemma_with_value(headers@, key@, value@);
                    }
                    headers.set(key.clone(), value);
                    current = Some(key);
                },
                None => {},
            }
            assert(HeaderState { fields: headers@, current: opt_text(current) } == header_line(
                st,
                line@,
            ));
        }
        i = i + 1;
    }
    headers
}

/// The keys of a list of key names.
pub open spec fn names(keys: Seq<&str>) -> Seq<Seq<char>> {
    keys.map_values(|k: &str| k@)
}

/// The value of the first of some keys that has one.
pub open spec fn first_value(fields: FieldTexts, keys: Seq<Seq<char>>) -> Option<Seq<char>>
    decreases keys.len(),
{
    if keys.len() == 0 {
        None
    } else {
        match value_of(fields, keys[0]) {
            Some(v) => Some(v),
            None => first_value(fields, keys.drop_first()),
        }
    }
}

/// A text without the space around it, unless nothing is left.
pub open spec fn filled(v: Option<Seq<char>>) -> Option<Seq<char>> {
    match v {
        Some(s) if trimmed(s).len() > 0 => Some(trimmed(s)),
        _ => None,
    }
}

/// The value of the first of some keys that is there, unless it is blank.
pub open spec fn header_among(fields: FieldTexts, keys: Seq<Seq<char>>) -> Option<Seq<char>> {
    filled(first_value(fields, keys))
}

/// Looks up the first of some keys that is there; `None` if none is or its value is blank.
pub fn first_header(headers: &Headers, keys: &[&str]) -> (r: Option<String>)
    ensures
        opt_text(r) == header_among(headers@, names(keys@)),
{
    let mut i: usize = 0;
    assert(names(keys@).skip(0) == names(keys@));
    while i < keys.len()
        invariant
            0 <= i <= keys.len(),
            first_value(headers@, names(keys@).skip(i as int)) == first_value(
                headers@,
                names(keys@),
            ),
        decreases keys.len() - i,
    {
        let ghost rest = names(keys@).skip(i as int);
        assert(rest[0] == keys@[i as int]@);
        assert(rest.drop_first() == names(keys@).skip(i + 1));
        if let Some(value) = headers.get(keys[i]) {
            let value = trim(value.as_str());
            if value.is_empty() {
                return None;
            }
            return Some(value.to_owned());
        }
        i = i + 1;
    }
    None
}

/// A header in one line.
pub open spec fn field_line(f: (Seq<char>, Seq<char>)) -> Seq<char> {
    f.0 + seq![':', ' '] + f.1
}

/// Headers in lines.
pub open spec fn fields_text(fields: FieldTexts) -> Seq<char> {
    join_with(fields.map_values(|f: (Seq<char>, Seq<char>)| field_line(f)), seq!['\n'])
}

/// Writes headers in lines.
pub fn header_text(headers: &Headers) -> (r: String)
    ensures
        r@ == fields_text(headers@),
{
    let mut parts: Vec<String> = Vec::new();
    let ghost want = headers@.map_values(|f: (Seq<char>, Seq<char>)| field_line(f));
    let mut i: usize = 0;
    while i < headers.fields.len()
        invariant
            0 <= i <= headers.fields.len(),
            want == headers@.map_values(|f: (Seq<char>, Seq<char>)| field_line(f)),
            want.len() == headers.fields.len(),
            texts(parts@) == want.take(i as int),
        decreases headers.fields.len() - i,
    {
        let ghost before = texts(parts@);
        let mut line = headers.fields[i].key.clone();
        line.push(':');
        line.push(' ');
        line.append(headers.fields[i].value.as_str());
        assert(line@ == field_line(headers.fields@[i as int]@));
        assert(want[i as int] == line@);
        parts.push(line);
        assert(texts(parts@) == before.push(want[i as int]));
        i = i + 1;
    }
    assert(want.take(i as int) == want);
    proof {
        reveal_strlit("\n");
        assert("\n"@ =~= seq!['\n']);
    }
    join(&parts, "\n")
}

// ---------------------------------------------------------------------------------------
// Key-value files
// ---------------------------------------------------------------------------------------

/// What one line adds to the keys of a key-value file: what is before the first colon is the
/// key, the rest its value; a line without a value is passed over.
pub open spec fn key_value_line(fields: FieldTexts, line: Seq<char>) -> FieldTexts {
    match split_first(line, ':') {
        Some((name, content)) => {
            if trimmed(content).len() > 0 {
                with_value(fields, lower_text(trimmed(name)), trimmed(content))
            } else {
                fields
            }
        },
        None => fields,
    }
}

/// What lines add to the keys of a key-value file; the last value of a key counts.
pub open spec fn key_value_lines(fields: FieldTexts, lines: Seq<Seq<char>>) -> FieldTexts
    decreases lines.len(),
{
    if lines.len() == 0 {
        fields
    } else {
        key_value_lines(key_value_line(fields, lines[0]), lines.drop_first())
    }
}

/// The keys and values of a key-value file.
pub open spec fn key_values_of(text: Seq<char>) -> FieldTexts {
    key_value_lines(FieldTexts::empty(), lines_of(text))
}

/// Reads a key-value file.
pub fn parse_pff_key_values(text: &str) -> (r: Headers)
    ensures
        r@ == key_values_of(text@),
        unique_keys(r@),
{
    let all = lines(text);
    let mut out = Headers::empty();
    let mut i: usize = 0;
    assert(texts(all@).skip(0) == lines_of(text@));
    while i < all.len()
        invariant
            0 <= i <= all.len(),
            unique_keys(out@),
            key_value_lines(out@, texts(all@).skip(i as int)) == key_values_of(text@),
        decreases all.len() - i,
    {
        let ghost rest = texts(all@).skip(i as int);
        assert(rest[0] == all@[i as int]@);
        assert(rest.drop_first() == texts(all@).skip(i + 1));
        if let Some((name, content)) = split_once(all[i].as_str(), ':') {
            let value = trim(content);
            if !value.is_empty() {
                let key = to_lower(trim(name));
                proof {
                    lemma_with_value(out@, key@, value@);
                }
                out.set(key, value.to_owned());
            }
        }
        i = i + 1;
    }
    assert(texts(all@).skip(i as int).len() == 0);
    out
}

proof fn lemma_blank_ends(st: HeaderState, a: Seq<Seq<char>>, blank: Seq<char>, b: Seq<Seq<char>>)
    requires
        bare_line(blank).len() == 0,
    ensures
        header_lines(st, a + seq![blank] + b) == header_lines(st, a + seq![blank]),
    decreases a.len(),
{
    let all = a + seq![blank] + b;
    let head = a + seq![blank];
    if a.len() == 0 {
        assert(all[0] == blank);
        assert(head[0] == blank);
    } else {
        assert(all[0] == a[0]);
        assert(head[0] == a[0]);
        assert(all.drop_first() =~= a.drop_first() + seq![blank] + b);
        assert(head.drop_first() =~= a.drop_first() + seq![blank]);
        if bare_line(a[0]).len() > 0 {
            lemma_blank_ends(header_line(st, bare_line(a[0])), a.drop_first(), blank, b);
        }
    }
}

/// What stands below the first blank line of a message is no header.
pub proof fn law_body_is_no_header(head: Seq<char>, body: Seq<char>)
    ensures
        headers_of(head + seq!['\n'] + seq!['\n'] + body) == headers_of(
            head + seq!['\n'] + seq!['\n'],
        ),
{
    let nl = seq!['\n'];
    let none = Seq::<char>::empty();
    lemma_lines_after(head + nl, body);
    lemma_lines_after(head, nl);
    lemma_find_at(none, '\n', none);
    assert(none + nl + none =~= nl);
    assert(lines_of(none) =~= Seq::empty());
    assert(without_cr(none) == none);
    assert(lines_of(nl) =~= seq![none]);
    lemma_trim_keeps(none, CharClass::Just('\r'));
    lemma_blank_ends(no_headers(), lines_of(head + nl), none, lines_of(body));
}

} // verus!
