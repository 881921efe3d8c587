//! Cutting a text into pieces and joining pieces into a text.
use vstd::prelude::*;

use crate::text::{contains_text, find, from_chars, has_text, lemma_find, same_text, texts};

verus! {

/// The pieces between the occurrences of `c`; there is always one piece more than there are
/// occurrences.
pub open spec fn split_on(s: Seq<char>, c: char) -> Seq<Seq<char>>
    decreases s.len(),
    via split_on_decreases
{
    match find(s, c) {
        Some(i) => seq![s.take(i)] + split_on(s.skip(i + 1), c),
        None => seq![s],
    }
}

#[via_fn]
proof fn split_on_decreases(s: Seq<char>, c: char) {
    lemma_find(s, c);
}

/// A line without the carriage return before its line feed.
pub open spec fn without_cr(line: Seq<char>) -> Seq<char> {
    if line.len() > 0 && line.last() == '\r' {
        line.drop_last()
    } else {
        line
    }
}

/// The lines of a text. A line ends at a line feed, with the carriage return before it if
/// there is one; the last line may lack its line feed.
pub open spec fn lines_of(s: Seq<char>) -> Seq<Seq<char>>
    decreases s.len(),
    via lines_of_decreases
{
    if s.len() == 0 {
        Seq::empty()
    } else {
        match find(s, '\n') {
            Some(i) => seq![without_cr(s.take(i))] + lines_of(s.skip(i + 1)),
            None => seq![s],
        }
    }
}

#[via_fn]
proof fn lines_of_decreases(s: Seq<char>) {
    lemma_find(s, '\n');
}

/// The pieces one after the other, with `sep` between them.
pub open spec fn join_with(parts: Seq<Seq<char>>, sep: Seq<char>) -> Seq<char>
    decreases parts.len(),
{
    if parts.len() == 0 {
        Seq::empty()
    } else if parts.len() == 1 {
        parts[0]
    } else {
        join_with(parts.drop_last(), sep) + sep + parts.last()
    }
}

/// The first `c` of a text that starts with a stretch free of `c`, followed by `c`.
pub proof fn lemma_find_at(a: Seq<char>, c: char, b: Seq<char>)
    requires
        forall|j: int| 0 <= j < a.len() ==> #[trigger] a[j] != c,
    ensures
        find(a + seq![c] + b, c) == Some(a.len() as int),
        (a + seq![c] + b).take(a.len() as int) == a,
        (a + seq![c] + b).skip(a.len() as int + 1) == b,
{
    let s = a + seq![c] + b;
    lemma_find(s, c);
    assert(s[a.len() as int] == c);
    assert forall|j: int| 0 <= j < a.len() implies #[trigger] s[j] != c by {
        assert(s[j] == a[j]);
    }
    assert(s.take(a.len() as int) == a);
    assert(s.skip(a.len() as int + 1) == b);
}

/// A stretch free of `c`, then `c`, then more: the stretch is the first piece.
pub proof fn lemma_split_cons(a: Seq<char>, c: char, b: Seq<char>)
    requires
        forall|j: int| 0 <= j < a.len() ==> #[trigger] a[j] != c,
    ensures
        split_on(a + seq![c] + b, c) == seq![a] + split_on(b, c),
{
    lemma_find_at(a, c, b);
}

/// A text free of `c` is its only piece.
pub proof fn lemma_split_single(a: Seq<char>, c: char)
    requires
        forall|j: int| 0 <= j < a.len() ==> #[trigger] a[j] != c,
    ensures
        split_on(a, c) == seq![a],
{
    lemma_find(a, c);
}

/// Computes `split_on`.
pub fn split(s: &str, c: char) -> (r: Vec<String>)
    ensures
        texts(r@) == split_on(s@, c),
{
    let mut out: Vec<String> = Vec::new();
    let mut cur: Vec<char> = Vec::new();
    assert(cur@ + s@.skip(0) == s@);
    assert(texts(out@) + split_on(s@, c) == split_on(s@, c));
    for d in it: s.chars()
        invariant
            it.seq() == s@,
            forall|j: int| 0 <= j < cur.len() ==> #[trigger] cur@[j] != c,
            texts(out@) + split_on(cur@ + s@.skip(it.index() as int), c) == split_on(s@, c),
    {
        let ghost i = it.index() as int;
        let ghost before = out@;
        assert(s@.skip(i) == seq![d] + s@.skip(i + 1));
        if d == c {
            proof {
                lemma_split_cons(cur@, c, s@.skip(i + 1));
                assert(cur@ + s@.skip(i) == cur@ + seq![c] + s@.skip(i + 1));
            }
            let ghost piece = cur@;
            out.push(from_chars(&cur));
            cur = Vec::new();
            assert(texts(out@) == texts(before) + seq![piece]);
            assert(cur@ + s@.skip(i + 1) == s@.skip(i + 1));
            assert(texts(out@) + split_on(s@.skip(i + 1), c) == texts(before) + (seq![piece]
                + split_on(s@.skip(i + 1), c)));
        } else {
            assert(cur@ + s@.skip(i) == cur@.push(d) + s@.skip(i + 1));
            cur.push(d);
        }
    }
    assert(cur@ + s@.skip(s@.len() as int) == cur@);
    proof {
        lemma_split_single(cur@, c);
    }
    let ghost before = out@;
    out.push(from_chars(&cur));
    assert(texts(out@) == texts(before) + seq![cur@]);
    out
}

/// Computes `lines_of`.
pub fn lines(s: &str) -> (r: Vec<String>)
    ensures
        texts(r@) == lines_of(s@),
{
    let mut out: Vec<String> = Vec::new();
    let mut cur: Vec<char> = Vec::new();
    assert(cur@ + s@.skip(0) == s@);
    assert(texts(out@) + lines_of(s@) == lines_of(s@));
    for d in it: s.chars()
        invariant
            it.seq() == s@,
            forall|j: int| 0 <= j < cur.len() ==> #[trigger] cur@[j] != '\n',
            texts(out@) + lines_of(cur@ + s@.skip(it.index() as int)) == lines_of(s@),
    {
        let ghost i = it.index() as int;
        let ghost before = out@;
        let ghost rest = s@.skip(i + 1);
        assert(s@.skip(i) == seq![d] + rest);
        if d == '\n' {
            proof {
                lemma_find_at(cur@, '\n', rest);
                assert(cur@ + s@.skip(i) == cur@ + seq!['\n'] + rest);
            }
            let ghost piece = without_cr(cur@);
            if cur.len() > 0 && cur[cur.len() - 1] == '\r' {
                cur.pop();
            }
            assert(cur@ == piece);
            out.push(from_chars(&cur));
            cur = Vec::new();
            assert(texts(out@) == texts(before) + seq![piece]);
            assert(cur@ + rest == rest);
            assert(texts(out@) + lines_of(rest) == texts(before) + (seq![piece] + lines_of(rest)));
        } else {
            assert(cur@ + s@.skip(i) == cur@.push(d) + rest);
            cur.push(d);
        }
    }
    assert(cur@ + s@.skip(s@.len() as int) == cur@);
    proof {
        lemma_find(cur@, '\n');
    }
    if cur.len() > 0 {
        let ghost before = out@;
        out.push(from_chars(&cur));
        assert(texts(out@) == texts(before) + seq![cur@]);
    }
    out
}

/// Computes `join_with`.
pub fn join(parts: &Vec<String>, sep: &str) -> (r: String)
    ensures
        r@ == join_with(texts(parts@), sep@),
{
    let mut out = String::new();
    let mut i: usize = 0;
    while i < parts.len()
        invariant
            0 <= i <= parts.len(),
            out@ == join_with(texts(parts@).take(i as int), sep@),
        decreases parts.len() - i,
    {
        let ghost next = texts(parts@).take(i + 1);
        if i > 0 {
            out.append(sep);
        }
        out.append(parts[i].as_str());
        assert(next.drop_last() == texts(parts@).take(i as int));
        assert(next.last() == parts@[i as int]@);
        i = i + 1;
    }
    assert(texts(parts@).take(i as int) == texts(parts@));
    out
}

/// Whether a text contains one of the terms.
pub open spec fn has_any(x: Seq<char>, terms: Seq<Seq<char>>) -> bool {
    exists|i: int| 0 <= i < terms.len() && has_text(x, #[trigger] terms[i])
}

/// Decides `has_any`.
pub fn contains_any(x: &str, terms: &Vec<String>) -> (r: bool)
    ensures
        r == has_any(x@, texts(terms@)),
{
    let ghost t = texts(terms@);
    let mut i: usize = 0;
    while i < terms.len()
        invariant
            0 <= i <= terms.len(),
            t == texts(terms@),
            forall|j: int| 0 <= j < i ==> !has_text(x@, #[trigger] t[j]),
        decreases terms.len() - i,
    {
        assert(t[i as int] == terms@[i as int]@);
        if contains_text(x, terms[i].as_str()) {
            return true;
        }
        i = i + 1;
    }
    false
}

/// Decides whether a text is one of a list.
pub fn is_one_of(x: &str, list: &Vec<String>) -> (r: bool)
    ensures
        r == texts(list@).contains(x@),
{
    let ghost t = texts(list@);
    let mut i: usize = 0;
    while i < list.len()
        invariant
            0 <= i <= list.len(),
            t == texts(list@),
            forall|j: int| 0 <= j < i ==> #[trigger] t[j] != x@,
        decreases list.len() - i,
    {
        assert(t[i as int] == list@[i as int]@);
        if same_text(list[i].as_str(), x) {
            return true;
        }
        i = i + 1;
    }
    false
}

/// Joining starts with the first piece.
pub proof fn lemma_join_front(parts: Seq<Seq<char>>, sep: Seq<char>)
    requires
        parts.len() > 1,
    ensures
        join_with(parts, sep) == parts[0] + sep + join_with(parts.drop_first(), sep),
    decreases parts.len(),
{
    if parts.len() == 2 {
        assert(parts.drop_last() == seq![parts[0]]);
        assert(parts.drop_first() == seq![parts[1]]);
        assert(join_with(parts.drop_last(), sep) == parts[0]);
        assert(join_with(parts.drop_first(), sep) == parts[1]);
    } else {
        let init = parts.drop_last();
        lemma_join_front(init, sep);
        assert(init.drop_first() == parts.drop_first().drop_last());
        assert(parts.drop_first().last() == parts.last());
        let mid = join_with(init.drop_first(), sep);
        assert(join_with(parts, sep) == join_with(init, sep) + sep + parts.last());
        assert(join_with(parts.drop_first(), sep) == mid + sep + parts.last());
        assert(parts[0] + sep + mid + sep + parts.last() == parts[0] + sep + (mid + sep
            + parts.last()));
    }
}

/// The lines of a text that goes on after a line feed.
pub proof fn lemma_lines_after(x: Seq<char>, y: Seq<char>)
    ensures
        lines_of(x + seq!['\n'] + y) == lines_of(x + seq!['\n']) + lines_of(y),
    decreases x.len(),
{
    let nl = seq!['\n'];
    let none = Seq::<char>::empty();
    lemma_find(x, '\n');
    match find(x, '\n') {
        Some(i) => {
            let a = x.take(i);
            let b = x.skip(i + 1);
            assert forall|j: int| 0 <= j < a.len() implies #[trigger] a[j] != '\n' by {
                assert(a[j] == x[j]);
            }
            assert(x + nl + y =~= a + nl + (b + nl + y));
            assert(x + nl =~= a + nl + (b + nl));
            lemma_find_at(a, '\n', b + nl + y);
            lemma_find_at(a, '\n', b + nl);
            lemma_lines_after(b, y);
            let first = seq![without_cr(a)];
            assert(first + (lines_of(b + nl) + lines_of(y)) =~= first + lines_of(b + nl)
                + lines_of(y));
        },
        None => {
            lemma_find_at(x, '\n', y);
            lemma_find_at(x, '\n', none);
            assert(x + nl + none =~= x + nl);
            assert(lines_of(none) =~= Seq::empty());
            assert(seq![without_cr(x)] + Seq::<Seq<char>>::empty() =~= seq![without_cr(x)]);
        },
    }
}

} // verus!
