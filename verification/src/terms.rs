//! Lists of terms, written with commas between them.
use vstd::prelude::*;

use crate::lists::{lemma_filter_none, lemma_filter_step};
use crate::pieces::{
    join_with, lemma_join_front, lemma_split_cons, lemma_split_single, split, split_on,
};
use crate::text::{
    find, lemma_find, lemma_trim_shape, lower, lower_text, texts, to_lower, trim, trimmed,
    CharClass,
};

verus! {

/// A term: without the space around it, in lower case.
pub open spec fn term_of(s: Seq<char>) -> Seq<char> {
    lower_text(trimmed(s))
}

/// The terms of a list; what is empty is no term.
pub open spec fn terms_of(list: Seq<char>) -> Seq<Seq<char>> {
    split_on(list, ',').map_values(|p: Seq<char>| term_of(p)).filter(|p: Seq<char>| p.len() > 0)
}

/// The terms of several lists, one list after the other.
pub open spec fn all_terms(lists: Seq<Seq<char>>) -> Seq<Seq<char>>
    decreases lists.len(),
{
    if lists.len() == 0 {
        Seq::empty()
    } else {
        all_terms(lists.drop_last()) + terms_of(lists.last())
    }
}

/// The terms of a list.
pub fn split_terms(value: &str) -> (r: Vec<String>)
    ensures
        texts(r@) == terms_of(value@),
{
    let parts = split(value, ',');
    let ghost all = split_on(value@, ',').map_values(|p: Seq<char>| term_of(p));
    let ghost keep = |p: Seq<char>| p.len() > 0;
    let mut r: Vec<String> = Vec::new();
    let mut i: usize = 0;
    proof {
        lemma_filter_none(all, keep);
        assert(texts(r@) =~= Seq::empty());
    }
    while i < parts.len()
        invariant
            texts(parts@) == split_on(value@, ','),
            all == split_on(value@, ',').map_values(|p: Seq<char>| term_of(p)),
            keep == (|p: Seq<char>| p.len() > 0),
            0 <= i <= parts.len(),
            texts(r@) == all.take(i as int).filter(keep),
        decreases parts.len() - i,
    {
        let ghost before = texts(r@);
        let term = to_lower(trim(parts[i].as_str()));
        proof {
            assert(texts(parts@)[i as int] == parts@[i as int]@);
            assert(all[i as int] == term@);
            lemma_filter_step(all, i as int, keep);
        }
        if !term.as_str().is_empty() {
            let ghost t = term@;
            r.push(term);
            assert(texts(r@) =~= before.push(t));
        }
        i = i + 1;
    }
    assert(texts(parts@).len() == parts@.len());
    assert(all.take(i as int) =~= all);
    r
}

/// The terms of several lists.
pub fn split_values(values: &Vec<String>) -> (r: Vec<String>)
    ensures
        texts(r@) == all_terms(texts(values@)),
{
    let ghost all = texts(values@);
    let mut r: Vec<String> = Vec::new();
    let mut i: usize = 0;
    assert(texts(r@) =~= Seq::empty());
    while i < values.len()
        invariant
            all == texts(values@),
            0 <= i <= values.len(),
            texts(r@) == all_terms(all.take(i as int)),
        decreases values.len() - i,
    {
        let ghost before = texts(r@);
        let mut terms = split_terms(values[i].as_str());
        let ghost added = texts(terms@);
        proof {
            assert(all.take(i + 1).drop_last() =~= all.take(i as int));
            assert(all.take(i + 1).last() == values@[i as int]@);
        }
        r.append(&mut terms);
        assert(texts(r@) =~= before + added);
        i = i + 1;
    }
    assert(all.take(i as int) =~= all);
    r
}

// ---------------------------------------------------------------------------------------
// Laws
// ---------------------------------------------------------------------------------------

/// Whether a character does not occur in a text.
spec fn free_of(s: Seq<char>, c: char) -> bool {
    forall|j: int| 0 <= j < s.len() ==> #[trigger] s[j] != c
}

proof fn lemma_pieces_free(s: Seq<char>, c: char, i: int)
    requires
        0 <= i < split_on(s, c).len(),
    ensures
        free_of(split_on(s, c)[i], c),
    decreases s.len(),
{
    lemma_find(s, c);
    if let Some(k) = find(s, c) {
        let a = s.take(k);
        let b = s.skip(k + 1);
        assert(split_on(s, c) == seq![a] + split_on(b, c));
        if i > 0 {
            lemma_pieces_free(b, c, i - 1);
            assert(split_on(s, c)[i] == split_on(b, c)[i - 1]);
        } else {
            assert(split_on(s, c)[0] == a);
            assert forall|j: int| 0 <= j < a.len() implies #[trigger] a[j] != c by {
                assert(a[j] == s[j]);
            }
        }
    } else {
        assert(split_on(s, c)[0] == s);
    }
}

proof fn lemma_term_free(s: Seq<char>)
    requires
        free_of(s, ','),
    ensures
        free_of(term_of(s), ','),
{
    let (lo, hi) = lemma_trim_shape(s, CharClass::Space);
    let t = trimmed(s);
    assert forall|j: int| 0 <= j < term_of(s).len() implies #[trigger] term_of(s)[j] != ',' by {
        assert(t[j] == s[lo + j]);
        assert(term_of(s)[j] == lower(t[j]));
    }
}

proof fn lemma_terms_free(list: Seq<char>, i: int)
    requires
        0 <= i < terms_of(list).len(),
    ensures
        free_of(terms_of(list)[i], ','),
{
    let pieces = split_on(list, ',');
    let all = pieces.map_values(|p: Seq<char>| term_of(p));
    let keep = |p: Seq<char>| p.len() > 0;
    let x = terms_of(list)[i];
    assert(all.filter(keep).contains(x));
    all.lemma_filter_contains_rev(keep, x);
    let k = choose|k: int| 0 <= k < all.len() && all[k] == x;
    lemma_pieces_free(list, ',', k);
    lemma_term_free(pieces[k]);
}

proof fn lemma_all_terms_free(lists: Seq<Seq<char>>, i: int)
    requires
        0 <= i < all_terms(lists).len(),
    ensures
        free_of(all_terms(lists)[i], ','),
    decreases lists.len(),
{
    if lists.len() > 0 {
        let before = all_terms(lists.drop_last());
        if i < before.len() {
            lemma_all_terms_free(lists.drop_last(), i);
        } else {
            lemma_terms_free(lists.last(), i - before.len());
        }
    }
}

proof fn lemma_split_joined(parts: Seq<Seq<char>>, c: char)
    requires
        parts.len() > 0,
        forall|i: int| 0 <= i < parts.len() ==> free_of(#[trigger] parts[i], c),
    ensures
        split_on(join_with(parts, seq![c]), c) == parts,
    decreases parts.len(),
{
    assert(free_of(parts[0], c));
    if parts.len() == 1 {
        lemma_split_single(parts[0], c);
        assert(parts =~= seq![parts[0]]);
    } else {
        let rest = parts.drop_first();
        assert forall|i: int| 0 <= i < rest.len() implies free_of(#[trigger] rest[i], c) by {
            assert(rest[i] == parts[i + 1]);
        }
        lemma_split_joined(rest, c);
        lemma_join_front(parts, seq![c]);
        lemma_split_cons(parts[0], c, join_with(rest, seq![c]));
        assert(parts =~= seq![parts[0]] + rest);
    }
}

/// Terms that were joined to one list are the terms of that list.
pub proof fn law_joined_terms(lists: Seq<Seq<char>>)
    requires
        all_terms(lists).len() > 0,
    ensures
        split_on(join_with(all_terms(lists), seq![',']), ',') == all_terms(lists),
{
    let t = all_terms(lists);
    assert forall|i: int| 0 <= i < t.len() implies free_of(#[trigger] t[i], ',') by {
        lemma_all_terms_free(lists, i);
    }
    lemma_split_joined(t, ',');
}

} // verus!
