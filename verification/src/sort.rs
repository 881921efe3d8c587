//! Ordering texts, and sorting by an order.
use vstd::prelude::*;

use crate::lists::{lemma_map_multiset, lemma_push_contains};
use crate::text::{texts, to_chars};

verus! {

/// The order of texts, character by character; a text comes before its extensions.
pub open spec fn text_le(a: Seq<char>, b: Seq<char>) -> bool
    decreases a.len(),
{
    ||| a.len() == 0
    ||| b.len() > 0 && (a[0] < b[0] || a[0] == b[0] && text_le(a.drop_first(), b.drop_first()))
}

/// Of two texts, one is not after the other.
pub proof fn lemma_text_total(a: Seq<char>, b: Seq<char>)
    ensures
        text_le(a, b) || text_le(b, a),
    decreases a.len(),
{
    if a.len() > 0 && b.len() > 0 {
        lemma_text_total(a.drop_first(), b.drop_first());
    }
}

/// The order of texts is transitive.
pub proof fn lemma_text_transitive(a: Seq<char>, b: Seq<char>, c: Seq<char>)
    requires
        text_le(a, b),
        text_le(b, c),
    ensures
        text_le(a, c),
    decreases a.len(),
{
    if a.len() > 0 && b.len() > 0 && c.len() > 0 && a[0] == b[0] && b[0] == c[0] {
        lemma_text_transitive(a.drop_first(), b.drop_first(), c.drop_first());
    }
}

/// Two texts none of which is after the other are the same.
pub proof fn lemma_text_antisymmetric(a: Seq<char>, b: Seq<char>)
    requires
        text_le(a, b),
        text_le(b, a),
    ensures
        a == b,
    decreases a.len(),
{
    if a.len() > 0 && b.len() > 0 {
        lemma_text_antisymmetric(a.drop_first(), b.drop_first());
        assert(a == seq![a[0]] + a.drop_first());
        assert(b == seq![b[0]] + b.drop_first());
    } else {
        assert(a == b);
    }
}

proof fn lemma_text_le_at(a: Seq<char>, b: Seq<char>, i: int)
    requires
        0 <= i <= a.len(),
        i <= b.len(),
        forall|j: int| 0 <= j < i ==> #[trigger] a[j] == b[j],
    ensures
        text_le(a, b) == text_le(a.skip(i), b.skip(i)),
    decreases i,
{
    if i == 0 {
        assert(a.skip(0) == a);
        assert(b.skip(0) == b);
    } else {
        let x = a.drop_first();
        let y = b.drop_first();
        assert(a[0] == b[0]);
        assert forall|j: int| 0 <= j < i - 1 implies #[trigger] x[j] == y[j] by {
            assert(a[j + 1] == b[j + 1]);
        }
        lemma_text_le_at(x, y, i - 1);
        assert(x.skip(i - 1) == a.skip(i));
        assert(y.skip(i - 1) == b.skip(i));
    }
}

/// Decides `text_le`.
pub fn not_after(a: &str, b: &str) -> (r: bool)
    ensures
        r == text_le(a@, b@),
{
    let w = to_chars(b);
    let mut i: usize = 0;
    for c in it: a.chars()
        invariant
            it.seq() == a@,
            w@ == b@,
            i == it.index(),
            i <= w.len(),
            forall|j: int| 0 <= j < i ==> #[trigger] a@[j] == b@[j],
    {
        proof {
            lemma_text_le_at(a@, b@, i as int);
            assert(a@.skip(i as int)[0] == c);
        }
        if i >= w.len() {
            return false;
        }
        assert(b@.skip(i as int)[0] == w@[i as int]);
        if c < w[i] {
            return true;
        }
        if w[i] < c {
            return false;
        }
        i = i + 1;
    }
    proof {
        lemma_text_le_at(a@, b@, i as int);
    }
    true
}

/// Things that stand in an order: of two, one is not after the other, and the order is
/// transitive.
pub trait Ranked: Sized {
    /// The thing is not after the other.
    spec fn le(self, other: Self) -> bool;

    /// Of two things, one is not after the other.
    proof fn total(a: Self, b: Self)
        ensures
            a.le(b) || b.le(a),
    ;

    /// The order is transitive.
    proof fn transitive(a: Self, b: Self, c: Self)
        requires
            a.le(b),
            b.le(c),
        ensures
            a.le(c),
    ;

    /// Decides the order.
    fn is_le(&self, other: &Self) -> (r: bool)
        ensures
            r == self.le(*other),
    ;
}

/// No thing stands before one that it should follow.
pub open spec fn in_order<T: Ranked>(s: Seq<T>) -> bool {
    forall|i: int, j: int| 0 <= i < j < s.len() ==> (#[trigger] s[i]).le(#[trigger] s[j])
}

impl Ranked for String {
    open spec fn le(self, other: Self) -> bool {
        text_le(self@, other@)
    }

    proof fn total(a: Self, b: Self) {
        lemma_text_total(a@, b@);
    }

    proof fn transitive(a: Self, b: Self, c: Self) {
        lemma_text_transitive(a@, b@, c@);
    }

    fn is_le(&self, other: &Self) -> (r: bool) {
        not_after(self.as_str(), other.as_str())
    }
}

spec fn all_le<T: Ranked>(s: Seq<T>, x: T) -> bool {
    forall|i: int| 0 <= i < s.len() ==> (#[trigger] s[i]).le(x)
}

/// Takes out of two ordered lists, largest first.
fn merge_down<T: Ranked>(a: Vec<T>, b: Vec<T>) -> (r: Vec<T>)
    requires
        in_order(a@),
        in_order(b@),
    ensures
        r@.to_multiset() == a@.to_multiset().add(b@.to_multiset()),
        forall|i: int, j: int| 0 <= i < j < r@.len() ==> (#[trigger] r@[j]).le(#[trigger] r@[i]),
{
    broadcast use vstd::seq_lib::group_to_multiset_ensures;

    let mut x = a;
    let mut y = b;
    let mut out: Vec<T> = Vec::new();
    assert(out@.to_multiset().add(x@.to_multiset()).add(y@.to_multiset()) =~= a@.to_multiset().add(
        b@.to_multiset(),
    ));
    while x.len() > 0 || y.len() > 0
        invariant
            in_order(x@),
            in_order(y@),
            out@.to_multiset().add(x@.to_multiset()).add(y@.to_multiset()) == a@.to_multiset().add(
                b@.to_multiset(),
            ),
            forall|i: int, j: int|
                0 <= i < j < out@.len() ==> (#[trigger] out@[j]).le(#[trigger] out@[i]),
            forall|i: int| 0 <= i < out@.len() ==> all_le(x@, #[trigger] out@[i]),
            forall|i: int| 0 <= i < out@.len() ==> all_le(y@, #[trigger] out@[i]),
        decreases x.len() + y.len(),
    {
        broadcast use vstd::seq_lib::group_to_multiset_ensures;

        let ghost x0 = x@;
        let ghost y0 = y@;
        let ghost o0 = out@;
        let from_y = if x.len() == 0 {
            true
        } else if y.len() == 0 {
            false
        } else {
            x[x.len() - 1].is_le(&y[y.len() - 1])
        };
        if from_y {
            let t = y.pop().unwrap();
            assert(y0 == y@.push(t));
            assert forall|i: int| 0 <= i < x@.len() implies (#[trigger] x@[i]).le(t) by {
                T::total(x@.last(), x@.last());
                T::transitive(x@[i], x@.last(), t);
            }
            assert forall|i: int| 0 <= i < y@.len() implies (#[trigger] y@[i]).le(t) by {
                assert(y0[i].le(y0[y0.len() - 1]));
            }
            out.push(t);
            assert(all_le(x@, t));
            assert(all_le(y@, t));
            assert forall|i: int| 0 <= i < out@.len() implies all_le(y@, #[trigger] out@[i]) by {
                if i < o0.len() {
                    assert(all_le(y0, o0[i]));
                    assert forall|j: int| 0 <= j < y@.len() implies (#[trigger] y@[j]).le(
                        out@[i],
                    ) by {
                        assert(y0[j].le(o0[i]));
                    }
                }
            }
            assert forall|i: int, j: int| 0 <= i < j < out@.len() implies (#[trigger] out@[j]).le(
                #[trigger] out@[i],
            ) by {
                if j == o0.len() {
                    assert(all_le(y0, o0[i]));
                    assert(y0[y0.len() - 1].le(o0[i]));
                }
            }
            assert(out@.to_multiset().add(x@.to_multiset()).add(y@.to_multiset())
                =~= o0.to_multiset().add(x0.to_multiset()).add(y0.to_multiset()));
        } else {
            let t = x.pop().unwrap();
            assert(x0 == x@.push(t));
            assert forall|i: int| 0 <= i < y@.len() implies (#[trigger] y@[i]).le(t) by {
                T::total(t, y@.last());
                T::total(y@.last(), y@.last());
                T::transitive(y@[i], y@.last(), t);
            }
            assert forall|i: int| 0 <= i < x@.len() implies (#[trigger] x@[i]).le(t) by {
                assert(x0[i].le(x0[x0.len() - 1]));
            }
            out.push(t);
            assert(all_le(x@, t));
            assert(all_le(y@, t));
            assert forall|i: int| 0 <= i < out@.len() implies all_le(x@, #[trigger] out@[i]) by {
                if i < o0.len() {
                    assert(all_le(x0, o0[i]));
                    assert forall|j: int| 0 <= j < x@.len() implies (#[trigger] x@[j]).le(
                        out@[i],
                    ) by {
                        assert(x0[j].le(o0[i]));
                    }
                }
            }
            assert forall|i: int, j: int| 0 <= i < j < out@.len() implies (#[trigger] out@[j]).le(
                #[trigger] out@[i],
            ) by {
                if j == o0.len() {
                    assert(all_le(x0, o0[i]));
                    assert(x0[x0.len() - 1].le(o0[i]));
                }
            }
            assert(out@.to_multiset().add(x@.to_multiset()).add(y@.to_multiset())
                =~= o0.to_multiset().add(x0.to_multiset()).add(y0.to_multiset()));
        }
    }
    assert(out@.to_multiset().add(x@.to_multiset()).add(y@.to_multiset()) =~= out@.to_multiset());
    out
}

/// Turns a list around.
fn turn_around<T>(v: Vec<T>) -> (r: Vec<T>)
    ensures
        r@ == v@.reverse(),
{
    let mut x = v;
    let mut out: Vec<T> = Vec::new();
    while x.len() > 0
        invariant
            out@ + x@.reverse() == v@.reverse(),
        decreases x.len(),
    {
        let ghost x0 = x@;
        let ghost o0 = out@;
        let t = x.pop().unwrap();
        assert(x0.reverse() == seq![t] + x@.reverse());
        out.push(t);
        assert(out@ + x@.reverse() == o0 + x0.reverse());
    }
    assert(out@ + x@.reverse() == out@);
    out
}

/// Sorts a list: the result holds the same things, in order.
pub fn sort<T: Ranked>(v: Vec<T>) -> (r: Vec<T>)
    ensures
        r@.to_multiset() == v@.to_multiset(),
        r@.len() == v@.len(),
        in_order(r@),
    decreases v.len(),
{
    broadcast use vstd::seq_lib::group_to_multiset_ensures;

    if v.len() < 2 {
        return v;
    }
    let n = v.len() / 2;
    let mut lo = v;
    let hi = lo.split_off(n);
    let ghost lo0 = lo@;
    let ghost hi0 = hi@;
    proof {
        assert(v@ == lo0 + hi0);
        vstd::seq_lib::lemma_multiset_commutative(lo0, hi0);
    }
    let a = sort(lo);
    let b = sort(hi);
    let down = merge_down(a, b);
    let ghost d = down@;
    let r = turn_around(down);
    proof {
        d.lemma_reverse_to_multiset();
        assert(r@.len() == r@.to_multiset().len());
        assert(v@.len() == v@.to_multiset().len());
        assert(r@ == d.reverse());
        assert forall|i: int, j: int| 0 <= i < j < r@.len() implies (#[trigger] r@[i]).le(
            #[trigger] r@[j],
        ) by {
            assert(r@[i] == d[d.len() - 1 - i]);
            assert(r@[j] == d[d.len() - 1 - j]);
        }
    }
    r
}

/// Texts in order, none of them twice.
pub open spec fn strictly_ordered(s: Seq<Seq<char>>) -> bool {
    forall|i: int, j: int|
        0 <= i < j < s.len() ==> text_le(#[trigger] s[i], #[trigger] s[j]) && s[i] != s[j]
}

proof fn lemma_adjacent_equal(s: Seq<String>, i: int, j: int)
    requires
        in_order(s),
        0 <= i < j < s.len(),
        s[i]@ == s[j]@,
    ensures
        s[i]@ == s[i + 1]@,
{
    assert(s[i].le(s[i + 1]));
    if i + 1 < j {
        assert(s[i + 1].le(s[j]));
        lemma_text_antisymmetric(s[i]@, s[i + 1]@);
    }
}

/// Sorts texts and drops repetitions: the texts that occur, each once, in order.
pub fn sort_distinct(v: Vec<String>) -> (r: Vec<String>)
    ensures
        strictly_ordered(texts(r@)),
        forall|x: Seq<char>| #[trigger] texts(r@).contains(x) <==> texts(v@).contains(x),
{
    broadcast use vstd::seq_lib::group_to_multiset_ensures;

    let ghost want = texts(v@);
    let sorted = sort(v);
    proof {
        lemma_map_multiset(v@, sorted@, |s: String| s@);
        assert(texts(sorted@).to_multiset() == want.to_multiset());
        assert forall|x: Seq<char>| #[trigger] texts(sorted@).contains(x) <==> want.contains(
            x,
        ) by {
            assert(texts(sorted@).contains(x) <==> texts(sorted@).to_multiset().count(x) > 0);
            assert(want.contains(x) <==> want.to_multiset().count(x) > 0);
        }
    }
    let mut out: Vec<String> = Vec::new();
    let mut i: usize = 0;
    while i < sorted.len()
        invariant
            0 <= i <= sorted.len(),
            in_order(sorted@),
            strictly_ordered(texts(out@)),
            out.len() > 0 <==> i > 0,
            i > 0 ==> texts(out@).last() == sorted@[i - 1]@,
            forall|x: Seq<char>|
                #[trigger] texts(out@).contains(x) <==> texts(sorted@.take(i as int)).contains(x),
        decreases sorted.len() - i,
    {
        let ghost before = texts(out@);
        let ghost seen = texts(sorted@.take(i as int));
        let ghost next = texts(sorted@.take(i + 1));
        assert(next =~= seen.push(sorted@[i as int]@));
        if out.len() == 0 || out[out.len() - 1] != sorted[i] {
            assert(before.len() > 0 ==> before.last() == out@[out.len() - 1]@);
            let ghost added = sorted@[i as int]@;
            out.push(sorted[i].clone());
            assert(texts(out@) =~= before.push(added));
            assert forall|a: int, b: int| 0 <= a < b < texts(out@).len() implies text_le(
                #[trigger] texts(out@)[a],
                #[trigger] texts(out@)[b],
            ) && texts(out@)[a] != texts(out@)[b] by {
                if b == before.len() {
                    assert(before.contains(before[a]));
                    assert(seen.contains(before[a]));
                    let k = choose|k: int| 0 <= k < seen.len() && seen[k] == before[a];
                    assert(sorted@[k].le(sorted@[i as int]));
                    if before[a] == added {
                        assert(sorted@[k].le(sorted@[i - 1]) || k == i - 1);
                        assert(sorted@[i - 1].le(sorted@[i as int]));
                        if k < i - 1 {
                            lemma_text_antisymmetric(added, sorted@[i - 1]@);
                        }
                    }
                }
            }
            assert forall|x: Seq<char>| #[trigger] texts(out@).contains(x) <==> next.contains(
                x,
            ) by {
                lemma_push_contains(before, added, x);
                lemma_push_contains(seen, added, x);
                assert(before.contains(x) <==> seen.contains(x));
            }
        } else {
            assert(before.last() == out@[out.len() - 1]@);
            assert(sorted@[i as int]@ == before.last());
            assert(before.contains(before.last()));
            assert forall|x: Seq<char>| #[trigger] texts(out@).contains(x) <==> next.contains(
                x,
            ) by {
                lemma_push_contains(seen, sorted@[i as int]@, x);
                assert(before.contains(x) <==> seen.contains(x));
            }
        }
        i = i + 1;
    }
    assert(sorted@.take(i as int) =~= sorted@);
    out
}

/// Whether no text occurs twice.
pub fn all_distinct(v: Vec<String>) -> (r: bool)
    ensures
        r == texts(v@).no_duplicates(),
{
    let ghost want = texts(v@);
    let sorted = sort(v);
    proof {
        lemma_map_multiset(v@, sorted@, |s: String| s@);
        assert(texts(sorted@).to_multiset() == want.to_multiset());
    }
    let mut i: usize = 1;
    while i < sorted.len()
        invariant
            1 <= i,
            want == texts(v@),
            in_order(sorted@),
            texts(sorted@).to_multiset() == want.to_multiset(),
            forall|k: int| 0 <= k < i - 1 && k + 1 < sorted.len() ==> (#[trigger] sorted@[k])@
                != sorted@[k + 1]@,
        decreases sorted.len() - i,
    {
        if sorted[i - 1] == sorted[i] {
            proof {
                assert(texts(sorted@)[i - 1] == texts(sorted@)[i as int]);
                assert(!texts(sorted@).no_duplicates());
                if want.no_duplicates() {
                    want.lemma_multiset_has_no_duplicates();
                    texts(sorted@).lemma_multiset_has_no_duplicates_conv();
                }
            }
            return false;
        }
        i = i + 1;
    }
    proof {
        let t = texts(sorted@);
        assert forall|a: int, b: int| 0 <= a < t.len() && 0 <= b < t.len() && a != b implies t[a]
            != t[b] by {
            if t[a] == t[b] {
                let lo = if a < b {
                    a
                } else {
                    b
                };
                let hi = if a < b {
                    b
                } else {
                    a
                };
                lemma_adjacent_equal(sorted@, lo, hi);
                assert(sorted@[lo]@ != sorted@[lo + 1]@);
            }
        }
        assert(t.no_duplicates());
        t.lemma_multiset_has_no_duplicates();
        want.lemma_multiset_has_no_duplicates_conv();
    }
    true
}

impl Ranked for i64 {
    open spec fn le(self, other: Self) -> bool {
        self <= other
    }

    proof fn total(a: Self, b: Self) {
    }

    proof fn transitive(a: Self, b: Self, c: Self) {
    }

    fn is_le(&self, other: &Self) -> (r: bool) {
        *self <= *other
    }
}

/// How many numbers there are, each counted once.
pub fn count_distinct(v: Vec<i64>) -> (r: usize)
    ensures
        r == v@.to_set().len(),
        r <= v@.len(),
{
    broadcast use vstd::seq_lib::group_to_multiset_ensures;

    let ghost want = v@;
    let sorted = sort(v);
    let mut out: Vec<i64> = Vec::new();
    let mut i: usize = 0;
    while i < sorted.len()
        invariant
            0 <= i <= sorted.len(),
            in_order(sorted@),
            out@.len() <= i,
            out.len() > 0 <==> i > 0,
            i > 0 ==> out@.last() == sorted@[i - 1],
            forall|a: int, b: int| 0 <= a < b < out@.len() ==> (#[trigger] out@[a]) < (
            #[trigger] out@[b]),
            forall|x: i64| #[trigger] out@.contains(x) <==> sorted@.take(i as int).contains(x),
        decreases sorted.len() - i,
    {
        let ghost before = out@;
        let ghost seen = sorted@.take(i as int);
        let ghost x = sorted@[i as int];
        assert(sorted@.take(i + 1) =~= seen.push(x));
        if i > 0 {
            assert(sorted@[i - 1].le(sorted@[i as int]));
        }
        if out.len() == 0 || out[out.len() - 1] != sorted[i] {
            out.push(sorted[i]);
            assert forall|y: i64| #[trigger] out@.contains(y) <==> seen.push(x).contains(y) by {
                lemma_push_contains(before, x, y);
                lemma_push_contains(seen, x, y);
                assert(before.contains(y) <==> seen.contains(y));
            }
        } else {
            assert(before.contains(before.last()));
            assert forall|y: i64| #[trigger] out@.contains(y) <==> seen.push(x).contains(y) by {
                lemma_push_contains(seen, x, y);
                assert(before.contains(y) <==> seen.contains(y));
            }
        }
        i = i + 1;
    }
    proof {
        assert(sorted@.take(i as int) =~= sorted@);
        assert(out@.no_duplicates());
        out@.unique_seq_to_set();
        assert(out@.to_set() =~= want.to_set()) by {
            assert forall|x: i64| out@.to_set().contains(x) <==> want.to_set().contains(x) by {
                assert(out@.contains(x) <==> sorted@.contains(x));
                assert(sorted@.contains(x) <==> sorted@.to_multiset().count(x) > 0);
                assert(want.contains(x) <==> want.to_multiset().count(x) > 0);
            }
        }
    }
    out.len()
}

} // verus!
