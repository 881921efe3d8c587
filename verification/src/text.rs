//! Text primitives.
//!
//! A text is modelled by the sequence of its characters. The specifications below say what
//! each primitive means on such sequences; the executable functions compute the same on `&str`.
use vstd::prelude::*;

verus! {

/// `String::push` appends one character at the end.
pub assume_specification[ String::push ](s: &mut String, c: char)
    ensures
        final(s)@ == old(s)@.push(c),
;

/// The texts held by a sequence of strings.
pub open spec fn texts(v: Seq<String>) -> Seq<Seq<char>> {
    v.map_values(|s: String| s@)
}

/// The text held by an optional string.
pub open spec fn opt_text(v: Option<String>) -> Option<Seq<char>> {
    match v {
        Some(s) => Some(s@),
        None => None,
    }
}

/// The text held by an optional string slice.
pub open spec fn opt_str(v: Option<&str>) -> Option<Seq<char>> {
    match v {
        Some(s) => Some(s@),
        None => None,
    }
}

// ---------------------------------------------------------------------------------------
// Characters
// ---------------------------------------------------------------------------------------

/// The characters with the Unicode property `White_Space`.
pub open spec fn is_space(c: char) -> bool {
    let n = c as u32;
    ||| 0x9 <= n <= 0xd
    ||| n == 0x20
    ||| n == 0x85
    ||| n == 0xa0
    ||| n == 0x1680
    ||| 0x2000 <= n <= 0x200a
    ||| n == 0x2028
    ||| n == 0x2029
    ||| n == 0x202f
    ||| n == 0x205f
    ||| n == 0x3000
}

/// Decides `is_space`.
pub fn is_space_char(c: char) -> (r: bool)
    ensures
        r == is_space(c),
{
    let n: u32 = c as u32;
    (0x9 <= n && n <= 0xd) || n == 0x20 || n == 0x85 || n == 0xa0 || n == 0x1680 || (0x2000 <= n
        && n <= 0x200a) || n == 0x2028 || n == 0x2029 || n == 0x202f || n == 0x205f || n == 0x3000
}

/// ASCII upper-case letters become lower-case; every other character is kept.
pub open spec fn lower(c: char) -> char {
    if 'A' <= c && c <= 'Z' {
        ((c as u32 + 32) as u32) as char
    } else {
        c
    }
}

/// ASCII lower-case letters become upper-case; every other character is kept.
pub open spec fn upper(c: char) -> char {
    if 'a' <= c && c <= 'z' {
        ((c as u32 - 32) as u32) as char
    } else {
        c
    }
}

/// Computes `lower`.
pub fn lower_char(c: char) -> (r: char)
    ensures
        r == lower(c),
{
    if 'A' <= c && c <= 'Z' {
        let code: u8 = c as u8;
        (code + 32) as char
    } else {
        c
    }
}

/// Computes `upper`.
pub fn upper_char(c: char) -> (r: char)
    ensures
        r == upper(c),
{
    if 'a' <= c && c <= 'z' {
        let code: u8 = c as u8;
        (code - 32) as char
    } else {
        c
    }
}

/// A set of characters that can be stripped off the ends of a text.
#[derive(Clone, Copy)]
pub enum CharClass {
    /// White space.
    Space,
    /// The marks that mail programs put around an address: angle brackets and quotes.
    Wrapping,
    /// One character.
    Just(char),
}

impl CharClass {
    /// Membership in the class.
    pub open spec fn has(self, c: char) -> bool {
        match self {
            CharClass::Space => is_space(c),
            CharClass::Wrapping => c == '<' || c == '>' || c == '"' || c == '\'',
            CharClass::Just(d) => c == d,
        }
    }

    /// Decides membership in the class.
    pub fn has_char(self, c: char) -> (r: bool)
        ensures
            r == self.has(c),
    {
        match self {
            CharClass::Space => is_space_char(c),
            CharClass::Wrapping => c == '<' || c == '>' || c == '"' || c == '\'',
            CharClass::Just(d) => c == d,
        }
    }
}

// ---------------------------------------------------------------------------------------
// Conversion
// ---------------------------------------------------------------------------------------

/// The characters of a text.
pub fn to_chars(s: &str) -> (r: Vec<char>)
    ensures
        r@ == s@,
{
    let mut out: Vec<char> = Vec::new();
    for c in it: s.chars()
        invariant
            it.seq() == s@,
            out@ == s@.take(it.index() as int),
    {
        out.push(c);
    }
    out
}

/// The text made of some characters.
pub fn from_chars(v: &Vec<char>) -> (r: String)
    ensures
        r@ == v@,
{
    let mut out = String::new();
    for i in 0..v.len()
        invariant
            out@ == v@.take(i as int),
    {
        out.push(v[i]);
    }
    assert(v@.take(v@.len() as int) == v@);
    out
}

/// Whether two texts are the same.
pub fn same_text(a: &str, b: &str) -> (r: bool)
    ensures
        r == (a@ == b@),
{
    let w = to_chars(b);
    let mut i: usize = 0;
    for c in it: a.chars()
        invariant
            it.seq() == a@,
            w@ == b@,
            i == it.index(),
            i <= w.len(),
            forall|j: int| 0 <= j < i ==> a@[j] == #[trigger] w@[j],
    {
        if i >= w.len() || w[i] != c {
            assert(a@[it.index() as int] == c);
            return false;
        }
        i = i + 1;
    }
    assert(i == w.len() ==> a@ == b@);
    i == w.len()
}

/// Each character lower-cased.
pub open spec fn lower_text(s: Seq<char>) -> Seq<char> {
    s.map_values(|c: char| lower(c))
}

/// Each character upper-cased.
pub open spec fn upper_text(s: Seq<char>) -> Seq<char> {
    s.map_values(|c: char| upper(c))
}

/// Computes `lower_text`.
pub fn to_lower(s: &str) -> (r: String)
    ensures
        r@ == lower_text(s@),
{
    let mut out = String::new();
    for c in it: s.chars()
        invariant
            it.seq() == s@,
            out@ == lower_text(s@.take(it.index() as int)),
    {
        out.push(lower_char(c));
        assert(s@.take(it.index() + 1) == s@.take(it.index() as int).push(c));
    }
    assert(s@.take(s@.len() as int) == s@);
    out
}

/// Computes `upper_text`.
pub fn to_upper(s: &str) -> (r: String)
    ensures
        r@ == upper_text(s@),
{
    let mut out = String::new();
    for c in it: s.chars()
        invariant
            it.seq() == s@,
            out@ == upper_text(s@.take(it.index() as int)),
    {
        out.push(upper_char(c));
        assert(s@.take(it.index() + 1) == s@.take(it.index() as int).push(c));
    }
    assert(s@.take(s@.len() as int) == s@);
    out
}

// ---------------------------------------------------------------------------------------
// Trimming
// ---------------------------------------------------------------------------------------

/// The text without the longest prefix made of characters of the class.
pub open spec fn trim_start_of(s: Seq<char>, k: CharClass) -> Seq<char>
    decreases s.len(),
{
    if s.len() > 0 && k.has(s[0]) {
        trim_start_of(s.drop_first(), k)
    } else {
        s
    }
}

/// The text without the longest suffix made of characters of the class.
pub open spec fn trim_end_of(s: Seq<char>, k: CharClass) -> Seq<char>
    decreases s.len(),
{
    if s.len() > 0 && k.has(s.last()) {
        trim_end_of(s.drop_last(), k)
    } else {
        s
    }
}

/// The text without the characters of the class at both ends.
pub open spec fn trim_of(s: Seq<char>, k: CharClass) -> Seq<char> {
    trim_end_of(trim_start_of(s, k), k)
}

/// The text without white space at both ends.
pub open spec fn trimmed(s: Seq<char>) -> Seq<char> {
    trim_of(s, CharClass::Space)
}

proof fn lemma_trim_start(s: Seq<char>, k: CharClass, lo: int)
    requires
        0 <= lo <= s.len(),
        forall|i: int| 0 <= i < lo ==> k.has(#[trigger] s[i]),
        lo < s.len() ==> !k.has(s[lo]),
    ensures
        trim_start_of(s, k) == s.skip(lo),
    decreases lo,
{
    if lo == 0 {
        assert(s.skip(0) == s);
    } else {
        let t = s.drop_first();
        assert(k.has(s[0]));
        assert forall|i: int| 0 <= i < lo - 1 implies k.has(#[trigger] t[i]) by {
            assert(t[i] == s[i + 1]);
        }
        lemma_trim_start(t, k, lo - 1);
        assert(t.skip(lo - 1) == s.skip(lo));
    }
}

proof fn lemma_trim_end(s: Seq<char>, k: CharClass, hi: int)
    requires
        0 <= hi <= s.len(),
        forall|i: int| hi <= i < s.len() ==> k.has(#[trigger] s[i]),
        hi > 0 ==> !k.has(s[hi - 1]),
    ensures
        trim_end_of(s, k) == s.take(hi),
    decreases s.len(),
{
    if hi == s.len() {
        assert(s.take(hi) == s);
    } else {
        let t = s.drop_last();
        assert(k.has(s.last()));
        assert forall|i: int| hi <= i < t.len() implies k.has(#[trigger] t[i]) by {
            assert(t[i] == s[i]);
        }
        lemma_trim_end(t, k, hi);
        assert(t.take(hi) == s.take(hi));
    }
}

/// A text none of whose ends is in the class is left as it is.
pub proof fn lemma_trim_keeps(s: Seq<char>, k: CharClass)
    requires
        s.len() > 0 ==> !k.has(s[0]) && !k.has(s.last()),
    ensures
        trim_start_of(s, k) == s,
        trim_end_of(s, k) == s,
        trim_of(s, k) == s,
{
}

/// What is left after trimming is a stretch of the text, starts and ends outside of the
/// class, and only characters of the class were cut off.
pub proof fn lemma_trim_shape(s: Seq<char>, k: CharClass) -> (r: (int, int))
    ensures
        0 <= r.0 <= r.1 <= s.len(),
        trim_of(s, k) == s.subrange(r.0, r.1),
        r.0 < r.1 ==> !k.has(s[r.0]) && !k.has(s[r.1 - 1]),
        forall|i: int| 0 <= i < r.0 || r.1 <= i < s.len() ==> k.has(#[trigger] s[i]),
{
    let lo = lemma_trim_start_shape(s, k);
    let t = s.skip(lo);
    let hi = lemma_trim_end_shape(t, k);
    assert(t.take(hi) == s.subrange(lo, lo + hi));
    assert forall|i: int| 0 <= i < lo || lo + hi <= i < s.len() implies k.has(#[trigger] s[i]) by {
        if i >= lo {
            assert(t[i - lo] == s[i]);
        }
    }
    if hi > 0 {
        assert(t[hi - 1] == s[lo + hi - 1]);
        assert(t[0] == s[lo]);
    }
    (lo, lo + hi)
}

/// The start of what `trim_start_of` leaves.
pub proof fn lemma_trim_start_shape(s: Seq<char>, k: CharClass) -> (lo: int)
    ensures
        0 <= lo <= s.len(),
        trim_start_of(s, k) == s.skip(lo),
        lo < s.len() ==> !k.has(s[lo]),
        forall|i: int| 0 <= i < lo ==> k.has(#[trigger] s[i]),
    decreases s.len(),
{
    if s.len() > 0 && k.has(s[0]) {
        let t = s.drop_first();
        let lo = lemma_trim_start_shape(t, k);
        assert(t.skip(lo) == s.skip(lo + 1));
        assert forall|i: int| 0 <= i < lo + 1 implies k.has(#[trigger] s[i]) by {
            if i > 0 {
                assert(t[i - 1] == s[i]);
            }
        }
        lo + 1
    } else {
        assert(s.skip(0) == s);
        0
    }
}

/// The end of what `trim_end_of` leaves.
pub proof fn lemma_trim_end_shape(s: Seq<char>, k: CharClass) -> (hi: int)
    ensures
        0 <= hi <= s.len(),
        trim_end_of(s, k) == s.take(hi),
        hi > 0 ==> !k.has(s[hi - 1]),
        forall|i: int| hi <= i < s.len() ==> k.has(#[trigger] s[i]),
    decreases s.len(),
{
    if s.len() > 0 && k.has(s.last()) {
        let t = s.drop_last();
        let hi = lemma_trim_end_shape(t, k);
        assert(t.take(hi) == s.take(hi));
        assert forall|i: int| hi <= i < s.len() implies k.has(#[trigger] s[i]) by {
            if i < t.len() {
                assert(t[i] == s[i]);
            }
        }
        hi
    } else {
        assert(s.take(s.len() as int) == s);
        s.len() as int
    }
}

/// Computes `trim_start_of`.
pub fn trim_start_class(s: &str, k: CharClass) -> (r: &str)
    ensures
        r@ == trim_start_of(s@, k),
{
    let v = to_chars(s);
    let mut lo: usize = 0;
    while lo < v.len() && k.has_char(v[lo])
        invariant
            v@ == s@,
            0 <= lo <= v.len(),
            forall|i: int| 0 <= i < lo ==> k.has(#[trigger] v@[i]),
        decreases v.len() - lo,
    {
        lo = lo + 1;
    }
    proof {
        lemma_trim_start(s@, k, lo as int);
        assert(s@.skip(lo as int) == s@.subrange(lo as int, v.len() as int));
    }
    s.substring_char(lo, v.len())
}

/// Computes `trim_end_of`.
pub fn trim_end_class(s: &str, k: CharClass) -> (r: &str)
    ensures
        r@ == trim_end_of(s@, k),
{
    let v = to_chars(s);
    let mut hi: usize = v.len();
    while hi > 0 && k.has_char(v[hi - 1])
        invariant
            v@ == s@,
            0 <= hi <= v.len(),
            forall|i: int| hi <= i < v.len() ==> k.has(#[trigger] v@[i]),
        decreases hi,
    {
        hi = hi - 1;
    }
    proof {
        lemma_trim_end(s@, k, hi as int);
        assert(s@.take(hi as int) == s@.subrange(0, hi as int));
    }
    s.substring_char(0, hi)
}

/// Computes `trim_of`.
pub fn trim_class(s: &str, k: CharClass) -> (r: &str)
    ensures
        r@ == trim_of(s@, k),
{
    trim_end_class(trim_start_class(s, k), k)
}

/// Computes `trimmed`.
pub fn trim(s: &str) -> (r: &str)
    ensures
        r@ == trimmed(s@),
{
    trim_class(s, CharClass::Space)
}

// ---------------------------------------------------------------------------------------
// Searching
// ---------------------------------------------------------------------------------------

/// Whether the text holds white space.
pub open spec fn has_space(s: Seq<char>) -> bool {
    exists|i: int| 0 <= i < s.len() && is_space(#[trigger] s[i])
}

/// Decides `has_space`.
pub fn contains_space(s: &str) -> (r: bool)
    ensures
        r == has_space(s@),
{
    for c in it: s.chars()
        invariant
            it.seq() == s@,
            forall|i: int| 0 <= i < it.index() ==> !is_space(#[trigger] s@[i]),
    {
        if is_space_char(c) {
            assert(is_space(s@[it.index() as int]));
            return true;
        }
    }
    false
}

/// Whether the character occurs in the text.
pub fn contains_char(s: &str, d: char) -> (r: bool)
    ensures
        r == s@.contains(d),
{
    for c in it: s.chars()
        invariant
            it.seq() == s@,
            forall|i: int| 0 <= i < it.index() ==> #[trigger] s@[i] != d,
    {
        if c == d {
            assert(s@[it.index() as int] == d);
            return true;
        }
    }
    false
}

/// Whether the text `p` occurs in `s` at position `i`.
pub open spec fn occurs_at(s: Seq<char>, p: Seq<char>, i: int) -> bool {
    0 <= i && i + p.len() <= s.len() && s.subrange(i, i + p.len()) == p
}

/// Whether the text `p` occurs in `s`.
pub open spec fn has_text(s: Seq<char>, p: Seq<char>) -> bool {
    exists|i: int| #[trigger] occurs_at(s, p, i)
}

/// Whether `s` begins with `p`.
pub open spec fn begins_with(s: Seq<char>, p: Seq<char>) -> bool {
    occurs_at(s, p, 0)
}

/// Decides `occurs_at` on characters.
fn matches_at(s: &Vec<char>, p: &Vec<char>, at: usize) -> (r: bool)
    requires
        at <= s.len(),
    ensures
        r == occurs_at(s@, p@, at as int),
{
    if s.len() - at < p.len() {
        return false;
    }
    let mut j: usize = 0;
    while j < p.len()
        invariant
            at + p.len() <= s.len(),
            0 <= j <= p.len(),
            forall|i: int| 0 <= i < j ==> s@[at + i] == #[trigger] p@[i],
        decreases p.len() - j,
    {
        if s[at + j] != p[j] {
            assert(s@.subrange(at as int, at + p.len())[j as int] == s@[at + j]);
            return false;
        }
        j = j + 1;
    }
    assert(s@.subrange(at as int, at + p.len()) == p@);
    true
}

/// Decides `has_text`.
pub fn contains_text(s: &str, p: &str) -> (r: bool)
    ensures
        r == has_text(s@, p@),
{
    let v = to_chars(s);
    let w = to_chars(p);
    let mut i: usize = 0;
    while i < v.len()
        invariant
            v@ == s@,
            w@ == p@,
            0 <= i <= v.len(),
            forall|j: int| 0 <= j < i ==> !#[trigger] occurs_at(s@, p@, j),
        decreases v.len() - i,
    {
        if matches_at(&v, &w, i) {
            return true;
        }
        i = i + 1;
    }
    let r = matches_at(&v, &w, i);
    assert(!r ==> forall|j: int| !#[trigger] occurs_at(s@, p@, j));
    r
}

/// Decides `begins_with`.
pub fn starts_with(s: &str, p: &str) -> (r: bool)
    ensures
        r == begins_with(s@, p@),
{
    let v = to_chars(s);
    let w = to_chars(p);
    matches_at(&v, &w, 0)
}

/// The position of the first `c`.
pub open spec fn find(s: Seq<char>, c: char) -> Option<int>
    decreases s.len(),
{
    if s.len() == 0 {
        None
    } else if s[0] == c {
        Some(0)
    } else {
        match find(s.drop_first(), c) {
            Some(i) => Some(i + 1),
            None => None,
        }
    }
}

/// The position of the last `c`.
pub open spec fn rfind(s: Seq<char>, c: char) -> Option<int>
    decreases s.len(),
{
    if s.len() == 0 {
        None
    } else if s.last() == c {
        Some(s.len() - 1)
    } else {
        rfind(s.drop_last(), c)
    }
}

/// `find` gives the first position, if there is one.
pub proof fn lemma_find(s: Seq<char>, c: char)
    ensures
        match find(s, c) {
            Some(i) => 0 <= i < s.len() && s[i] == c && forall|j: int|
                0 <= j < i ==> #[trigger] s[j] != c,
            None => forall|j: int| 0 <= j < s.len() ==> #[trigger] s[j] != c,
        },
    decreases s.len(),
{
    if s.len() > 0 && s[0] != c {
        let t = s.drop_first();
        lemma_find(t, c);
        match find(t, c) {
            Some(i) => {
                assert(t[i] == s[i + 1]);
                assert forall|j: int| 0 <= j < i + 1 implies #[trigger] s[j] != c by {
                    if j > 0 {
                        assert(t[j - 1] == s[j]);
                    }
                }
            },
            None => {
                assert forall|j: int| 0 <= j < s.len() implies #[trigger] s[j] != c by {
                    if j > 0 {
                        assert(t[j - 1] == s[j]);
                    }
                }
            },
        }
    }
}

/// `rfind` gives the last position, if there is one.
pub proof fn lemma_rfind(s: Seq<char>, c: char)
    ensures
        match rfind(s, c) {
            Some(i) => 0 <= i < s.len() && s[i] == c && forall|j: int|
                i < j < s.len() ==> #[trigger] s[j] != c,
            None => forall|j: int| 0 <= j < s.len() ==> #[trigger] s[j] != c,
        },
    decreases s.len(),
{
    if s.len() > 0 && s.last() != c {
        let t = s.drop_last();
        lemma_rfind(t, c);
        match rfind(t, c) {
            Some(i) => {
                assert(t[i] == s[i]);
                assert forall|j: int| i < j < s.len() implies #[trigger] s[j] != c by {
                    if j < t.len() {
                        assert(t[j] == s[j]);
                    }
                }
            },
            None => {
                assert forall|j: int| 0 <= j < s.len() implies #[trigger] s[j] != c by {
                    if j < t.len() {
                        assert(t[j] == s[j]);
                    }
                }
            },
        }
    }
}

/// The parts before and after the first `c`.
pub open spec fn split_first(s: Seq<char>, c: char) -> Option<(Seq<char>, Seq<char>)> {
    match find(s, c) {
        Some(i) => Some((s.take(i), s.skip(i + 1))),
        None => None,
    }
}

/// The parts before and after the last `c`.
pub open spec fn split_last(s: Seq<char>, c: char) -> Option<(Seq<char>, Seq<char>)> {
    match rfind(s, c) {
        Some(i) => Some((s.take(i), s.skip(i + 1))),
        None => None,
    }
}

/// The texts of an optional pair of slices.
pub open spec fn opt_pair(v: Option<(&str, &str)>) -> Option<(Seq<char>, Seq<char>)> {
    match v {
        Some((a, b)) => Some((a@, b@)),
        None => None,
    }
}

/// Computes `split_first`.
pub fn split_once(s: &str, c: char) -> (r: Option<(&str, &str)>)
    ensures
        opt_pair(r) == split_first(s@, c),
{
    let v = to_chars(s);
    let n = v.len();
    let mut i: usize = 0;
    proof {
        lemma_find(s@, c);
    }
    while i < n
        invariant
            n == v.len(),
            v@ == s@,
            0 <= i <= n,
            forall|j: int| 0 <= j < i ==> #[trigger] v@[j] != c,
            match find(s@, c) {
                Some(k) => i <= k < s@.len() && s@[k] == c && forall|j: int|
                    0 <= j < k ==> #[trigger] s@[j] != c,
                None => forall|j: int| 0 <= j < s@.len() ==> #[trigger] s@[j] != c,
            },
        decreases n - i,
    {
        if v[i] == c {
            assert(find(s@, c) == Some(i as int));
            let before = s.substring_char(0, i);
            let after = s.substring_char(i + 1, n);
            assert(before@ == s@.take(i as int));
            assert(after@ == s@.skip(i + 1));
            return Some((before, after));
        }
        i = i + 1;
    }
    None
}

/// Computes `split_last`.
pub fn rsplit_once(s: &str, c: char) -> (r: Option<(&str, &str)>)
    ensures
        opt_pair(r) == split_last(s@, c),
{
    let v = to_chars(s);
    let n = v.len();
    let mut i: usize = n;
    proof {
        lemma_rfind(s@, c);
    }
    while i > 0
        invariant
            n == v.len(),
            v@ == s@,
            0 <= i <= n,
            forall|j: int| i <= j < n ==> #[trigger] v@[j] != c,
            match rfind(s@, c) {
                Some(k) => 0 <= k < i && s@[k] == c && forall|j: int|
                    k < j < s@.len() ==> #[trigger] s@[j] != c,
                None => forall|j: int| 0 <= j < s@.len() ==> #[trigger] s@[j] != c,
            },
        decreases i,
    {
        i = i - 1;
        if v[i] == c {
            assert(rfind(s@, c) == Some(i as int));
            let before = s.substring_char(0, i);
            let after = s.substring_char(i + 1, n);
            assert(before@ == s@.take(i as int));
            assert(after@ == s@.skip(i + 1));
            return Some((before, after));
        }
    }
    None
}

/// One text after the other.
pub fn glue(a: &str, b: &str) -> (r: String)
    ensures
        r@ == a@ + b@,
{
    let mut r = a.to_owned();
    r.append(b);
    r
}

} // verus!
