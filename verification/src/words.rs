//! What the operations on texts, lines and numbers do, told by how their inputs are put together.
use vstd::prelude::*;

use crate::csv::{needs_quotes, quotes_doubled, read_from, row_fields, written_field};
use crate::numbers::{
    all_digits, decimal, decimal_int, digit, digits_value, signed_value, unsigned_value,
    zero_padded,
};
use crate::pieces::{join_with, lemma_find_at, lemma_join_front, lines_of, split_on, without_cr};
use crate::reading::{is_trim, lacks};
use crate::reports::duration_text;
use crate::text::{
    find, has_text, is_space, lemma_find, lemma_rfind, lemma_trim_shape, lower, occurs_at, rfind,
    split_first, split_last, trimmed, upper, CharClass,
};

verus! {

// ---------------------------------------------------------------------------------------
// Characters
// ---------------------------------------------------------------------------------------

/// Upper and lower case are 32 places apart for ASCII letters; no other character has cases.
pub proof fn law_cases(c: char)
    ensures
        0x41 <= c as u32 <= 0x5a ==> lower(c) as u32 == c as u32 + 32,
        !(0x41 <= c as u32 <= 0x5a) ==> lower(c) == c,
        0x61 <= c as u32 <= 0x7a ==> upper(c) as u32 == c as u32 - 32,
        !(0x61 <= c as u32 <= 0x7a) ==> upper(c) == c,
{
}

/// The characters that are white space.
pub proof fn law_white_space(c: char)
    ensures
        ({
            let n = c as u32;
            is_space(c) <==> n == 9 || n == 10 || n == 11 || n == 12 || n == 13 || n == 32 || n
                == 133 || n == 160 || n == 5760 || 8192 <= n <= 8202 || n == 8232 || n == 8233 || n
                == 8239 || n == 8287 || n == 12288
        }),
{
}

// ---------------------------------------------------------------------------------------
// Pieces
// ---------------------------------------------------------------------------------------

/// Whether a text is white space and nothing else.
pub open spec fn is_blank(s: Seq<char>) -> bool {
    forall|i: int| 0 <= i < s.len() ==> is_space(#[trigger] s[i])
}

/// Trimming takes off the white space at both ends, all of it and nothing else.
pub proof fn law_trimmed(before: Seq<char>, s: Seq<char>, after: Seq<char>)
    requires
        is_blank(before),
        is_blank(after),
        is_trim(s),
    ensures
        trimmed(before + s + after) == s,
{
    let t = before + s + after;
    let n = before.len() as int;
    let (lo, hi) = lemma_trim_shape(t, CharClass::Space);
    if s.len() == 0 {
        if lo < hi {
            if lo < n {
                assert(t[lo] == before[lo]);
            } else {
                assert(t[lo] == after[lo - n]);
            }
        }
        assert(t.subrange(lo, hi) =~= s);
    } else {
        let k = n + s.len() - 1;
        assert(t[n] == s[0]);
        assert(t[k] == s[s.len() - 1]);
        assert(lo <= n && k < hi);
        if lo < n {
            assert(t[lo] == before[lo]);
        }
        if hi > k + 1 {
            assert(t[hi - 1] == after[hi - 1 - k - 1]);
        }
        assert(t.subrange(lo, hi) =~= s);
    }
}

/// A text contains another just when it is made of that one with something before and after it.
pub proof fn law_contains(before: Seq<char>, p: Seq<char>, after: Seq<char>, s: Seq<char>)
    ensures
        has_text(before + p + after, p),
        has_text(s, p) ==> exists|i: int|
            0 <= i && i + p.len() <= s.len() && s == #[trigger] s.take(i) + p + s.skip(
                i + p.len(),
            ),
{
    let t = before + p + after;
    let n = before.len() as int;
    assert(t.subrange(n, n + p.len()) =~= p);
    assert(occurs_at(t, p, n));
    if has_text(s, p) {
        let i = choose|i: int| #[trigger] occurs_at(s, p, i);
        assert(s =~= s.take(i) + s.subrange(i, i + p.len()) + s.skip(i + p.len()));
    }
}

/// The first and the last occurrence of a character part a text where they stand.
pub proof fn law_parted(a: Seq<char>, c: char, b: Seq<char>)
    ensures
        lacks(a, c) ==> split_first(a + seq![c] + b, c) == Some((a, b)),
        lacks(b, c) ==> split_last(a + seq![c] + b, c) == Some((a, b)),
        lacks(a, c) ==> split_first(a, c) is None && split_last(a, c) is None,
{
    let s = a + seq![c] + b;
    let n = a.len() as int;
    assert(s[n] == c);
    lemma_find(a, c);
    lemma_rfind(a, c);
    if lacks(a, c) {
        lemma_find_at(a, c, b);
    }
    if lacks(b, c) {
        lemma_rfind(s, c);
        let i = rfind(s, c)->0;
        if i > n {
            assert(s[i] == b[i - n - 1]);
        }
        assert(s.take(n) =~= a);
        assert(s.skip(n + 1) =~= b);
    }
}

/// Cutting a text at a character leaves pieces without that character, which make the text again
/// with that character between them.
pub proof fn law_pieces_join(s: Seq<char>, c: char)
    ensures
        split_on(s, c).len() > 0,
        join_with(split_on(s, c), seq![c]) == s,
        forall|i: int| 0 <= i < split_on(s, c).len() ==> lacks(#[trigger] split_on(s, c)[i], c),
    decreases s.len(),
{
    lemma_find(s, c);
    let all = split_on(s, c);
    match find(s, c) {
        Some(i) => {
            let a = s.take(i);
            let b = s.skip(i + 1);
            law_pieces_join(b, c);
            let rest = split_on(b, c);
            assert(all == seq![a] + rest);
            assert(all.drop_first() =~= rest);
            lemma_join_front(all, seq![c]);
            assert(s =~= a + seq![c] + b);
            assert forall|k: int| 0 <= k < all.len() implies lacks(#[trigger] all[k], c) by {
                if k > 0 {
                    assert(all[k] == rest[k - 1]);
                }
            }
        },
        None => {
            assert(all[0] == s);
        },
    }
}

/// A line ends at a line feed, with or without a carriage return before it; without one, the rest
/// of the text is its last line.
pub proof fn law_lines(line: Seq<char>, rest: Seq<char>)
    requires
        lacks(line, '\n'),
        line.len() > 0 ==> line.last() != '\r',
    ensures
        lines_of(line + seq!['\n'] + rest) == seq![line] + lines_of(rest),
        lines_of(line + seq!['\r', '\n'] + rest) == seq![line] + lines_of(rest),
        line.len() > 0 ==> lines_of(line) == seq![line],
        lines_of(Seq::<char>::empty()).len() == 0,
{
    lemma_find_at(line, '\n', rest);
    let back = line + seq!['\r'];
    lemma_find_at(back, '\n', rest);
    assert(line + seq!['\r', '\n'] + rest =~= back + seq!['\n'] + rest);
    assert(back.drop_last() =~= line);
    assert(without_cr(back) == line);
    lemma_find(line, '\n');
}

// ---------------------------------------------------------------------------------------
// Numbers
// ---------------------------------------------------------------------------------------

proof fn lemma_decimal(n: nat)
    ensures
        all_digits(decimal(n)),
        digits_value(decimal(n)) == n,
        n > 0 ==> decimal(n)[0] != '0',
    decreases n,
{
    let d = decimal(n);
    if n < 10 {
        assert(d.drop_last() =~= Seq::<char>::empty());
        assert(digits_value(Seq::<char>::empty()) == 0);
        assert(d.last() == digit(n));
    } else {
        lemma_decimal(n / 10);
        let f = decimal(n / 10);
        assert(d.drop_last() =~= f);
        assert(d[0] == f[0]);
        assert forall|i: int| 0 <= i < d.len() implies '0' <= #[trigger] d[i] && d[i] <= '9' by {
            if i < f.len() {
                assert(d[i] == f[i]);
            }
        }
    }
}

/// A number that is written in decimal is read back as it is; it is written without leading
/// zeros, and only a negative one has a sign.
pub proof fn law_number_reads_back(n: int)
    ensures
        n >= 0 ==> unsigned_value(decimal(n as nat), n as nat) == Some(n as nat),
        n > 0 ==> unsigned_value(decimal(n as nat), (n - 1) as nat) is None,
        n > 0 ==> decimal(n as nat)[0] != '0',
        i64::MIN <= n <= i64::MAX ==> signed_value(decimal_int(n)) == Some(n),
        n >= 0 ==> all_digits(decimal_int(n)),
        n < 0 ==> decimal_int(n)[0] == '-' && all_digits(decimal_int(n).drop_first()),
{
    if n >= 0 {
        lemma_decimal(n as nat);
        let d = decimal(n as nat);
        assert('0' <= d[0] && d[0] <= '9');
    } else {
        lemma_decimal((-n) as nat);
        let d = decimal((-n) as nat);
        assert(decimal_int(n).skip(1) =~= d);
        assert(decimal_int(n).drop_first() =~= d);
    }
}

/// Whether there is a number in a text: a sign may stand before the digits, and nothing else may
/// stand in it.
pub proof fn law_what_is_a_number(s: Seq<char>, max: nat)
    ensures
        unsigned_value(s, max) is Some ==> s.len() > 0 && (s[0] == '+' || '0' <= s[0] <= '9')
            && forall|i: int| 1 <= i < s.len() ==> '0' <= #[trigger] s[i] && s[i] <= '9',
        signed_value(s) is Some ==> s.len() > 0 && (s[0] == '+' || s[0] == '-' || '0' <= s[0]
            <= '9') && forall|i: int|
            1 <= i < s.len() ==> '0' <= #[trigger] s[i] && s[i] <= '9',
        unsigned_value(s, max) is Some && s[0] != '+' ==> unsigned_value(seq!['+'] + s, max)
            == unsigned_value(s, max),
{
    if s.len() > 0 {
        let t = s.skip(1);
        assert forall|i: int| 1 <= i < s.len() && all_digits(t) implies '0' <= #[trigger] s[i]
            && s[i] <= '9' by {
            assert(t[i - 1] == s[i]);
        }
    }
    assert((seq!['+'] + s).skip(1) =~= s);
}

/// One digit more makes a number ten times as large, and that digit larger.
pub proof fn law_digits(s: Seq<char>, d: nat)
    requires
        all_digits(s),
        d < 10,
    ensures
        ({
            let c = ((0x30 + d) as u32) as char;
            digits_value(s.push(c)) == 10 * digits_value(s) + d && all_digits(s.push(c))
        }),
{
    let c = ((0x30 + d) as u32) as char;
    assert(s.push(c).drop_last() =~= s);
    assert forall|i: int| 0 <= i < s.push(c).len() implies '0' <= #[trigger] s.push(c)[i] && s.push(
        c,
    )[i] <= '9' by {
        if i < s.len() {
            assert(s.push(c)[i] == s[i]);
        }
    }
}

/// A text that is padded has at least the width, and ends in the text; all before that is zeros.
pub proof fn law_padded(s: Seq<char>, width: nat)
    ensures
        ({
            let p = zero_padded(s, width);
            &&& p.len() == if s.len() < width {
                width
            } else {
                s.len()
            }
            &&& p.skip(p.len() - s.len()) == s
            &&& forall|i: int| 0 <= i < p.len() - s.len() ==> #[trigger] p[i] == '0'
        }),
    decreases width - s.len(),
{
    if s.len() < width {
        let t = seq!['0'] + s;
        law_padded(t, width);
        let p = zero_padded(s, width);
        let n = p.len() - t.len();
        assert(p.skip(n) == t);
        assert(p.skip(n + 1) =~= s) by {
            assert forall|i: int| 0 <= i < s.len() implies p.skip(n + 1)[i] == s[i] by {
                assert(p.skip(n)[i + 1] == t[i + 1]);
            }
        }
        assert forall|i: int| 0 <= i < n + 1 implies #[trigger] p[i] == '0' by {
            if i == n {
                assert(p.skip(n)[0] == t[0]);
            }
        }
    } else {
        assert(s.skip(0) =~= s);
    }
}

/// A stretch of time of so many hours, minutes and seconds is told in these: hours only from one
/// on, minutes only from one on; below a minute in seconds with three digits of thousandths, and
/// below a second in thousandths.
pub proof fn law_duration(hours: nat, minutes: nat, seconds: nat, millis: nat)
    requires
        minutes < 60,
        seconds < 60,
        millis < 1000,
    ensures
        ({
            let text = duration_text((hours * 3600 + minutes * 60 + seconds) as nat, millis);
            &&& hours > 0 ==> text == decimal(hours) + seq!['h', ' '] + decimal(minutes) + seq![
                'm',
                ' ',
            ] + decimal(seconds) + seq!['s']
            &&& hours == 0 && minutes > 0 ==> text == decimal(minutes) + seq!['m', ' '] + decimal(
                seconds,
            ) + seq!['s']
            &&& hours == 0 && minutes == 0 && seconds > 0 ==> exists|rest: Seq<char>|
                rest.len() == 3 && text == decimal(seconds) + seq!['.'] + rest + seq!['s']
                    && all_digits(rest) && #[trigger] digits_value(rest) == millis
            &&& hours == 0 && minutes == 0 && seconds == 0 ==> text == decimal(millis) + seq![
                'm',
                's',
            ]
        }),
{
    reveal_strlit("h ");
    reveal_strlit("m ");
    reveal_strlit("s");
    reveal_strlit(".");
    reveal_strlit("ms");
    assert("h "@ =~= seq!['h', ' ']);
    assert("m "@ =~= seq!['m', ' ']);
    assert("s"@ =~= seq!['s']);
    assert("."@ =~= seq!['.']);
    assert("ms"@ =~= seq!['m', 's']);
    let all = hours * 3600 + minutes * 60 + seconds;
    assert(all / 3600 == hours && (all % 3600) / 60 == minutes && all % 60 == seconds);
    let rest = zero_padded(decimal(millis), 3);
    law_padded(decimal(millis), 3);
    lemma_decimal(millis);
    lemma_short(millis);
    lemma_padded_value(decimal(millis), 3);
    assert(all_digits(rest));
    assert(digits_value(rest) == millis);
}

proof fn lemma_short(n: nat)
    requires
        n < 1000,
    ensures
        decimal(n).len() <= 3,
{
    reveal_with_fuel(decimal, 4);
}

proof fn lemma_zero_in_front(s: Seq<char>)
    ensures
        digits_value(seq!['0'] + s) == digits_value(s),
    decreases s.len(),
{
    let t = seq!['0'] + s;
    if s.len() == 0 {
        assert(t.drop_last() =~= Seq::<char>::empty());
        assert(digits_value(Seq::<char>::empty()) == 0);
        assert(t.last() == '0');
    } else {
        assert(t.drop_last() =~= seq!['0'] + s.drop_last());
        assert(t.last() == s.last());
        lemma_zero_in_front(s.drop_last());
    }
}

proof fn lemma_padded_value(s: Seq<char>, width: nat)
    requires
        all_digits(s),
    ensures
        all_digits(zero_padded(s, width)),
        digits_value(zero_padded(s, width)) == digits_value(s),
    decreases width - s.len(),
{
    if s.len() < width {
        let t = seq!['0'] + s;
        lemma_zero_in_front(s);
        assert forall|i: int| 0 <= i < t.len() implies '0' <= #[trigger] t[i] && t[i] <= '9' by {
            if i > 0 {
                assert(t[i] == s[i - 1]);
            }
        }
        lemma_padded_value(t, width);
    }
}

// ---------------------------------------------------------------------------------------
// Fields
// ---------------------------------------------------------------------------------------

/// A field is written as it is, unless it has a comma, a quote or a line break; then it stands in
/// quotes.
pub proof fn law_written_field(s: Seq<char>)
    ensures
        lacks(s, ',')
            && lacks(s, '"') && lacks(s, '\n') && lacks(s, '\r') ==> written_field(s) == s,
        s.contains(',') || s.contains('"') || s.contains('\n') || s.contains('\r') ==> {
            let w = written_field(s);
            &&& w.len() >= s.len() + 2
            &&& w[0] == '"'
            &&& w.last() == '"'
            &&& lacks(s, '"') ==> w == seq!['"'] + s + seq!['"']
        },
{
    if s.contains(',') || s.contains('"') || s.contains('\n') || s.contains('\r') {
        let i = choose|i: int| 0 <= i < s.len() && needs_quotes(#[trigger] s[i]);
        assert(needs_quotes(s[i]));
        lemma_doubled(s);
    }
}

proof fn lemma_doubled(s: Seq<char>)
    ensures
        quotes_doubled(s).len() >= s.len(),
        lacks(s, '"') ==> quotes_doubled(s) == s,
    decreases s.len(),
{
    if s.len() > 0 {
        let t = s.drop_first();
        lemma_doubled(t);
        if lacks(s, '"') {
            assert forall|j: int| 0 <= j < t.len() implies #[trigger] t[j] != '"' by {
                assert(t[j] == s[j + 1]);
            }
            assert(s =~= seq![s[0]] + t);
        }
    }
}

proof fn lemma_doubled_cat(a: Seq<char>, b: Seq<char>)
    ensures
        quotes_doubled(a + b) == quotes_doubled(a) + quotes_doubled(b),
    decreases a.len(),
{
    if a.len() == 0 {
        assert(a + b =~= b);
        assert(quotes_doubled(a) + quotes_doubled(b) =~= quotes_doubled(b));
    } else {
        let t = a.drop_first();
        lemma_doubled_cat(t, b);
        assert((a + b)[0] == a[0]);
        assert((a + b).drop_first() =~= t + b);
        let first = if a[0] == '"' {
            seq!['"', '"']
        } else {
            seq![a[0]]
        };
        assert(first + (quotes_doubled(t) + quotes_doubled(b)) =~= first + quotes_doubled(t)
            + quotes_doubled(b));
    }
}

/// A quote in a field is written twice, and everything else between the quotes as it is.
pub proof fn law_quote_is_doubled(a: Seq<char>, b: Seq<char>)
    requires
        lacks(a, '"'),
        lacks(b, '"'),
    ensures
        written_field(a + seq!['"'] + b) == seq!['"'] + a + seq!['"', '"'] + b + seq!['"'],
{
    let s = a + seq!['"'] + b;
    assert(needs_quotes(s[a.len() as int]));
    lemma_doubled_cat(a + seq!['"'], b);
    lemma_doubled_cat(a, seq!['"']);
    lemma_doubled(a);
    lemma_doubled(b);
    let one = seq!['"'];
    assert(one.drop_first() =~= Seq::<char>::empty());
    assert(quotes_doubled(Seq::<char>::empty()) =~= Seq::<char>::empty());
    assert(quotes_doubled(one) =~= seq!['"', '"']);
    assert(written_field(s) =~= seq!['"'] + a + seq!['"', '"'] + b + seq!['"']);
}

proof fn lemma_in_quotes(s: Seq<char>, rest: Seq<char>, field: Seq<char>)
    requires
        lacks(s, '"'),
        rest.len() > 0 ==> rest[0] != '"',
    ensures
        read_from(s + seq!['"'] + rest, field, true) == read_from(rest, field + s, false),
    decreases s.len(),
{
    let all = s + seq!['"'] + rest;
    if s.len() == 0 {
        assert(all[0] == '"');
        if all.len() > 1 {
            assert(all[1] == rest[0]);
        }
        assert(all.skip(1) =~= rest);
        assert(field + s =~= field);
    } else {
        let t = s.drop_first();
        assert forall|j: int| 0 <= j < t.len() implies #[trigger] t[j] != '"' by {
            assert(t[j] == s[j + 1]);
        }
        assert(all[0] == s[0]);
        assert(s[0] != '"');
        assert(all.skip(1) =~= t + seq!['"'] + rest);
        lemma_in_quotes(t, rest, field.push(s[0]));
        assert(field.push(s[0]) + t =~= field + s);
    }
}

/// What stands in quotes is one field, whatever it holds; what follows behind a comma are the
/// other fields.
pub proof fn law_quoted_field(s: Seq<char>, rest: Seq<char>)
    requires
        lacks(s, '"'),
    ensures
        row_fields(seq!['"'] + s + seq!['"']) == Some(seq![s]),
        row_fields(rest) matches Some(others) ==> row_fields(
            seq!['"'] + s + seq!['"'] + seq![','] + rest,
        ) == Some(seq![s] + others),
        row_fields(seq!['"'] + s) is None,
{
    let none = Seq::<char>::empty();
    let alone = seq!['"'] + s + seq!['"'];
    assert(alone.skip(1) =~= s + seq!['"'] + none);
    lemma_in_quotes(s, none, none);
    assert(none + s =~= s);
    let more = seq![','] + rest;
    let line = alone + seq![','] + rest;
    assert(line.skip(1) =~= s + seq!['"'] + more);
    lemma_in_quotes(s, more, none);
    assert(more.skip(1) =~= rest);
    let left = seq!['"'] + s;
    assert(left.skip(1) =~= s);
    lemma_left_open(s, none);
}

proof fn lemma_left_open(s: Seq<char>, field: Seq<char>)
    requires
        lacks(s, '"'),
    ensures
        read_from(s, field, true) is None,
    decreases s.len(),
{
    if s.len() > 0 {
        let t = s.skip(1);
        assert forall|j: int| 0 <= j < t.len() implies #[trigger] t[j] != '"' by {
            assert(t[j] == s[j + 1]);
        }
        assert(s[0] != '"');
        lemma_left_open(t, field.push(s[0]));
    }
}

} // verus!
