//! Decimal numbers in text.
use vstd::prelude::*;

use crate::text::to_chars;

verus! {

/// The character for one decimal digit.
pub open spec fn digit(d: nat) -> char {
    (('0' as u32 + d) as u32) as char
}

/// The decimal digits of a number, without leading zeros.
pub open spec fn decimal(n: nat) -> Seq<char>
    decreases n,
{
    if n < 10 {
        seq![digit(n)]
    } else {
        decimal(n / 10).push(digit(n % 10))
    }
}

/// The decimal digits of a number, with a minus sign if it is negative.
pub open spec fn decimal_int(n: int) -> Seq<char> {
    if n < 0 {
        seq!['-'] + decimal((-n) as nat)
    } else {
        decimal(n as nat)
    }
}

/// The text with zeros put in front up to `width` characters.
pub open spec fn zero_padded(s: Seq<char>, width: nat) -> Seq<char>
    decreases width - s.len(),
{
    if s.len() < width {
        zero_padded(seq!['0'] + s, width)
    } else {
        s
    }
}

/// Whether a text is made of decimal digits, at least one.
pub open spec fn all_digits(s: Seq<char>) -> bool {
    s.len() > 0 && forall|i: int| 0 <= i < s.len() ==> '0' <= #[trigger] s[i] && s[i] <= '9'
}

/// The number that a text of decimal digits stands for.
pub open spec fn digits_value(s: Seq<char>) -> nat
    decreases s.len(),
{
    if s.len() == 0 {
        0
    } else {
        digits_value(s.drop_last()) * 10 + (s.last() as u32 - '0' as u32) as nat
    }
}

/// The text after its sign, if it starts with the sign `sign`.
pub open spec fn after_sign(s: Seq<char>, sign: char) -> Seq<char> {
    if s.len() > 0 && s[0] == sign {
        s.skip(1)
    } else {
        s
    }
}

/// The unsigned number up to `max` that a text stands for: digits, perhaps after a plus sign.
pub open spec fn unsigned_value(s: Seq<char>, max: nat) -> Option<nat> {
    let t = after_sign(s, '+');
    if all_digits(t) && digits_value(t) <= max {
        Some(digits_value(t))
    } else {
        None
    }
}

/// The 64-bit number that a text stands for: digits, perhaps after a plus or a minus sign.
pub open spec fn signed_value(s: Seq<char>) -> Option<int> {
    if s.len() > 0 && s[0] == '-' {
        let t = s.skip(1);
        if all_digits(t) && -digits_value(t) >= i64::MIN {
            Some(-digits_value(t))
        } else {
            None
        }
    } else {
        match unsigned_value(s, i64::MAX as nat) {
            Some(n) => Some(n as int),
            None => None,
        }
    }
}

/// Writes a number in decimal.
pub fn u64_text(n: u64) -> (r: String)
    ensures
        r@ == decimal(n as nat),
    decreases n,
{
    let d: u8 = (n % 10) as u8;
    let c: char = (48 + d) as char;
    assert(c == digit((n % 10) as nat));
    if n < 10 {
        let mut out = String::new();
        out.push(c);
        out
    } else {
        let mut out = u64_text(n / 10);
        out.push(c);
        out
    }
}

/// Writes a number in decimal.
pub fn i64_text(n: i64) -> (r: String)
    ensures
        r@ == decimal_int(n as int),
{
    if n < 0 {
        let m: u64 = if n == i64::MIN {
            0x8000_0000_0000_0000u64
        } else {
            (-n) as u64
        };
        let mut out = String::new();
        out.push('-');
        out.append(u64_text(m).as_str());
        out
    } else {
        u64_text(n as u64)
    }
}

/// Writes a number in decimal.
pub fn usize_text(n: usize) -> (r: String)
    ensures
        r@ == decimal(n as nat),
{
    u64_text(n as u64)
}

/// Puts zeros in front of a text up to a width of three characters.
pub fn pad_three(s: String) -> (r: String)
    ensures
        r@ == zero_padded(s@, 3),
{
    let mut cur = s;
    let ghost first = s@;
    while cur.as_str().unicode_len() < 3
        invariant
            zero_padded(cur@, 3) == zero_padded(first, 3),
        decreases 3 - cur@.len(),
    {
        let mut next = String::new();
        next.push('0');
        next.append(cur.as_str());
        assert(next@ == seq!['0'] + cur@);
        cur = next;
    }
    cur
}

/// Reads the digits from position `from` on.
fn parse_digits(v: &Vec<char>, from: usize, max: u64) -> (r: Option<u64>)
    requires
        from <= v.len(),
    ensures
        match r {
            Some(n) => all_digits(v@.skip(from as int)) && n <= max && digits_value(
                v@.skip(from as int),
            ) == n,
            None => !all_digits(v@.skip(from as int)) || digits_value(v@.skip(from as int)) > max,
        },
{
    let ghost t = v@.skip(from as int);
    if from == v.len() {
        return None;
    }
    let mut acc: u128 = 0;
    let mut over: bool = false;
    let mut i: usize = from;
    assert(t.take(0) == Seq::<char>::empty());
    while i < v.len()
        invariant
            t == v@.skip(from as int),
            from <= i <= v.len(),
            forall|j: int| 0 <= j < i - from ==> '0' <= #[trigger] t[j] && t[j] <= '9',
            !over ==> acc == digits_value(t.take(i - from)) && acc <= max,
            over ==> digits_value(t.take(i - from)) > max,
        decreases v.len() - i,
    {
        let c: char = v[i];
        assert(t[i - from] == c);
        if !('0' <= c && c <= '9') {
            return None;
        }
        let ghost next = t.take(i - from + 1);
        assert(next.drop_last() == t.take(i - from));
        assert(next.last() == c);
        if !over {
            let d: u128 = (c as u32 - 48) as u128;
            acc = acc * 10 + d;
            if acc > max as u128 {
                over = true;
            }
        }
        i = i + 1;
    }
    assert(t.take(i - from) == t);
    if over {
        None
    } else {
        Some(acc as u64)
    }
}

/// Reads an unsigned number up to `max`.
fn parse_unsigned(v: &Vec<char>, max: u64) -> (r: Option<u64>)
    ensures
        match r {
            Some(n) => unsigned_value(v@, max as nat) == Some(n as nat),
            None => unsigned_value(v@, max as nat) is None,
        },
{
    if v.len() > 0 && v[0] == '+' {
        parse_digits(v, 1, max)
    } else {
        assert(v@.skip(0) == v@);
        parse_digits(v, 0, max)
    }
}

/// Reads a `usize`.
pub fn parse_usize(s: &str) -> (r: Option<usize>)
    ensures
        match r {
            Some(n) => unsigned_value(s@, usize::MAX as nat) == Some(n as nat),
            None => unsigned_value(s@, usize::MAX as nat) is None,
        },
{
    let v = to_chars(s);
    match parse_unsigned(&v, usize::MAX as u64) {
        Some(n) => Some(n as usize),
        None => None,
    }
}

/// Reads an `i64`.
pub fn parse_i64(s: &str) -> (r: Option<i64>)
    ensures
        match r {
            Some(n) => signed_value(s@) == Some(n as int),
            None => signed_value(s@) is None,
        },
{
    let v = to_chars(s);
    if v.len() > 0 && v[0] == '-' {
        match parse_digits(&v, 1, 0x8000_0000_0000_0000u64) {
            Some(n) => {
                if n == 0x8000_0000_0000_0000u64 {
                    Some(i64::MIN)
                } else {
                    Some(-(n as i64))
                }
            },
            None => None,
        }
    } else {
        match parse_unsigned(&v, i64::MAX as u64) {
            Some(n) => Some(n as i64),
            None => None,
        }
    }
}

} // verus!
