//! Reading and writing rows of comma-separated values.
use vstd::prelude::*;

use crate::pieces::{join, join_with, lemma_find_at, lemma_join_front, lines, lines_of, without_cr};
use crate::text::{texts, to_chars};

verus! {

/// Why a line is not a row.
#[derive(Debug, Clone, Copy, PartialEq, Eq, Structural)]
pub enum CsvError {
    /// A quoted field has no closing quote.
    UnterminatedQuote,
}

impl CsvError {
    /// The error in words.
    pub fn message(self) -> (r: String)
        ensures
            r@ == "unterminated quoted CSV field"@,
    {
        "unterminated quoted CSV field".to_owned()
    }
}

/// Whether a field has to be quoted.
pub open spec fn needs_quotes(c: char) -> bool {
    c == ',' || c == '"' || c == '\n' || c == '\r'
}

/// A text with each double quote doubled.
pub open spec fn quotes_doubled(s: Seq<char>) -> Seq<char>
    decreases s.len(),
{
    if s.len() == 0 {
        s
    } else if s[0] == '"' {
        seq!['"', '"'] + quotes_doubled(s.drop_first())
    } else {
        seq![s[0]] + quotes_doubled(s.drop_first())
    }
}

/// A field as it is written: in quotes if it holds a comma, a quote or a line break.
pub open spec fn written_field(s: Seq<char>) -> Seq<char> {
    if exists|i: int| 0 <= i < s.len() && needs_quotes(#[trigger] s[i]) {
        seq!['"'] + quotes_doubled(s) + seq!['"']
    } else {
        s
    }
}

/// A row as it is written: its fields with commas between them.
pub open spec fn written_row(fields: Seq<Seq<char>>) -> Seq<char> {
    join_with(fields.map_values(|f: Seq<char>| written_field(f)), seq![','])
}

/// What the rest `s` of a line says, behind the start `field` of a field, inside or outside
/// of quotes: the fields from that one on, or nothing if a quote is left open.
pub open spec fn read_from(s: Seq<char>, field: Seq<char>, quoted: bool) -> Option<Seq<Seq<char>>>
    decreases s.len(),
{
    if s.len() == 0 {
        if quoted {
            None
        } else {
            Some(seq![field])
        }
    } else if s[0] == '"' {
        if quoted && s.len() > 1 && s[1] == '"' {
            read_from(s.skip(2), field.push('"'), true)
        } else {
            read_from(s.skip(1), field, !quoted)
        }
    } else if s[0] == ',' && !quoted {
        match read_from(s.skip(1), Seq::empty(), false) {
            Some(rest) => Some(seq![field] + rest),
            None => None,
        }
    } else {
        read_from(s.skip(1), field.push(s[0]), quoted)
    }
}

/// The fields of a line.
pub open spec fn row_fields(line: Seq<char>) -> Option<Seq<Seq<char>>> {
    read_from(line, Seq::empty(), false)
}

/// The texts of a row that was read.
pub open spec fn read_result(r: Result<Vec<String>, CsvError>) -> Option<Seq<Seq<char>>> {
    match r {
        Ok(fields) => Some(texts(fields@)),
        Err(_) => None,
    }
}

/// Reads the fields of a line.
pub fn parse_csv_line(line: &str) -> (r: Result<Vec<String>, CsvError>)
    ensures
        read_result(r) == row_fields(line@),
{
    let v = to_chars(line);
    let mut fields: Vec<String> = Vec::new();
    let mut field = String::new();
    let mut quoted = false;
    let mut i: usize = 0;
    assert(v@.skip(0) == line@);
    assert(texts(fields@) == Seq::<Seq<char>>::empty());
    while i < v.len()
        invariant
            v@ == line@,
            0 <= i <= v.len(),
            match read_from(v@.skip(i as int), field@, quoted) {
                Some(rest) => row_fields(line@) == Some(texts(fields@) + rest),
                None => row_fields(line@) is None,
            },
        decreases v.len() - i,
    {
        let c: char = v[i];
        let ghost rest = v@.skip(i as int);
        assert(rest[0] == c);
        assert(rest.skip(1) == v@.skip(i + 1));
        if c == '"' {
            if quoted && i + 1 < v.len() && v[i + 1] == '"' {
                assert(rest[1] == '"');
                assert(rest.skip(2) == v@.skip(i + 2));
                field.push('"');
                i = i + 1;
            } else {
                assert(!(quoted && rest.len() > 1 && rest[1] == '"'));
                quoted = !quoted;
            }
        } else if c == ',' && !quoted {
            let ghost before = texts(fields@);
            let ghost done = field@;
            fields.push(field);
            field = String::new();
            assert(texts(fields@) == before + seq![done]);
            assert(field@ == Seq::<char>::empty());
            proof {
                if let Some(more) = read_from(rest.skip(1), Seq::empty(), false) {
                    assert(before + (seq![done] + more) == texts(fields@) + more);
                }
            }
        } else {
            field.push(c);
        }
        i = i + 1;
    }
    assert(v@.skip(i as int).len() == 0);
    if quoted {
        return Err(CsvError::UnterminatedQuote);
    }
    let ghost before = texts(fields@);
    let ghost done = field@;
    fields.push(field);
    assert(texts(fields@) == before + seq![done]);
    Ok(fields)
}

/// Writes a field, in quotes where that is needed.
pub fn csv_field(value: &str) -> (r: String)
    ensures
        r@ == written_field(value@),
{
    let v = to_chars(value);
    let mut plain = true;
    let mut i: usize = 0;
    let mut doubled = String::new();
    assert(v@.skip(0) == value@);
    while i < v.len()
        invariant
            v@ == value@,
            0 <= i <= v.len(),
            plain == (forall|j: int| 0 <= j < i ==> !needs_quotes(#[trigger] v@[j])),
            doubled@ + quotes_doubled(v@.skip(i as int)) == quotes_doubled(value@),
        decreases v.len() - i,
    {
        let c: char = v[i];
        let ghost rest = v@.skip(i as int);
        let ghost before = doubled@;
        assert(rest[0] == c);
        assert(rest.drop_first() == v@.skip(i + 1));
        if c == ',' || c == '"' || c == '\n' || c == '\r' {
            assert(needs_quotes(v@[i as int]));
            plain = false;
        }
        if c == '"' {
            doubled.push('"');
            doubled.push('"');
            assert(doubled@ + quotes_doubled(v@.skip(i + 1)) == before + (seq!['"', '"']
                + quotes_doubled(v@.skip(i + 1))));
        } else {
            doubled.push(c);
            assert(doubled@ + quotes_doubled(v@.skip(i + 1)) == before + (seq![c] + quotes_doubled(
                v@.skip(i + 1),
            )));
        }
        i = i + 1;
    }
    assert(v@.skip(i as int) == Seq::<char>::empty());
    assert(doubled@ == quotes_doubled(value@));
    if plain {
        value.to_owned()
    } else {
        let mut out = String::new();
        out.push('"');
        out.append(doubled.as_str());
        out.push('"');
        assert(out@ == seq!['"'] + quotes_doubled(value@) + seq!['"']);
        out
    }
}

/// Writes a row.
pub fn csv_row(fields: &Vec<String>) -> (r: String)
    ensures
        r@ == written_row(texts(fields@)),
{
    let mut parts: Vec<String> = Vec::new();
    let ghost want = texts(fields@).map_values(|f: Seq<char>| written_field(f));
    let mut i: usize = 0;
    while i < fields.len()
        invariant
            0 <= i <= fields.len(),
            want == texts(fields@).map_values(|f: Seq<char>| written_field(f)),
            texts(parts@) == want.take(i as int),
        decreases fields.len() - i,
    {
        let ghost before = texts(parts@);
        parts.push(csv_field(fields[i].as_str()));
        assert(texts(parts@) == before.push(want[i as int]));
        i = i + 1;
    }
    assert(want.take(i as int) == want);
    proof {
        reveal_strlit(",");
        assert(","@ =~= seq![',']);
    }
    join(&parts, ",")
}

// ---------------------------------------------------------------------------------------
// Laws
// ---------------------------------------------------------------------------------------

proof fn lemma_read_plain(v: Seq<char>, t: Seq<char>, field: Seq<char>)
    requires
        forall|i: int| 0 <= i < v.len() ==> !needs_quotes(#[trigger] v[i]),
    ensures
        read_from(v + t, field, false) == read_from(t, field + v, false),
    decreases v.len(),
{
    if v.len() == 0 {
        assert(v + t == t);
        assert(field + v == field);
    } else {
        let w = v.drop_first();
        assert(!needs_quotes(v[0]));
        assert((v + t)[0] == v[0]);
        assert((v + t).skip(1) == w + t);
        assert forall|i: int| 0 <= i < w.len() implies !needs_quotes(#[trigger] w[i]) by {
            assert(w[i] == v[i + 1]);
        }
        lemma_read_plain(w, t, field.push(v[0]));
        assert(field.push(v[0]) + w == field + v);
    }
}

proof fn lemma_read_quoted(v: Seq<char>, t: Seq<char>, field: Seq<char>)
    requires
        t.len() == 0 || t[0] != '"',
    ensures
        read_from(quotes_doubled(v) + seq!['"'] + t, field, true) == read_from(t, field + v, false),
    decreases v.len(),
{
    let s = quotes_doubled(v) + seq!['"'] + t;
    if v.len() == 0 {
        assert(s[0] == '"');
        assert(s.skip(1) == t);
        assert(s.len() > 1 ==> s[1] == t[0]);
        assert(field + v == field);
    } else {
        let w = v.drop_first();
        lemma_read_quoted(w, t, field.push(v[0]));
        assert(field.push(v[0]) + w == field + v);
        if v[0] == '"' {
            assert(s[0] == '"' && s[1] == '"');
            assert(s.skip(2) == quotes_doubled(w) + seq!['"'] + t);
        } else {
            assert(s[0] == v[0]);
            assert(s.skip(1) == quotes_doubled(w) + seq!['"'] + t);
        }
    }
}

proof fn lemma_read_field(v: Seq<char>, t: Seq<char>)
    requires
        t.len() == 0 || t[0] != '"',
    ensures
        read_from(written_field(v) + t, Seq::empty(), false) == read_from(t, v, false),
{
    let none = Seq::<char>::empty();
    assert(none + v == v);
    if exists|i: int| 0 <= i < v.len() && needs_quotes(#[trigger] v[i]) {
        let s = written_field(v) + t;
        assert(s[0] == '"');
        assert(s.skip(1) == quotes_doubled(v) + seq!['"'] + t);
        lemma_read_quoted(v, t, none);
    } else {
        lemma_read_plain(v, t, none);
    }
}

/// What is written is read back: the line written for a row of at least one field, whatever
/// the fields hold, reads as that row.
pub proof fn law_row_round_trip(fields: Seq<Seq<char>>)
    requires
        fields.len() > 0,
    ensures
        row_fields(written_row(fields)) == Some(fields),
    decreases fields.len(),
{
    let f = |f: Seq<char>| written_field(f);
    let parts = fields.map_values(f);
    let sep = seq![','];
    let none = Seq::<char>::empty();
    if fields.len() == 1 {
        assert(written_row(fields) == written_field(fields[0]));
        assert(written_field(fields[0]) + none == written_field(fields[0]));
        lemma_read_field(fields[0], none);
        assert(fields == seq![fields[0]]);
    } else {
        let rest = fields.drop_first();
        law_row_round_trip(rest);
        lemma_join_front(parts, sep);
        assert(parts.drop_first() =~= rest.map_values(f));
        let t = sep + written_row(rest);
        assert(written_row(fields) =~= written_field(fields[0]) + t);
        lemma_read_field(fields[0], t);
        assert(t[0] == ',');
        assert(t.skip(1) == written_row(rest));
        assert(seq![fields[0]] + rest == fields);
    }
}

// ---------------------------------------------------------------------------------------
// Lists
// ---------------------------------------------------------------------------------------

/// Rows of texts.
pub open spec fn rows_text(v: Seq<Vec<String>>) -> Seq<Seq<Seq<char>>> {
    v.map_values(|r: Vec<String>| texts(r@))
}

/// The rows of a list, unless a line cannot be read.
pub open spec fn rows_of(lines: Seq<Seq<char>>) -> Option<Seq<Seq<Seq<char>>>>
    decreases lines.len(),
{
    if lines.len() == 0 {
        Some(Seq::empty())
    } else {
        match (rows_of(lines.drop_last()), row_fields(lines.last())) {
            (Some(rows), Some(row)) => Some(rows.push(row)),
            _ => None,
        }
    }
}

proof fn lemma_rows_prefix(lines: Seq<Seq<char>>, n: int)
    requires
        0 <= n <= lines.len(),
        rows_of(lines.take(n)) is None,
    ensures
        rows_of(lines) is None,
    decreases lines.len(),
{
    if n < lines.len() {
        assert(lines.drop_last().take(n) =~= lines.take(n));
        lemma_rows_prefix(lines.drop_last(), n);
    } else {
        assert(lines.take(n) =~= lines);
    }
}

/// Reads the rows of a list.
pub fn read_rows(text: &str) -> (r: Result<Vec<Vec<String>>, CsvError>)
    ensures
        match r {
            Ok(rows) => rows_of(lines_of(text@)) == Some(rows_text(rows@)),
            Err(_) => rows_of(lines_of(text@)) is None,
        },
{
    let all = lines(text);
    let ghost l = lines_of(text@);
    let mut rows: Vec<Vec<String>> = Vec::new();
    let mut i: usize = 0;
    assert(rows_text(rows@) =~= Seq::empty());
    assert(l.take(0) =~= Seq::empty());
    while i < all.len()
        invariant
            l == lines_of(text@),
            texts(all@) == l,
            0 <= i <= all.len(),
            rows_of(l.take(i as int)) == Some(rows_text(rows@)),
        decreases all.len() - i,
    {
        proof {
            assert(l[i as int] == all@[i as int]@);
            assert(l.take(i + 1).drop_last() =~= l.take(i as int));
            assert(l.take(i + 1).last() == l[i as int]);
        }
        match parse_csv_line(all[i].as_str()) {
            Ok(row) => {
                let ghost before = rows_text(rows@);
                let ghost x = texts(row@);
                rows.push(row);
                assert(rows_text(rows@) =~= before.push(x));
            },
            Err(e) => {
                proof {
                    assert(rows_of(l.take(i + 1)) is None);
                    lemma_rows_prefix(l, i + 1);
                }
                return Err(e);
            },
        }
        i = i + 1;
    }
    assert(texts(all@).len() == all@.len());
    assert(l.take(i as int) =~= l);
    Ok(rows)
}

/// The lines that rows are written as.
pub open spec fn written_rows(rows: Seq<Seq<Seq<char>>>) -> Seq<char>
    decreases rows.len(),
{
    if rows.len() == 0 {
        Seq::empty()
    } else {
        written_rows(rows.drop_last()) + written_row(rows.last()) + seq!['\n']
    }
}

/// Writes rows.
pub fn write_rows(rows: &Vec<Vec<String>>) -> (r: String)
    ensures
        r@ == written_rows(rows_text(rows@)),
{
    let ghost t = rows_text(rows@);
    let mut r = String::new();
    let mut i: usize = 0;
    while i < rows.len()
        invariant
            t == rows_text(rows@),
            0 <= i <= rows.len(),
            r@ == written_rows(t.take(i as int)),
        decreases rows.len() - i,
    {
        proof {
            assert(t[i as int] == texts(rows@[i as int]@));
            assert(t.take(i + 1).drop_last() =~= t.take(i as int));
            assert(t.take(i + 1).last() == t[i as int]);
        }
        let ghost before = r@;
        r.append(csv_row(&rows[i]).as_str());
        r.push('\n');
        assert(r@ =~= before + written_row(t[i as int]) + seq!['\n']);
        i = i + 1;
    }
    assert(t.take(i as int) =~= t);
    r
}

spec fn one_line(s: Seq<char>) -> bool {
    forall|i: int| 0 <= i < s.len() ==> #[trigger] s[i] != '\n'
}

/// Whether no field of a row holds a line break.
pub open spec fn fits_a_line(row: Seq<Seq<char>>) -> bool {
    &&& row.len() > 0
    &&& forall|i: int, k: int|
        0 <= i < row.len() && 0 <= k < row[i].len() ==> #[trigger] row[i][k] != '\n'
}

proof fn lemma_doubled_one_line(s: Seq<char>)
    requires
        one_line(s),
    ensures
        one_line(quotes_doubled(s)),
    decreases s.len(),
{
    if s.len() > 0 {
        let d = s.drop_first();
        assert forall|i: int| 0 <= i < d.len() implies #[trigger] d[i] != '\n' by {
            assert(d[i] == s[i + 1]);
        }
        lemma_doubled_one_line(d);
        assert(s[0] != '\n');
    }
}

proof fn lemma_field_line(s: Seq<char>)
    requires
        one_line(s),
    ensures
        one_line(written_field(s)),
        without_cr(written_field(s)) == written_field(s),
{
    lemma_doubled_one_line(s);
    let w = written_field(s);
    if exists|i: int| 0 <= i < s.len() && needs_quotes(#[trigger] s[i]) {
        assert(w.last() == '"');
    } else if s.len() > 0 {
        assert(!needs_quotes(s[s.len() - 1]));
    }
}

proof fn lemma_row_line(row: Seq<Seq<char>>)
    requires
        fits_a_line(row),
    ensures
        one_line(written_row(row)),
        without_cr(written_row(row)) == written_row(row),
    decreases row.len(),
{
    let f = |f: Seq<char>| written_field(f);
    let parts = row.map_values(f);
    let last = row.last();
    assert(one_line(last)) by {
        assert forall|k: int| 0 <= k < last.len() implies #[trigger] last[k] != '\n' by {
            assert(row[row.len() - 1][k] != '\n');
        }
    }
    lemma_field_line(last);
    assert(parts.last() == written_field(last));
    if row.len() > 1 {
        let d = row.drop_last();
        assert forall|i: int, k: int| 0 <= i < d.len() && 0 <= k < d[i].len() implies #[trigger] d[i][k]
            != '\n' by {
            assert(row[i][k] != '\n');
        }
        lemma_row_line(d);
        assert(parts.drop_last() =~= d.map_values(f));
        let w = written_row(row);
        assert(w == written_row(d) + seq![','] + written_field(last));
        if written_field(last).len() == 0 {
            assert(w.last() == ',');
        } else {
            assert(w.last() == written_field(last).last());
        }
    } else {
        assert(written_row(row) == parts[0]);
    }
}

/// Writing starts with the first row.
pub proof fn lemma_written_front(rows: Seq<Seq<Seq<char>>>)
    requires
        rows.len() > 0,
    ensures
        written_rows(rows) == written_row(rows[0]) + seq!['\n'] + written_rows(rows.drop_first()),
    decreases rows.len(),
{
    if rows.len() == 1 {
        assert(written_rows(rows.drop_last()) == Seq::<char>::empty());
        assert(written_rows(rows.drop_first()) == Seq::<char>::empty());
        assert(rows.last() == rows[0]);
        assert(written_rows(rows) =~= written_row(rows[0]) + seq!['\n'] + written_rows(
            rows.drop_first(),
        ));
    } else {
        let d = rows.drop_last();
        lemma_written_front(d);
        assert(d.drop_first() =~= rows.drop_first().drop_last());
        let f = rows.drop_first();
        assert(f.last() == rows.last());
        assert(d[0] == rows[0]);
        let nl = seq!['\n'];
        assert(written_rows(rows) == written_rows(d) + written_row(rows.last()) + nl);
        assert(written_rows(f) == written_rows(f.drop_last()) + written_row(rows.last()) + nl);
        assert(written_rows(rows) =~= written_row(rows[0]) + seq!['\n'] + written_rows(
            rows.drop_first(),
        ));
    }
}

proof fn lemma_rows_front(lines: Seq<Seq<char>>, row: Seq<Seq<char>>, rest: Seq<Seq<Seq<char>>>)
    requires
        lines.len() > 0,
        row_fields(lines[0]) == Some(row),
        rows_of(lines.drop_first()) == Some(rest),
    ensures
        rows_of(lines) == Some(seq![row] + rest),
    decreases lines.len(),
{
    if lines.len() == 1 {
        assert(lines.drop_last().len() == 0);
        assert(rows_of(lines.drop_last()) == Some(Seq::<Seq<Seq<char>>>::empty()));
        assert(Seq::<Seq<Seq<char>>>::empty().push(row) =~= seq![row] + rest);
    } else {
        let d = lines.drop_last();
        let f = lines.drop_first();
        assert(d.drop_first() =~= f.drop_last());
        assert(f.last() == lines.last());
        let tail = rows_of(f.drop_last())->0;
        lemma_rows_front(d, row, tail);
        assert((seq![row] + tail).push(rest.last()) =~= seq![row] + rest);
    }
}

/// A list that was written reads back: its rows are the rows that were written, as long as no
/// field holds a line break.
pub proof fn law_written_list_reads_back(rows: Seq<Seq<Seq<char>>>)
    requires
        forall|i: int| 0 <= i < rows.len() ==> fits_a_line(#[trigger] rows[i]),
    ensures
        rows_of(lines_of(written_rows(rows))) == Some(rows),
    decreases rows.len(),
{
    if rows.len() == 0 {
        assert(rows =~= Seq::empty());
    } else {
        let rest = rows.drop_first();
        assert forall|i: int| 0 <= i < rest.len() implies fits_a_line(#[trigger] rest[i]) by {
            assert(rest[i] == rows[i + 1]);
        }
        law_written_list_reads_back(rest);
        lemma_written_front(rows);
        let line = written_row(rows[0]);
        assert(fits_a_line(rows[0]));
        lemma_row_line(rows[0]);
        lemma_find_at(line, '\n', written_rows(rest));
        let text = written_rows(rows);
        let l = lines_of(text);
        assert(l == seq![line] + lines_of(written_rows(rest)));
        law_row_round_trip(rows[0]);
        assert(l.drop_first() =~= lines_of(written_rows(rest)));
        lemma_rows_front(l, rows[0], rest);
        assert(seq![rows[0]] + rest =~= rows);
    }
}

} // verus!
