//! Which files are read, in which order, where an index lies and what a line of a list holds, told
//! by names and characters.
use vstd::prelude::*;
use vstd::utf8::encode_utf8;

use crate::archive::{message_extension, pff_message};
use crate::csv::{read_from, row_fields, rows_of};
use crate::lists::{lemma_filter_none, lemma_filter_step};
use crate::paths::{absolute, extension_bytes, last_at, name_of};
use crate::pieces::{lemma_split_cons, lemma_split_single, split_on};
use crate::places::{existing_place, generated_name, pointer_path, scan_place};
use crate::readers::{dirs_in, exported_texts, files_in, path_le, Listed, PathText, PffContents};
use crate::reading::lacks;
use crate::text::{lower_text, opt_text, trimmed};

verus! {

// ---------------------------------------------------------------------------------------
// Files
// ---------------------------------------------------------------------------------------

/// A file is taken for a message if its name has no extension or one of the four of messages, in
/// upper or lower case.
pub proof fn law_message_extensions(e: Seq<char>)
    ensures
        message_extension(None),
        message_extension(Some(e)) <==> lower_text(e) == "eml"@ || lower_text(e) == "txt"@
            || lower_text(e) == "message"@ || lower_text(e) == "email"@,
{
}

/// What a search takes from a listing: every directory to look at, and every file that is taken
/// for a message, and nothing else.
pub proof fn law_search_takes(entries: Seq<Listed>, i: int, p: PathText)
    requires
        0 <= i < entries.len(),
    ensures
        entries[i].is_dir ==> dirs_in(entries).contains(entries[i].path@),
        !entries[i].is_dir && entries[i].extension is None ==> files_in(entries).contains(
            entries[i].path@,
        ),
        !entries[i].is_dir && (entries[i].extension matches Some(e) && (lower_text(e@) == "eml"@
            || lower_text(e@) == "txt"@ || lower_text(e@) == "message"@ || lower_text(e@)
            == "email"@)) ==> files_in(entries).contains(entries[i].path@),
        dirs_in(entries).contains(p) ==> exists|k: int|
            0 <= k < entries.len() && (#[trigger] entries[k]).is_dir && entries[k].path@ == p,
        files_in(entries).contains(p) ==> exists|k: int|
            0 <= k < entries.len() && !(#[trigger] entries[k]).is_dir && entries[k].path@ == p
                && message_extension(opt_text(entries[k].extension)),
{
    let d = |e: Listed| e.is_dir;
    let f = |e: Listed| !e.is_dir && message_extension(opt_text(e.extension));
    lemma_taken(entries, d, i, p);
    lemma_taken(entries, f, i, p);
}

proof fn lemma_taken(entries: Seq<Listed>, q: spec_fn(Listed) -> bool, i: int, p: PathText)
    requires
        0 <= i < entries.len(),
    ensures
        ({
            let taken = entries.filter(q).map_values(|e: Listed| e.path@);
            &&& q(entries[i]) ==> taken.contains(entries[i].path@)
            &&& taken.contains(p) ==> exists|k: int|
                0 <= k < entries.len() && q(#[trigger] entries[k]) && entries[k].path@ == p
        }),
{
    let kept = entries.filter(q);
    let taken = kept.map_values(|e: Listed| e.path@);
    if q(entries[i]) {
        entries.lemma_filter_contains(q, i);
        let n = choose|n: int| 0 <= n < kept.len() && kept[n] == entries[i];
        assert(taken[n] == entries[i].path@);
    }
    if taken.contains(p) {
        let n = choose|n: int| 0 <= n < taken.len() && taken[n] == p;
        entries.lemma_filter_pred(q, n);
        entries.lemma_filter_contains_rev(q, kept[n]);
        let k = choose|k: int| 0 <= k < entries.len() && entries[k] == kept[n];
        assert(q(entries[k]) && entries[k].path@ == p);
    }
}

/// The name of a file is what stands behind the last slash of its path.
pub proof fn law_name_of_a_path(dir: Seq<u8>, name: Seq<u8>)
    requires
        !name.contains(0x2fu8),
    ensures
        name_of(dir.push(0x2fu8) + name) == name,
        name_of(name) == name,
{
    lemma_last(dir, 0x2fu8, name);
    assert((dir.push(0x2fu8) + name).skip(dir.len() as int + 1) =~= name);
    lemma_not_there(name, 0x2fu8);
}

/// The extension of a name is what stands behind its last dot, unless nothing stands before it.
pub proof fn law_extension_of_a_name(stem: Seq<u8>, extension: Seq<u8>)
    requires
        !extension.contains(0x2eu8),
    ensures
        stem.len() > 0 && !(stem =~= seq![0x2eu8] && extension.len() == 0) ==> extension_bytes(
            stem.push(0x2eu8) + extension,
        ) == Some(extension),
        extension_bytes(seq![0x2eu8] + extension) is None,
        extension_bytes(extension) is None,
        extension_bytes(seq![0x2eu8, 0x2eu8]) is None,
{
    let name = stem.push(0x2eu8) + extension;
    lemma_last(stem, 0x2eu8, extension);
    assert(name.skip(stem.len() as int + 1) =~= extension);
    if stem.len() > 0 && !(stem =~= seq![0x2eu8] && extension.len() == 0) {
        assert(name != seq![0x2eu8, 0x2eu8]) by {
            if name == seq![0x2eu8, 0x2eu8] {
                assert(name[0] == stem[0]);
                assert(stem =~= seq![0x2eu8]);
            }
        }
    }
    lemma_last(Seq::empty(), 0x2eu8, extension);
    assert(Seq::<u8>::empty().push(0x2eu8) + extension =~= seq![0x2eu8] + extension);
    lemma_not_there(extension, 0x2eu8);
}

proof fn lemma_not_there(s: Seq<u8>, b: u8)
    requires
        !s.contains(b),
    ensures
        last_at(s, b) is None,
    decreases s.len(),
{
    if s.len() > 0 {
        let d = s.drop_last();
        assert(s.contains(s[s.len() - 1]));
        assert(!d.contains(b)) by {
            if d.contains(b) {
                let k = choose|k: int| 0 <= k < d.len() && d[k] == b;
                assert(s[k] == b);
            }
        }
        lemma_not_there(d, b);
    }
}

proof fn lemma_last(a: Seq<u8>, b: u8, rest: Seq<u8>)
    requires
        !rest.contains(b),
    ensures
        last_at(a.push(b) + rest, b) == Some(a.len() as int),
    decreases rest.len(),
{
    let s = a.push(b) + rest;
    if rest.len() == 0 {
        assert(s =~= a.push(b));
    } else {
        let d = rest.drop_last();
        assert(rest.contains(rest[rest.len() - 1]));
        assert(!d.contains(b)) by {
            if d.contains(b) {
                let k = choose|k: int| 0 <= k < d.len() && d[k] == b;
                assert(rest[k] == b);
            }
        }
        lemma_last(a, b, d);
        assert(s.drop_last() =~= a.push(b) + d);
        assert(s.last() == rest.last());
    }
}

/// Paths are read by the first bytes that differ, where a slash comes before every other byte; the
/// beginning of a path comes before the path.
pub proof fn law_reading_order(
    same: Seq<u8>,
    x: u8,
    y: u8,
    a: Seq<u8>,
    b: Seq<u8>,
)
    requires
        y != 0x2f,
        x < y || x == 0x2f,
    ensures
        path_le(same + seq![x] + a, same + seq![y] + b),
        !path_le(same + seq![y] + b, same + seq![x] + a),
        path_le(same, same + a),
        a.len() > 0 ==> !path_le(same + a, same),
    decreases same.len(),
{
    let u = same + seq![x] + a;
    let v = same + seq![y] + b;
    if same.len() > 0 {
        let rest = same.drop_first();
        law_reading_order(rest, x, y, a, b);
        assert(u.drop_first() =~= rest + seq![x] + a);
        assert(v.drop_first() =~= rest + seq![y] + b);
        assert((same + a).drop_first() =~= rest + a);
        assert(u[0] == same[0]);
        assert(v[0] == same[0]);
        assert((same + a)[0] == same[0]);
    } else {
        assert(u[0] == x);
        assert(v[0] == y);
    }
}

/// The message of an export is known by its directory and lies in its folder; a file that could
/// not be read counts as an empty one.
pub proof fn law_exported_message(dir: PathText, c: PffContents)
    ensures
        ({
            let files = exported_texts(dir, c);
            let m = pff_message(files);
            &&& m.source_id == Some(dir.shown)
            &&& m.has_attachments == c.has_attachments
            &&& c.folder matches Some(f) ==> (f@.len() > 0 ==> m.folder_path == Some(f@))
            &&& c.folder is None ==> m.folder_path is None
            &&& c.internet_headers is None ==> files.internet_headers.len() == 0
            &&& c.outlook_headers is None ==> files.outlook_headers.len() == 0
            &&& c.recipients is None ==> files.recipients.len() == 0
            &&& c.internet_headers matches Some(t) ==> files.internet_headers == t@
            &&& c.outlook_headers matches Some(t) ==> files.outlook_headers == t@
            &&& c.recipients matches Some(t) ==> files.recipients == t@
        }),
{
}

// ---------------------------------------------------------------------------------------
// Places
// ---------------------------------------------------------------------------------------

/// A new index is named after its archive, and the last one is noted in a file of its own; what is
/// asked for comes first, then what is noted, and then a name that is always the same.
pub proof fn law_names_of_indexes(stem: Seq<char>, note: Seq<char>)
    ensures
        stem.len() > 0 ==> generated_name(Some(stem)) == stem + ".mailgraph.sqlite"@,
        stem.len() == 0 ==> generated_name(Some(stem)) == generated_name(None),
        generated_name(None) == "mailgraph"@ + ".mailgraph.sqlite"@,
        scan_place(None, Some(stem)) == encode_utf8(generated_name(Some(stem))),
        scan_place(None, None) == encode_utf8(generated_name(None)),
        trimmed(note).len() > 0 ==> existing_place(None, Some(note)) == encode_utf8(trimmed(note)),
        trimmed(note).len() == 0 ==> existing_place(None, Some(note)) == encode_utf8(
            "mailgraph.sqlite"@,
        ),
        existing_place(None, None) == encode_utf8("mailgraph.sqlite"@),
        pointer_path() == ".mailgraph/current-db"@,
{
    reveal_strlit(".mailgraph");
    reveal_strlit("current-db");
    reveal_strlit("/");
    reveal_strlit(".mailgraph/current-db");
    assert(pointer_path() =~= ".mailgraph/current-db"@);
}

/// A path that does not start at the root is looked for in the current directory, with one slash
/// between the two.
pub proof fn law_relative_paths(path: Seq<u8>, dir: Seq<u8>)
    requires
        path.len() == 0 || path[0] != 0x2f,
        dir.len() > 0,
        dir.last() != 0x2f,
    ensures
        absolute(path, Some(dir)) == Some(dir.push(0x2fu8) + path),
        absolute(path, Some(dir.push(0x2fu8))) == Some(dir.push(0x2fu8) + path),
        absolute(path, None) is None,
{
}

// ---------------------------------------------------------------------------------------
// Lines of lists
// ---------------------------------------------------------------------------------------

proof fn lemma_plain(s: Seq<char>, field: Seq<char>)
    requires
        lacks(s, '"'),
        lacks(field, ','),
    ensures
        read_from(s, field, false) == Some(split_on(field + s, ',')),
    decreases s.len(),
{
    if s.len() == 0 {
        assert(field + s =~= field);
        lemma_split_single(field, ',');
    } else {
        let t = s.skip(1);
        assert forall|j: int| 0 <= j < t.len() implies #[trigger] t[j] != '"' by {
            assert(t[j] == s[j + 1]);
        }
        assert(s[0] != '"');
        if s[0] == ',' {
            lemma_plain(t, Seq::empty());
            assert(Seq::<char>::empty() + t =~= t);
            lemma_split_cons(field, ',', t);
            assert(field + s =~= field + seq![','] + t);
        } else {
            lemma_plain(t, field.push(s[0]));
            assert(field.push(s[0]) + t =~= field + s);
        }
    }
}

/// The fields of a line without quotes are what stands between its commas, as it is.
pub proof fn law_plain_line(line: Seq<char>)
    requires
        lacks(line, '"'),
    ensures
        row_fields(line) == Some(split_on(line, ',')),
{
    lemma_plain(line, Seq::empty());
    assert(Seq::<char>::empty() + line =~= line);
}

/// How many quotes a text has.
pub open spec fn quote_count(s: Seq<char>) -> nat {
    s.filter(|c: char| c == '"').len()
}

proof fn lemma_quote_count(s: Seq<char>)
    requires
        s.len() > 0,
    ensures
        quote_count(s) == quote_count(s.skip(1)) + (if s[0] == '"' {
            1int
        } else {
            0
        }),
{
    let p = |c: char| c == '"';
    let one = seq![s[0]];
    assert(s =~= one + s.skip(1));
    Seq::filter_distributes_over_add(one, s.skip(1), p);
    lemma_filter_none(one, p);
    lemma_filter_step(one, 0, p);
    assert(one.take(1) =~= one);
}

proof fn lemma_parity(s: Seq<char>, field: Seq<char>, quoted: bool)
    ensures
        read_from(s, field, quoted) is Some <==> quote_count(s) % 2 == (if quoted {
            1nat
        } else {
            0nat
        }),
    decreases s.len(),
{
    if s.len() == 0 {
        lemma_filter_none(s, |c: char| c == '"');
        assert(s.take(0) =~= s);
    } else {
        lemma_quote_count(s);
        let t = s.skip(1);
        if s[0] == '"' {
            if quoted && s.len() > 1 && s[1] == '"' {
                assert(t[0] == s[1]);
                lemma_quote_count(t);
                assert(t.skip(1) =~= s.skip(2));
                lemma_parity(s.skip(2), field.push('"'), true);
            } else {
                lemma_parity(t, field, !quoted);
            }
        } else if s[0] == ',' && !quoted {
            lemma_parity(t, Seq::empty(), false);
        } else {
            lemma_parity(t, field.push(s[0]), quoted);
        }
    }
}

/// A line can be read just when its quotes are closed: when it has an even number of them.
pub proof fn law_quotes_are_closed(line: Seq<char>)
    ensures
        row_fields(line) is Some <==> quote_count(line) % 2 == 0,
{
    lemma_parity(line, Seq::empty(), false);
}

/// A list is read line by line: each line is a row, in the order of the lines, and one line that
/// cannot be read keeps the whole list from being read.
pub proof fn law_rows_are_lines(lines: Seq<Seq<char>>, i: int)
    requires
        0 <= i < lines.len(),
    ensures
        rows_of(lines) matches Some(rows) ==> rows.len() == lines.len() && row_fields(lines[i])
            == Some(rows[i]),
        row_fields(lines[i]) is None ==> rows_of(lines) is None,
    decreases lines.len(),
{
    let d = lines.drop_last();
    if i < d.len() {
        assert(d[i] == lines[i]);
        law_rows_are_lines(d, i);
    } else if d.len() > 0 {
        law_rows_are_lines(d, 0);
    } else {
        assert(rows_of(d) == Some(Seq::<Seq<Seq<char>>>::empty()));
    }
}

} // verus!
