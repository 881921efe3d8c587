//! Paths as the disk has them: bytes, with a slash between names.
use vstd::prelude::*;
use vstd::utf8::{encode_utf8, valid_utf8};

use crate::archive::{decode_lossy, lossy_text};
use crate::readers::FoundPath;

verus! {

/// The byte between names.
pub const SLASH: u8 = 0x2f;

/// The byte before an extension.
pub const DOT: u8 = 0x2e;

/// Where a byte stands last.
pub open spec fn last_at(s: Seq<u8>, b: u8) -> Option<int>
    decreases s.len(),
{
    if s.len() == 0 {
        None
    } else if s.last() == b {
        Some(s.len() - 1)
    } else {
        last_at(s.drop_last(), b)
    }
}

fn find_last(s: &[u8], b: u8) -> (r: Option<usize>)
    ensures
        match r {
            Some(i) => last_at(s@, b) == Some(i as int) && i < s@.len(),
            None => last_at(s@, b) is None,
        },
{
    let mut i: usize = s.len();
    assert(s@.take(i as int) =~= s@);
    while i > 0
        invariant
            0 <= i <= s@.len(),
            last_at(s@.take(i as int), b) == last_at(s@, b),
        decreases i,
    {
        assert(s@.take(i as int).drop_last() =~= s@.take(i - 1));
        assert(s@.take(i as int).last() == s@[i - 1]);
        if s[i - 1] == b {
            return Some(i - 1);
        }
        i = i - 1;
    }
    None
}

fn copy_part(s: &[u8], from: usize, to: usize) -> (r: Vec<u8>)
    requires
        from <= to <= s@.len(),
    ensures
        r@ == s@.subrange(from as int, to as int),
{
    let mut out: Vec<u8> = Vec::new();
    let mut i: usize = from;
    while i < to
        invariant
            from <= i <= to <= s@.len(),
            out@ == s@.subrange(from as int, i as int),
        decreases to - i,
    {
        out.push(s[i]);
        assert(out@ =~= s@.subrange(from as int, i + 1));
        i = i + 1;
    }
    out
}

fn same_bytes(a: &[u8], b: &[u8]) -> (r: bool)
    ensures
        r == (a@ == b@),
{
    if a.len() != b.len() {
        return false;
    }
    let mut i: usize = 0;
    while i < a.len()
        invariant
            0 <= i <= a@.len(),
            a@.len() == b@.len(),
            forall|j: int| 0 <= j < i ==> #[trigger] a@[j] == b@[j],
        decreases a@.len() - i,
    {
        if a[i] != b[i] {
            return false;
        }
        i = i + 1;
    }
    assert(a@ =~= b@);
    true
}

/// The text that bytes are the encoding of, if they are valid UTF-8.
pub fn text_of(bytes: &[u8]) -> (r: Option<String>)
    ensures
        match r {
            Some(s) => encode_utf8(s@) == bytes@,
            None => !valid_utf8(bytes@),
        },
{
    let text = decode_lossy(bytes);
    if same_bytes(text.as_str().as_bytes(), bytes) {
        Some(text)
    } else {
        None
    }
}

/// The last name of a path.
pub open spec fn name_of(path: Seq<u8>) -> Seq<u8> {
    match last_at(path, SLASH) {
        Some(i) => path.skip(i + 1),
        None => path,
    }
}

/// What is behind the last dot of a name, unless nothing is before it.
pub open spec fn extension_bytes(name: Seq<u8>) -> Option<Seq<u8>> {
    match last_at(name, DOT) {
        Some(i) if i > 0 && name != seq![DOT, DOT] => Some(name.skip(i + 1)),
        _ => None,
    }
}

/// The extension of the last name of a path, if it has one and it is text.
pub fn extension_of(path: &[u8]) -> (r: Option<String>)
    ensures
        match extension_bytes(name_of(path@)) {
            Some(b) => match r {
                Some(s) => encode_utf8(s@) == b,
                None => !valid_utf8(b),
            },
            None => r is None,
        },
{
    let n = path.len();
    let start: usize = match find_last(path, SLASH) {
        Some(i) => i + 1,
        None => 0,
    };
    let name = copy_part(path, start, n);
    assert(name@ =~= name_of(path@));
    match find_last(name.as_slice(), DOT) {
        Some(i) => {
            let two_dots = name.len() == 2 && name[0] == DOT && name[1] == DOT;
            assert(two_dots == (name@ =~= seq![DOT, DOT]));
            if i == 0 || two_dots {
                return None;
            }
            let extension = copy_part(name.as_slice(), i + 1, name.len());
            assert(extension@ =~= name@.skip(i + 1));
            text_of(extension.as_slice())
        },
        None => None,
    }
}

/// A directory with the slash that goes before a name in it.
pub open spec fn with_slash(dir: Seq<u8>) -> Seq<u8> {
    if dir.len() == 0 || dir.last() == SLASH {
        dir
    } else {
        dir.push(SLASH)
    }
}

/// The folder under a root that a path lies in: what is between the root and the last name.
/// What is not under the root lies in no folder of it.
pub open spec fn folder_bytes(path: Seq<u8>, root: Seq<u8>) -> Option<Seq<u8>> {
    let base = with_slash(root);
    if base.len() < path.len() && path.take(base.len() as int) == base {
        let rest = path.skip(base.len() as int);
        match last_at(rest, SLASH) {
            Some(i) => Some(rest.take(i)),
            None => Some(Seq::empty()),
        }
    } else {
        None
    }
}

fn add_slash(dir: &mut Vec<u8>)
    ensures
        final(dir)@ == with_slash(old(dir)@),
{
    let n = dir.len();
    if n > 0 && dir[n - 1] != SLASH {
        dir.push(SLASH);
    }
}

/// The folder under a root that a path lies in, as it is shown. Both are as a search finds them:
/// the path goes on where the root ends.
pub fn folder_of(path: &FoundPath, root: &FoundPath) -> (r: Option<String>)
    ensures
        match folder_bytes(path.name@, root.name@) {
            Some(b) => r matches Some(s) && s@ == lossy_text(b),
            None => r is None,
        },
{
    let mut base = copy_part(root.name.as_slice(), 0, root.name.len());
    assert(base@ =~= root.name@);
    add_slash(&mut base);
    let n = base.len();
    if n >= path.name.len() {
        return None;
    }
    let start = copy_part(path.name.as_slice(), 0, n);
    assert(start@ =~= path.name@.take(n as int));
    if !same_bytes(start.as_slice(), base.as_slice()) {
        return None;
    }
    let rest = copy_part(path.name.as_slice(), n, path.name.len());
    assert(rest@ =~= path.name@.skip(n as int));
    let end = match find_last(rest.as_slice(), SLASH) {
        Some(i) => i,
        None => 0,
    };
    let folder = copy_part(rest.as_slice(), 0, end);
    proof {
        match last_at(rest@, SLASH) {
            Some(i) => {
                assert(folder@ =~= rest@.take(i));
            },
            None => {
                assert(folder@ =~= Seq::empty());
            },
        }
    }
    Some(decode_lossy(folder.as_slice()))
}

/// Whether a path starts at the root of the disk.
pub open spec fn is_absolute(path: Seq<u8>) -> bool {
    path.len() > 0 && path[0] == SLASH
}

/// A path from the root of the disk: the path itself, or else the path as seen from the current
/// directory. Without a current directory there is none.
pub open spec fn absolute(path: Seq<u8>, current_dir: Option<Seq<u8>>) -> Option<Seq<u8>> {
    if is_absolute(path) {
        Some(path)
    } else {
        match current_dir {
            Some(dir) => Some(with_slash(dir) + path),
            None => None,
        }
    }
}

/// Makes a path start at the root of the disk.
pub fn make_absolute(path: Vec<u8>, current_dir: Option<Vec<u8>>) -> (r: Option<Vec<u8>>)
    ensures
        match (absolute(path@, opt_bytes(current_dir)), r) {
            (Some(want), Some(got)) => got@ == want,
            (None, None) => true,
            _ => false,
        },
{
    if path.len() > 0 && path[0] == SLASH {
        return Some(path);
    }
    match current_dir {
        Some(dir) => {
            let mut whole = dir;
            let mut rest = path;
            add_slash(&mut whole);
            whole.append(&mut rest);
            Some(whole)
        },
        None => None,
    }
}

/// The bytes of an optional path.
pub open spec fn opt_bytes(v: Option<Vec<u8>>) -> Option<Seq<u8>> {
    match v {
        Some(b) => Some(b@),
        None => None,
    }
}

/// The bytes of a text.
pub fn bytes_of(text: &str) -> (r: Vec<u8>)
    ensures
        r@ == encode_utf8(text@),
{
    let bytes = text.as_bytes();
    let r = copy_part(bytes, 0, bytes.len());
    assert(r@ =~= bytes@);
    r
}

/// With a current directory that starts at the root of the disk, so does what is made of any
/// path.
pub proof fn law_absolute_is_absolute(path: Seq<u8>, current_dir: Seq<u8>)
    requires
        is_absolute(current_dir),
    ensures
        absolute(path, Some(current_dir)) matches Some(p) && is_absolute(p),
{
}

/// A path from the root is left as it is, wherever one is.
pub proof fn law_absolute_stays(path: Seq<u8>, current_dir: Option<Seq<u8>>)
    requires
        is_absolute(path),
    ensures
        absolute(path, current_dir) == Some(path),
{
}

/// A file in folders under a root lies in those folders.
pub proof fn law_folder_of_found(root: Seq<u8>, folder: Seq<u8>, name: Seq<u8>)
    requires
        name.len() > 0,
        !name.contains(SLASH),
    ensures
        folder_bytes(with_slash(root) + name, root) == Some(Seq::<u8>::empty()),
        folder_bytes(with_slash(root) + folder.push(SLASH) + name, root) == Some(folder),
{
    let base = with_slash(root);
    lemma_last_at(Seq::empty(), name);
    lemma_last_at(folder.push(SLASH), name);
    assert(Seq::<u8>::empty() + name =~= name);
    let a = base + name;
    assert(a.take(base.len() as int) =~= base);
    assert(a.skip(base.len() as int) =~= name);
    let b = base + folder.push(SLASH) + name;
    assert(b.take(base.len() as int) =~= base);
    assert(b.skip(base.len() as int) =~= folder.push(SLASH) + name);
    assert(folder.push(SLASH).drop_last() =~= folder);
    assert((folder.push(SLASH) + name).take(folder.len() as int) =~= folder);
}

proof fn lemma_last_at(a: Seq<u8>, name: Seq<u8>)
    requires
        !name.contains(SLASH),
    ensures
        last_at(a + name, SLASH) == last_at(a, SLASH),
    decreases name.len(),
{
    if name.len() == 0 {
        assert(a + name =~= a);
    } else {
        let d = name.drop_last();
        assert(name.contains(name[name.len() - 1]));
        assert(!d.contains(SLASH)) by {
            if d.contains(SLASH) {
                let k = choose|k: int| 0 <= k < d.len() && d[k] == SLASH;
                assert(name[k] == SLASH);
            }
        }
        lemma_last_at(a, d);
        assert((a + name).drop_last() =~= a + d);
        assert((a + name).last() == name.last());
    }
}

} // verus!
