//! File names, extensions and the Markdown test on the bytes of Unix paths, following
//! `std::path::Path::file_name` and `Path::extension`.

use vstd::prelude::*;
use vstd::string::StringSliceAdditionalSpecFns;
use vstd::utf8::{decode_utf8, valid_utf8};

verus! {

pub const SLASH: u8 = 47;

pub const DOT: u8 = 46;

/// Where the part of `s` after the last `sep` begins (0 when `s` holds no `sep`).
pub open spec fn suffix_start(s: Seq<u8>, sep: u8) -> int
    decreases s.len(),
{
    if s.len() == 0 {
        0
    } else if s.last() == sep {
        s.len() as int
    } else {
        suffix_start(s.drop_last(), sep)
    }
}

/// The part of `s` after its last `sep`.
pub open spec fn after_last(s: Seq<u8>, sep: u8) -> Seq<u8> {
    s.subrange(suffix_start(s, sep), s.len() as int)
}

/// The final component of the path, as `Path::file_name` gives it: trailing separators
/// and `.` components are ignored; a path ending in `..`, a root or an empty path has none.
pub open spec fn file_name(s: Seq<u8>) -> Option<Seq<u8>>
    decreases s.len(),
{
    if s.len() == 0 {
        None
    } else if s.last() == SLASH {
        file_name(s.drop_last())
    } else {
        let c = after_last(s, SLASH);
        if c == seq![DOT] {
            if s.len() == 1 {
                None
            } else {
                file_name(s.drop_last())
            }
        } else if c == seq![DOT, DOT] {
            None
        } else {
            Some(c)
        }
    }
}

/// The extension of a file name, as `Path::extension` gives it: what follows the last
/// `.`, provided something precedes that dot.
pub open spec fn extension(name: Seq<u8>) -> Option<Seq<u8>> {
    let start = suffix_start(name, DOT);
    if start >= 2 && name != seq![DOT, DOT] {
        Some(name.subrange(start, name.len() as int))
    } else {
        None
    }
}

pub open spec fn ascii_lower(b: u8) -> u8 {
    if 65 <= b <= 90 { (b + 32) as u8 } else { b }
}

pub open spec fn lowered(s: Seq<u8>) -> Seq<u8> {
    s.map_values(|b: u8| ascii_lower(b))
}

/// The bytes of `md`.
pub open spec fn md_bytes() -> Seq<u8> {
    seq![109u8, 100u8]
}

/// The bytes of `markdown`.
pub open spec fn markdown_bytes() -> Seq<u8> {
    seq![109u8, 97u8, 114u8, 107u8, 100u8, 111u8, 119u8, 110u8]
}

/// A path names a Markdown file when its extension is `md` or `markdown`, ignoring ASCII case.
pub open spec fn markdown_path(path: Seq<u8>) -> bool {
    match file_name(path) {
        Some(name) => match extension(name) {
            Some(ext) => lowered(ext) == md_bytes() || lowered(ext) == markdown_bytes(),
            None => false,
        },
        None => false,
    }
}

/// Where the part of `s[..end]` after its last `sep` begins.
fn suffix_start_before(s: &[u8], end: usize, sep: u8) -> (start: usize)
    requires
        end <= s@.len(),
    ensures
        start == suffix_start(s@.subrange(0, end as int), sep),
        start <= end,
{
    let mut j = end;
    while j > 0 && s[j - 1] != sep
        invariant
            j <= end <= s@.len(),
            suffix_start(s@.subrange(0, end as int), sep) == suffix_start(s@.subrange(0, j as int), sep),
        decreases j,
    {
        proof {
            assert(s@.subrange(0, j as int).drop_last() =~= s@.subrange(0, j - 1));
        }
        j -= 1;
    }
    proof {
        if j > 0 {
            assert(s@.subrange(0, j as int).last() == sep);
        }
    }
    j
}

/// The byte range of the file name within the path, as `Path::file_name` finds it.
pub fn file_name_range(path: &[u8]) -> (range: Option<(usize, usize)>)
    ensures
        match range {
            Some((a, b)) => a <= b <= path@.len() && file_name(path@) == Some(path@.subrange(a as int, b as int)),
            None => file_name(path@) is None,
        },
{
    let mut end = path.len();
    assert(path@.subrange(0, end as int) =~= path@);
    loop
        invariant
            end <= path@.len(),
            file_name(path@) == file_name(path@.subrange(0, end as int)),
        decreases end,
    {
        let ghost prefix = path@.subrange(0, end as int);
        if end == 0 {
            return None;
        }
        if path[end - 1] == SLASH {
            proof { assert(prefix.drop_last() =~= path@.subrange(0, end - 1)); }
            end -= 1;
        } else {
            let start = suffix_start_before(path, end, SLASH);
            let ghost comp = after_last(prefix, SLASH);
            proof {
                assert(comp =~= path@.subrange(start as int, end as int));
            }
            if end - start == 1 && path[start] == DOT {
                proof { assert(comp =~= seq![DOT]); }
                if end == 1 {
                    return None;
                }
                proof { assert(prefix.drop_last() =~= path@.subrange(0, end - 1)); }
                end -= 1;
            } else if end - start == 2 && path[start] == DOT && path[start + 1] == DOT {
                proof { assert(comp =~= seq![DOT, DOT]); }
                return None;
            } else {
                proof {
                    if comp == seq![DOT] { assert(comp[0] == path@[start as int]); }
                    if comp == seq![DOT, DOT] { assert(comp[1] == path@[start + 1]); }
                }
                return Some((start, end));
            }
        }
    }
}

/// Whether the bytes `s[a..b]`, lowered to ASCII lower case, equal `lit`.
fn lowered_equals(s: &[u8], a: usize, b: usize, lit: &[u8]) -> (eq: bool)
    requires
        a <= b <= s@.len(),
    ensures
        eq == (lowered(s@.subrange(a as int, b as int)) == lit@),
{
    let ghost part = s@.subrange(a as int, b as int);
    if b - a != lit.len() {
        proof { assert(lowered(part).len() == part.len()); }
        return false;
    }
    let mut i: usize = 0;
    while i < lit.len()
        invariant
            a <= b <= s@.len(),
            b - a == lit@.len(),
            part == s@.subrange(a as int, b as int),
            i <= lit@.len(),
            forall|k: int| 0 <= k < i ==> ascii_lower(part[k]) == lit@[k],
        decreases lit@.len() - i,
    {
        let c = s[a + i];
        let lower = if 65 <= c && c <= 90 { c + 32 } else { c };
        if lower != lit[i] {
            proof { assert(lowered(part)[i as int] != lit@[i as int]); }
            return false;
        }
        i += 1;
    }
    proof { assert(lowered(part) =~= lit@); }
    true
}

/// Whether `path` names a Markdown file: its extension is `md` or `markdown`, in any
/// ASCII case. The argument is the bytes of the path.
pub fn is_markdown(path: &[u8]) -> (md: bool)
    ensures
        md == markdown_path(path@),
{
    match file_name_range(path) {
        None => false,
        Some((a, b)) => {
            let ghost name = path@.subrange(a as int, b as int);
            let start = suffix_start_before(path, b, DOT);
            proof {
                lemma_suffix_start_shift(path@, a as int, b as int, DOT);
            }
            let is_double_dot = b - a == 2 && path[a] == DOT && path[a + 1] == DOT;
            proof {
                if name == seq![DOT, DOT] { assert(name[0] == path@[a as int] && name[1] == path@[a + 1]); }
                if is_double_dot { assert(name =~= seq![DOT, DOT]); }
            }
            if start >= a && start - a >= 2 && !is_double_dot {
                proof {
                    assert(name.subrange(start - a, name.len() as int) =~= path@.subrange(start as int, b as int));
                }
                let md: [u8; 2] = [109, 100];
                let markdown: [u8; 8] = [109, 97, 114, 107, 100, 111, 119, 110];
                proof {
                    assert(md@ =~= md_bytes());
                    assert(markdown@ =~= markdown_bytes());
                }
                lowered_equals(path, start, b, md.as_slice()) || lowered_equals(path, start, b, markdown.as_slice())
            } else {
                false
            }
        },
    }
}

/// The last separator in `s[a..b]` is the last one in `s[..b]` when it lies after `a`,
/// positions counted from `a`.
proof fn lemma_suffix_start_shift(s: Seq<u8>, a: int, b: int, sep: u8)
    requires
        0 <= a <= b <= s.len(),
    ensures
        ({
            let whole = suffix_start(s.subrange(0, b), sep);
            let local = suffix_start(s.subrange(a, b), sep);
            if whole >= a { local == whole - a } else { local == 0 }
        }),
    decreases b - a,
{
    if b == a {
        lemma_suffix_start_le(s.subrange(0, b), sep);
    } else {
        assert(s.subrange(0, b).drop_last() =~= s.subrange(0, b - 1));
        assert(s.subrange(a, b).drop_last() =~= s.subrange(a, b - 1));
        if s[b - 1] != sep {
            lemma_suffix_start_shift(s, a, b - 1, sep);
        }
    }
}

proof fn lemma_suffix_start_le(s: Seq<u8>, sep: u8)
    ensures
        0 <= suffix_start(s, sep) <= s.len(),
    decreases s.len(),
{
    if s.len() > 0 && s.last() != sep {
        lemma_suffix_start_le(s.drop_last(), sep);
    }
}

/// Lowering changes exactly the ASCII capital letters, each into its small letter.
pub proof fn lemma_ascii_lower_letters(b: u8)
    ensures
        65 <= b <= 90 ==> ascii_lower(b) == b + 32 && 97 <= ascii_lower(b) <= 122,
        !(65 <= b <= 90) ==> ascii_lower(b) == b,
        ascii_lower(ascii_lower(b)) == ascii_lower(b),
{
}

proof fn lemma_suffix_start_without_sep(s: Seq<u8>, t: Seq<u8>, sep: u8)
    requires
        forall|i: int| 0 <= i < t.len() ==> #[trigger] t[i] != sep,
    ensures
        suffix_start(s + t, sep) == suffix_start(s, sep),
    decreases t.len(),
{
    if t.len() == 0 {
        assert(s + t =~= s);
    } else {
        assert((s + t).drop_last() =~= s + t.drop_last());
        assert((s + t).last() == t.last());
        lemma_suffix_start_without_sep(s, t.drop_last(), sep);
    }
}

/// A file named by a stem, a dot and an extension, in the current folder, is Markdown
/// exactly when its extension is `md` or `markdown` in any ASCII case; the stem does not
/// matter.
pub proof fn lemma_markdown_by_extension(stem: Seq<u8>, ext: Seq<u8>)
    requires
        stem.len() > 0,
        ext.len() > 0,
        forall|i: int| 0 <= i < stem.len() ==> #[trigger] stem[i] != SLASH,
        forall|i: int| 0 <= i < ext.len() ==> #[trigger] ext[i] != SLASH && ext[i] != DOT,
    ensures
        markdown_path(stem + seq![DOT] + ext) == (lowered(ext) == seq![109u8, 100u8]
            || lowered(ext) == seq![109u8, 97u8, 114u8, 107u8, 100u8, 111u8, 119u8, 110u8]),
{
    let path = stem + seq![DOT] + ext;
    let head = stem + seq![DOT];
    assert(path =~= head + ext);
    assert forall|i: int| 0 <= i < path.len() implies #[trigger] path[i] != SLASH by {
        if i < stem.len() {
            assert(path[i] == stem[i]);
        } else if i == stem.len() {
        } else {
            assert(path[i] == ext[i - stem.len() - 1]);
        }
    }
    lemma_suffix_start_without_sep(Seq::<u8>::empty(), path, SLASH);
    assert(Seq::<u8>::empty() + path =~= path);
    assert(after_last(path, SLASH) =~= path);
    assert(path.last() == ext.last());
    assert(path != seq![DOT]) by { assert(path.len() >= 3); }
    assert(path != seq![DOT, DOT]) by { assert(path.len() >= 3); }
    assert(file_name(path) == Some(path));
    lemma_suffix_start_without_sep(head, ext, DOT);
    assert(head.drop_last() =~= stem);
    assert(suffix_start(head, DOT) == head.len());
    assert(path.subrange(head.len() as int, path.len() as int) =~= ext);
    assert(md_bytes() =~= seq![109u8, 100u8]);
    assert(markdown_bytes() =~= seq![109u8, 97u8, 114u8, 107u8, 100u8, 111u8, 119u8, 110u8]);
}

/// Calls `std::str::from_utf8`, which, as its documentation says, gives the bytes as a
/// string slice exactly when they are valid UTF-8.
#[verifier::external_body]
fn str_from_utf8(bytes: &[u8]) -> (s: Option<&str>)
    ensures
        match s {
            Some(t) => valid_utf8(bytes@) && t.spec_bytes() == bytes@,
            None => !valid_utf8(bytes@),
        },
{
    std::str::from_utf8(bytes).ok()
}

/// The file name of the path as text, when it has one and it is valid UTF-8
/// (`Path::file_name` followed by `OsStr::to_str`).
pub open spec fn file_name_text(path: Seq<u8>) -> Option<Seq<char>> {
    match file_name(path) {
        Some(name) => if valid_utf8(name) { Some(decode_utf8(name)) } else { None },
        None => None,
    }
}

/// The file name of `path` as text, if it has one that is valid UTF-8.
pub fn file_name_str(path: &[u8]) -> (name: Option<&str>)
    ensures
        match name {
            Some(t) => file_name_text(path@) == Some(t@),
            None => file_name_text(path@) is None,
        },
{
    match file_name_range(path) {
        None => None,
        Some((a, b)) => {
            let found = str_from_utf8(&path[a..b]);
            proof {
                if let Some(t) = found {
                    vstd::utf8::encode_utf8_decode_utf8(t@);
                }
            }
            found
        },
    }
}

/// The name the program was started under, from the path it was run by: its file name,
/// or `glyphwire` when there is none.
pub fn command_name(argv0: Option<&[u8]>) -> (name: String)
    ensures
        name@ == (match argv0 {
            Some(p) => match file_name_text(p@) {
                Some(n) => n,
                None => "glyphwire"@,
            },
            None => "glyphwire"@,
        }),
{
    match argv0 {
        Some(p) => match file_name_str(p) {
            Some(n) => n.to_owned(),
            None => "glyphwire".to_owned(),
        },
        None => "glyphwire".to_owned(),
    }
}

/// The title of the window that shows `path`: `<file name> // Glyphwire`, or `Glyphwire`
/// when the path has no file name in UTF-8.
pub fn window_title(path: &[u8]) -> (title: String)
    ensures
        title@ == (match file_name_text(path@) {
            Some(n) => n + " // Glyphwire"@,
            None => "Glyphwire"@,
        }),
{
    match file_name_str(path) {
        Some(n) => {
            let mut title = n.to_owned();
            title.append(" // Glyphwire");
            title
        },
        None => "Glyphwire".to_owned(),
    }
}

} // verus!
