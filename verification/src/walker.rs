//! Which files of a source tree are read, and as what.

use crate::chars::{chars_of, is_text};
use vstd::prelude::*;

verus! {

/// Whether `pattern` stands in `s` at the position `i`.
pub open spec fn occurs_at(s: Seq<char>, pattern: Seq<char>, i: int) -> bool {
    0 <= i && i + pattern.len() <= s.len() && s.subrange(i, i + pattern.len()) == pattern
}

/// Whether `pattern` stands somewhere in `s`.
pub open spec fn contains_text(s: Seq<char>, pattern: Seq<char>) -> bool {
    exists|i: int| occurs_at(s, pattern, i)
}

/// Whether one of the patterns of `exclude` stands somewhere in `path`.
pub open spec fn is_excluded(path: Seq<char>, exclude: Seq<Seq<char>>) -> bool {
    exists|k: int| 0 <= k < exclude.len() && contains_text(path, #[trigger] exclude[k])
}

/// Whether `c` stands in `s` at `i` and nowhere behind `i`.
pub open spec fn is_last(s: Seq<char>, c: char, i: int) -> bool {
    0 <= i < s.len() && s[i] == c && forall|j: int| i < j < s.len() ==> s[j] != c
}

/// The name of the file that `path` leads to: what stands behind the last
/// `/`, or all of `path` where it has none.
pub open spec fn file_name(path: Seq<char>) -> Seq<char> {
    if path.contains('/') {
        path.skip((choose|i: int| is_last(path, '/', i)) + 1)
    } else {
        path
    }
}

/// The extension of the file name `name`: what stands behind its last `.`.
/// A name without a `.` has none, nor has one whose only `.` begins it, nor
/// has the name `..`.
pub open spec fn name_extension(name: Seq<char>) -> Option<Seq<char>> {
    if !name.contains('.') || name == seq!['.', '.'] {
        None
    } else {
        let i = choose|i: int| is_last(name, '.', i);
        if i == 0 {
            None
        } else {
            Some(name.skip(i + 1))
        }
    }
}

/// The extension of the file that `path` leads to.
pub open spec fn extension(path: Seq<char>) -> Option<Seq<char>> {
    name_extension(file_name(path))
}

/// As what a source file is read.
#[derive(Debug, Clone, Copy, PartialEq, Eq, Structural)]
pub enum SourceKind {
    /// Declarations of TypeScript.
    Declaration,
    /// TypeScript.
    TypeScript,
    /// TypeScript with embedded markup.
    Tsx,
    /// JavaScript.
    JavaScript,
    /// JavaScript with embedded markup.
    Jsx,
}

/// As what a file with the extension `ext` is read; `None` where files with
/// that extension are not read.
pub open spec fn kind_of_extension(ext: Seq<char>) -> Option<SourceKind> {
    if ext == "d.ts"@ {
        Some(SourceKind::Declaration)
    } else if ext == "ts"@ {
        Some(SourceKind::TypeScript)
    } else if ext == "tsx"@ {
        Some(SourceKind::Tsx)
    } else if ext == "js"@ {
        Some(SourceKind::JavaScript)
    } else if ext == "jsx"@ {
        Some(SourceKind::Jsx)
    } else {
        None
    }
}

/// As what the file that `path` leads to is read; `None` where it is not
/// read.
pub open spec fn kind_of(path: Seq<char>) -> Option<SourceKind> {
    match extension(path) {
        Some(ext) => kind_of_extension(ext),
        None => None,
    }
}

/// Whether the file that `path` leads to is a candidate: no pattern of
/// `exclude` stands in its path, and its extension is `ts`, `tsx`, `js` or
/// `jsx`.
pub open spec fn is_candidate(path: Seq<char>, exclude: Seq<Seq<char>>) -> bool {
    !is_excluded(path, exclude) && (match extension(path) {
        Some(ext) => ext == "ts"@ || ext == "tsx"@ || ext == "js"@ || ext == "jsx"@,
        None => false,
    })
}

/// The position of the last `c` in `s`, if `s` holds one.
pub fn last_position(s: &Vec<char>, c: char) -> (r: Option<usize>)
    ensures
        match r {
            Some(i) => is_last(s@, c, i as int),
            None => !s@.contains(c),
        },
{
    let mut i: usize = s.len();
    while i > 0
        invariant
            i <= s.len(),
            forall|j: int| i <= j < s.len() ==> s@[j] != c,
        decreases i,
    {
        i = i - 1;
        if s[i] == c {
            return Some(i);
        }
    }
    None
}

/// What stands in `s` from the position `from` on.
fn tail(s: &Vec<char>, from: usize) -> (r: Vec<char>)
    requires
        from <= s.len(),
    ensures
        r@ == s@.skip(from as int),
{
    let mut r: Vec<char> = Vec::new();
    crate::chars::append_range(&mut r, s, from, s.len());
    assert(s@.subrange(from as int, s.len() as int) == s@.skip(from as int));
    r
}

/// The position of the last `c` is one position.
proof fn lemma_last_unique(s: Seq<char>, c: char, i: int)
    requires
        is_last(s, c, i),
    ensures
        s.contains(c),
        (choose|k: int| is_last(s, c, k)) == i,
{
    let k = choose|k: int| is_last(s, c, k);
    assert(is_last(s, c, k));
    if k < i {
        assert(s[i] != c);
    }
    if i < k {
        assert(s[k] != c);
    }
}

/// The extension of the file that `path` leads to.
pub fn extension_of(path: &Vec<char>) -> (r: Option<Vec<char>>)
    ensures
        match r {
            Some(ext) => extension(path@) == Some(ext@),
            None => extension(path@) is None,
        },
{
    let name = match last_position(path, '/') {
        Some(i) => {
            proof {
                lemma_last_unique(path@, '/', i as int);
            }
            assert(i < path.len());
            tail(path, i + 1)
        },
        None => tail(path, 0),
    };
    assert(name@ == file_name(path@));
    if name.len() == 2 && name[0] == '.' && name[1] == '.' {
        assert(name@ == seq!['.', '.']);
        return None;
    }
    match last_position(&name, '.') {
        Some(i) => {
            proof {
                lemma_last_unique(name@, '.', i as int);
                if name@ == seq!['.', '.'] {
                    assert(name@.len() == 2);
                }
            }
            assert(i < name.len());
            if i == 0 {
                None
            } else {
                Some(tail(&name, i + 1))
            }
        },
        None => None,
    }
}

/// As what the file that `path` leads to is read; `None` where it is not
/// read.
pub fn source_kind(path: &str) -> (r: Option<SourceKind>)
    ensures
        r == kind_of(path@),
{
    match extension_of(&chars_of(path)) {
        Some(ext) => {
            if is_text(&ext, "d.ts") {
                Some(SourceKind::Declaration)
            } else if is_text(&ext, "ts") {
                Some(SourceKind::TypeScript)
            } else if is_text(&ext, "tsx") {
                Some(SourceKind::Tsx)
            } else if is_text(&ext, "js") {
                Some(SourceKind::JavaScript)
            } else if is_text(&ext, "jsx") {
                Some(SourceKind::Jsx)
            } else {
                None
            }
        },
        None => None,
    }
}

/// Whether `pattern` stands in `s` at the position `i`.
fn stands_at(s: &Vec<char>, pattern: &Vec<char>, i: usize) -> (r: bool)
    requires
        i + pattern.len() <= s.len(),
    ensures
        r == occurs_at(s@, pattern@, i as int),
{
    let mut k: usize = 0;
    while k < pattern.len()
        invariant
            k <= pattern.len(),
            i + pattern.len() <= s.len(),
            forall|j: int| 0 <= j < k ==> s@[i + j] == pattern@[j],
        decreases pattern.len() - k,
    {
        if s[i + k] != pattern[k] {
            assert(s@.subrange(i as int, i + pattern.len())[k as int] != pattern@[k as int]);
            return false;
        }
        k = k + 1;
    }
    assert(s@.subrange(i as int, i + pattern.len()) =~= pattern@);
    true
}

/// Whether `pattern` stands somewhere in `s`.
pub fn text_contains(s: &Vec<char>, pattern: &Vec<char>) -> (r: bool)
    ensures
        r == contains_text(s@, pattern@),
{
    if pattern.len() > s.len() {
        return false;
    }
    let last: usize = s.len() - pattern.len();
    let mut i: usize = 0;
    while i < last
        invariant
            i <= last,
            last == s.len() - pattern.len(),
            forall|j: int| 0 <= j < i ==> !occurs_at(s@, pattern@, j),
        decreases last - i,
    {
        if stands_at(s, pattern, i) {
            return true;
        }
        i = i + 1;
    }
    stands_at(s, pattern, last)
}

/// Whether the file that `path` leads to is a candidate: no pattern of
/// `exclude` stands in its path, and its extension is `ts`, `tsx`, `js` or
/// `jsx`.
pub fn is_source_file(path: &str, exclude: &Vec<String>) -> (r: bool)
    ensures
        r == is_candidate(path@, crate::chars::texts_of(exclude@)),
{
    let p = chars_of(path);
    let mut k: usize = 0;
    while k < exclude.len()
        invariant
            k <= exclude.len(),
            p@ == path@,
            forall|j: int|
                0 <= j < k ==> !contains_text(path@, #[trigger] crate::chars::texts_of(exclude@)[j]),
        decreases exclude.len() - k,
    {
        if text_contains(&p, &chars_of(exclude[k].as_str())) {
            assert(contains_text(path@, crate::chars::texts_of(exclude@)[k as int]));
            return false;
        }
        k = k + 1;
    }
    match extension_of(&p) {
        Some(ext) => is_text(&ext, "ts") || is_text(&ext, "tsx") || is_text(&ext, "js") || is_text(
            &ext,
            "jsx",
        ),
        None => false,
    }
}

/// An extension holds no `.`.
pub proof fn lemma_extension_has_no_dot(path: Seq<char>)
    ensures
        match extension(path) {
            Some(ext) => !ext.contains('.'),
            None => true,
        },
{
    let name = file_name(path);
    if name.contains('.') && name != seq!['.', '.'] {
        let i = choose|i: int| is_last(name, '.', i);
        let k = name.index_of('.');
        assert(name[k] == '.');
        lemma_last_exists(name, '.');
        if i != 0 {
            let ext = name.skip(i + 1);
            if ext.contains('.') {
                let j = ext.index_of('.');
                assert(ext[j] == '.');
                assert(name[i + 1 + j] == '.');
            }
        }
    }
}

/// A sequence that holds `c` holds a last `c`.
proof fn lemma_last_exists(s: Seq<char>, c: char)
    requires
        s.contains(c),
    ensures
        is_last(s, c, choose|k: int| is_last(s, c, k)),
    decreases s.len(),
{
    if s.last() == c {
        assert(is_last(s, c, s.len() - 1));
    } else {
        let k = s.index_of(c);
        assert(s[k] == c);
        assert(s.drop_last()[k] == c);
        lemma_last_exists(s.drop_last(), c);
        let i = choose|i: int| is_last(s.drop_last(), c, i);
        assert forall|j: int| i < j < s.len() implies s[j] != c by {
            if j < s.len() - 1 {
                assert(s.drop_last()[j] != c);
            }
        }
        assert(s[i] == s.drop_last()[i]);
        assert(is_last(s, c, i));
    }
}

/// No file is read as declarations: the extension of a declaration file,
/// whose name ends in `.d.ts`, is `ts`.
pub proof fn lemma_never_declaration(path: Seq<char>)
    ensures
        kind_of(path) != Some(SourceKind::Declaration),
{
    lemma_extension_has_no_dot(path);
    reveal_strlit("d.ts");
    if let Some(ext) = extension(path) {
        if ext == "d.ts"@ {
            assert(ext[1] == '.');
            assert(ext.contains('.'));
        }
    }
}

} // verus!
