//! Paths as text.
//!
//! A path is a text whose segments are separated by `/`, on every platform.
//! The final segment is what follows the last `/`. It is a file name unless it
//! is empty, `.` or `..`. The extension of a file name is what follows its
//! last `.`, unless that `.` is the name's first character. A path with its
//! extension taken off is the base to which other extensions are added.

use vstd::prelude::*;
use vstd::string::*;
use crate::text::{chars_of, append_text, slice_of};

verus! {

/// The greatest index at which `s` holds `c`, or -1 where it holds none.
pub open spec fn last_index_of(s: Seq<char>, c: char) -> int
    decreases s.len(),
{
    if s.len() == 0 {
        -1
    } else if s.last() == c {
        s.len() - 1
    } else {
        last_index_of(s.drop_last(), c)
    }
}

/// `last_index_of` gives an index that holds `c` and after which no `c`
/// follows, or -1 and then `s` holds no `c` at all.
pub proof fn lemma_last_index_of(s: Seq<char>, c: char)
    ensures
        -1 <= last_index_of(s, c) < s.len(),
        last_index_of(s, c) >= 0 ==> s[last_index_of(s, c)] == c,
        forall|j: int| last_index_of(s, c) < j < s.len() ==> s[j] != c,
    decreases s.len(),
{
    if s.len() > 0 && s.last() != c {
        lemma_last_index_of(s.drop_last(), c);
        assert forall|j: int| last_index_of(s, c) < j < s.len() implies s[j] != c by {
            if j < s.len() - 1 {
                assert(s.drop_last()[j] == s[j]);
            }
        }
    }
}

/// An index that holds `c` and after which no `c` follows is the one that
/// `last_index_of` gives; -1 is, where `s` holds no `c`.
pub proof fn lemma_last_index_of_is(s: Seq<char>, c: char, i: int)
    requires
        -1 <= i < s.len(),
        i >= 0 ==> s[i] == c,
        forall|j: int| i < j < s.len() ==> s[j] != c,
    ensures
        last_index_of(s, c) == i,
{
    lemma_last_index_of(s, c);
}

/// Where the final segment of `p` starts: just after the last `/`, or at 0.
pub open spec fn name_start(p: Seq<char>) -> int {
    last_index_of(p, '/') + 1
}

/// The final segment of `p`: what follows its last `/`.
pub open spec fn final_segment(p: Seq<char>) -> Seq<char> {
    p.skip(name_start(p))
}

/// The final segment of `p` names a file: it is not empty, `.` or `..`.
pub open spec fn has_file_name(p: Seq<char>) -> bool {
    let name = final_segment(p);
    name.len() > 0 && name != seq!['.'] && name != seq!['.', '.']
}

/// The file name of `p`, where it has one.
pub open spec fn file_name(p: Seq<char>) -> Option<Seq<char>> {
    if has_file_name(p) {
        Some(final_segment(p))
    } else {
        None
    }
}

/// The index in `p` of the `.` that starts its extension, or -1 where `p` has
/// no extension.
pub open spec fn extension_dot(p: Seq<char>) -> int {
    if has_file_name(p) && last_index_of(final_segment(p), '.') > 0 {
        name_start(p) + last_index_of(final_segment(p), '.')
    } else {
        -1
    }
}

/// The extension of `p`, without its `.`, where it has one.
pub open spec fn extension(p: Seq<char>) -> Option<Seq<char>> {
    if extension_dot(p) >= 0 {
        Some(p.skip(extension_dot(p) + 1))
    } else {
        None
    }
}

/// `p` without its extension and the `.` before it; `p` itself where it has
/// no extension.
pub open spec fn strip_extension(p: Seq<char>) -> Seq<char> {
    if extension_dot(p) >= 0 {
        p.take(extension_dot(p))
    } else {
        p
    }
}

/// `p` with the extension `ext` put after it: `p`, a `.` and `ext`.
pub open spec fn add_extension(p: Seq<char>, ext: Seq<char>) -> Seq<char> {
    p + seq!['.'] + ext
}

/// A path that has an extension is what is left of it without the extension,
/// with that extension put after it again.
pub proof fn law_add_extension_undoes_strip(p: Seq<char>, ext: Seq<char>)
    requires
        extension(p) == Some(ext),
    ensures
        add_extension(strip_extension(p), ext) == p,
{
    lemma_last_index_of(p, '/');
    lemma_last_index_of(final_segment(p), '.');
    let d = extension_dot(p);
    assert(p[d] == '.') by {
        assert(final_segment(p)[d - name_start(p)] == p[d]);
    }
    assert(p.take(d) + seq!['.'] + p.skip(d + 1) =~= p);
}

/// `part` appended to `base` as further segments. A `part` that starts with
/// `/` stands alone; otherwise one `/` is put between the two unless `base` is
/// empty or already ends in one.
pub open spec fn join(base: Seq<char>, part: Seq<char>) -> Seq<char> {
    if part.len() > 0 && part[0] == '/' {
        part
    } else if base.len() == 0 || base.last() == '/' {
        base + part
    } else {
        base + seq!['/'] + part
    }
}

/// Finds the last `c` in `v` at or after index `from`.
fn find_last(v: &Vec<char>, from: usize, c: char) -> (r: Option<usize>)
    requires
        from <= v.len(),
    ensures
        match r {
            Some(i) => from <= i < v.len() && last_index_of(v@.skip(from as int), c) == i - from,
            None => last_index_of(v@.skip(from as int), c) == -1,
        },
{
    let mut i: usize = v.len();
    while i > from
        invariant
            from <= i <= v.len(),
            forall|j: int| i <= j < v.len() ==> v@[j] != c,
        decreases i,
    {
        i = i - 1;
        if v[i] == c {
            proof {
                lemma_last_index_of_is(v@.skip(from as int), c, i - from);
            }
            return Some(i);
        }
    }
    proof {
        lemma_last_index_of_is(v@.skip(from as int), c, -1);
    }
    None
}

/// Where the final segment of the path `v` starts.
pub(crate) fn name_start_of(v: &Vec<char>) -> (r: usize)
    ensures
        r == name_start(v@),
        r <= v.len(),
{
    assert(v@.skip(0) =~= v@);
    match find_last(v, 0, '/') {
        Some(i) => i + 1,
        None => 0,
    }
}

/// Whether the final segment of the path `v`, which starts at `start`, names
/// a file.
pub(crate) fn names_file(v: &Vec<char>, start: usize) -> (r: bool)
    requires
        start == name_start(v@),
        start <= v.len(),
    ensures
        r == has_file_name(v@),
{
    let n: usize = v.len() - start;
    let name = Ghost(final_segment(v@));
    if n == 0 {
        false
    } else if n == 1 {
        proof {
            assert(name@[0] == v@[start as int]);
            if v@[start as int] == '.' {
                assert(name@ =~= seq!['.']);
            } else {
                assert(seq!['.'][0] == '.');
            }
        }
        v[start] != '.'
    } else if n == 2 {
        proof {
            assert(name@[0] == v@[start as int] && name@[1] == v@[start + 1]);
            if v@[start as int] == '.' && v@[start + 1] == '.' {
                assert(name@ =~= seq!['.', '.']);
            } else {
                assert(seq!['.', '.'][0] == '.' && seq!['.', '.'][1] == '.');
            }
        }
        !(v[start] == '.' && v[start + 1] == '.')
    } else {
        true
    }
}

/// The index of the `.` that starts the extension of the path `v`.
pub(crate) fn extension_dot_of(v: &Vec<char>) -> (r: Option<usize>)
    ensures
        match r {
            Some(d) => d == extension_dot(v@) && d < v.len(),
            None => extension_dot(v@) == -1,
        },
{
    let start = name_start_of(v);
    if !names_file(v, start) {
        return None;
    }
    match find_last(v, start, '.') {
        Some(d) => if d > start {
            Some(d)
        } else {
            None
        },
        None => None,
    }
}

/// The file name of `path`: its final segment, unless that is empty, `.` or
/// `..`.
pub fn file_name_of(path: &str) -> (r: Option<String>)
    ensures
        r.deep_view() == file_name(path@),
{
    let v = chars_of(path);
    let start = name_start_of(&v);
    if names_file(&v, start) {
        assert(path@.subrange(start as int, v.len() as int) =~= final_segment(path@));
        Some(slice_of(path, start, v.len()))
    } else {
        None
    }
}

/// The extension of `path`, without its `.`.
pub fn extension_of(path: &str) -> (r: Option<String>)
    ensures
        r.deep_view() == extension(path@),
{
    let v = chars_of(path);
    match extension_dot_of(&v) {
        Some(d) => {
            assert(path@.subrange(d + 1, v.len() as int) =~= path@.skip(d + 1));
            Some(slice_of(path, d + 1, v.len()))
        },
        None => None,
    }
}

/// `path` without its extension.
pub fn without_extension(path: &str) -> (r: String)
    ensures
        r@ == strip_extension(path@),
{
    let v = chars_of(path);
    match extension_dot_of(&v) {
        Some(d) => {
            assert(path@.subrange(0, d as int) =~= path@.take(d as int));
            slice_of(path, 0, d)
        },
        None => path.to_owned(),
    }
}

/// `path` with the extension `ext` put after it.
pub fn with_added_extension(path: &str, ext: &str) -> (r: String)
    ensures
        r@ == add_extension(path@, ext@),
{
    proof {
        reveal_strlit(".");
        assert("."@ =~= seq!['.']);
    }
    let dotted = append_text(path, ".");
    append_text(dotted.as_str(), ext)
}

/// `part` appended to `base` as further segments.
pub fn join_paths(base: &str, part: &str) -> (r: String)
    ensures
        r@ == join(base@, part@),
{
    if part.unicode_len() > 0 && part.get_char(0) == '/' {
        return part.to_owned();
    }
    let b = chars_of(base);
    if b.len() == 0 || b[b.len() - 1] == '/' {
        append_text(base, part)
    } else {
        proof {
            reveal_strlit("/");
            assert("/"@ =~= seq!['/']);
        }
        let slashed = append_text(base, "/");
        append_text(slashed.as_str(), part)
    }
}

} // verus!
