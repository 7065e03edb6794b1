//! Paths of module files.

use vstd::prelude::*;
use vstd::string::{StrSliceExecFns, StringExecFns};

verus! {

/// The ending of a source file's name.
pub open spec fn suffix() -> Seq<char> {
    seq!['.', 'f', 'r', 'o', 'n', 'd']
}

pub open spec fn ends_with(s: Seq<char>, t: Seq<char>) -> bool {
    s.len() >= t.len() && s.skip(s.len() - t.len()) == t
}

pub open spec fn starts_with(s: Seq<char>, t: Seq<char>) -> bool {
    s.len() >= t.len() && s.take(t.len() as int) == t
}

/// The segments with slashes between them.
pub open spec fn joined(path: Seq<String>) -> Seq<char>
    decreases path.len(),
{
    if path.len() == 0 {
        seq![]
    } else if path.len() == 1 {
        path[0]@
    } else {
        joined(path.drop_last()).push('/') + path.last()@
    }
}

/// The file of a module: its segments with slashes between them and the ending
/// of source files, unless they end so already.
pub open spec fn file_of(path: Seq<String>) -> Seq<char> {
    if ends_with(joined(path), suffix()) {
        joined(path)
    } else {
        joined(path) + suffix()
    }
}

/// Where the last slash stands; `-1` where there is none.
pub open spec fn last_slash(s: Seq<char>) -> int
    decreases s.len(),
{
    if s.len() == 0 {
        -1
    } else if s.last() == '/' {
        s.len() - 1
    } else {
        last_slash(s.drop_last())
    }
}

proof fn lemma_last_slash(s: Seq<char>)
    ensures
        -1 <= last_slash(s) < s.len(),
        last_slash(s) >= 0 ==> s[last_slash(s)] == '/',
        forall|i: int| last_slash(s) < i < s.len() ==> s[i] != '/',
    decreases s.len(),
{
    if s.len() > 0 && s.last() != '/' {
        lemma_last_slash(s.drop_last());
        assert forall|i: int| last_slash(s) < i < s.len() implies s[i] != '/' by {
            if i < s.len() - 1 {
                assert(s[i] == s.drop_last()[i]);
            }
        }
    }
}

/// The directory of a file, with its slash; empty where the path has none.
pub open spec fn directory_of(path: Seq<char>) -> Seq<char> {
    path.take(last_slash(path) + 1)
}

/// The name of a file in its directory.
pub open spec fn base_of(path: Seq<char>) -> Seq<char> {
    path.skip(last_slash(path) + 1)
}

/// The path without the ending of source files, where it has it.
pub open spec fn without_suffix(path: Seq<char>) -> Option<Seq<char>> {
    if ends_with(path, suffix()) {
        Some(path.take(path.len() - 6))
    } else {
        None
    }
}

/// The name of the module in a file.
pub open spec fn symbol_of(path: Seq<char>) -> Option<Seq<char>> {
    without_suffix(base_of(path))
}

fn has_suffix(s: &String) -> (r: bool)
    ensures
        r == ends_with(s@, suffix()),
{
    let t = s.as_str();
    let n = t.unicode_len();
    if n < 6 {
        return false;
    }
    let tail = t.substring_char(n - 6, n);
    assert(tail@ =~= s@.skip(s@.len() - 6));
    let want: String = ".frond".to_string();
    proof {
        reveal_strlit(".frond");
        assert(want@ =~= suffix());
    }
    tail.to_string() == want
}

/// Whether a path starts with another one.
pub fn has_prefix(s: &String, prefix: &String) -> (r: bool)
    ensures
        r == starts_with(s@, prefix@),
{
    let t = s.as_str();
    let n = t.unicode_len();
    let k = prefix.as_str().unicode_len();
    if n < k {
        return false;
    }
    let head = t.substring_char(0, k);
    assert(head@ =~= s@.take(prefix@.len() as int));
    head.to_string() == *prefix
}

/// The file of a module.
pub fn module_path_to_file(path: &Vec<String>) -> (r: String)
    ensures
        r@ == file_of(path@),
{
    let mut r: String = String::new();
    let mut i: usize = 0;
    assert(r@ =~= joined(path@.take(0)));
    while i < path.len()
        invariant
            i <= path@.len(),
            r@ == joined(path@.take(i as int)),
        decreases path@.len() - i,
    {
        assert(path@.take(i + 1).drop_last() =~= path@.take(i as int));
        if i > 0 {
            r.append("/");
        }
        r.append(path[i].as_str());
        i = i + 1;
        proof {
            reveal_strlit("/");
        }
        assert(r@ =~= joined(path@.take(i as int)));
    }
    assert(path@.take(i as int) =~= path@);
    if !has_suffix(&r) {
        r.append(".frond");
        proof {
            reveal_strlit(".frond");
            assert(r@ =~= joined(path@) + suffix());
        }
    }
    r
}

fn find_last_slash(s: &String) -> (k: usize)
    ensures
        k == last_slash(s@) + 1,
        k <= s@.len(),
{
    let t = s.as_str();
    let n = t.unicode_len();
    let mut i: usize = n;
    assert(s@.take(n as int) =~= s@);
    while i > 0
        invariant
            i <= n == s@.len(),
            t@ == s@,
            last_slash(s@) == last_slash(s@.take(i as int)),
        decreases i,
    {
        assert(s@.take(i as int).drop_last() =~= s@.take(i - 1));
        if t.get_char(i - 1) == '/' {
            return i;
        }
        i = i - 1;
    }
    0
}

/// The directory of a file, with its slash.
pub fn parent_directory(path: &String) -> (r: String)
    ensures
        r@ == directory_of(path@),
{
    let k = find_last_slash(path);
    path.as_str().substring_char(0, k).to_string()
}

/// The path without the ending of source files, where it has it.
pub fn strip_suffix(path: &String) -> (r: Option<String>)
    ensures
        match r {
            Some(s) => without_suffix(path@) == Some(s@),
            None => without_suffix(path@) is None,
        },
{
    if has_suffix(path) {
        let n = path.as_str().unicode_len();
        Some(path.as_str().substring_char(0, n - 6).to_string())
    } else {
        None
    }
}

/// The name of the module in a file.
pub fn extract_last_segment(path: &String) -> (r: Option<String>)
    ensures
        match r {
            Some(s) => symbol_of(path@) == Some(s@),
            None => symbol_of(path@) is None,
        },
{
    let k = find_last_slash(path);
    let n = path.as_str().unicode_len();
    let base = path.as_str().substring_char(k, n).to_string();
    assert(base@ =~= base_of(path@));
    strip_suffix(&base)
}

/// A module's file ends as a source file does, whatever its path.
pub proof fn law_module_files_are_source_files(path: Seq<String>)
    ensures
        ends_with(file_of(path), suffix()),
        symbol_of(file_of(path)) is Some,
        directory_of(file_of(path)) + base_of(file_of(path)) == file_of(path),
{
    let f = file_of(path);
    let n = f.len();
    lemma_last_slash(f);
    if !ends_with(joined(path), suffix()) {
        assert(f.skip(n - 6) =~= suffix());
    }
    assert forall|i: int| n - 6 <= i < n implies f[i] != '/' by {
        assert(f[i] == f.skip(n - 6)[i - (n - 6)]);
    }
    assert(last_slash(f) < n - 6);
    let b = base_of(f);
    assert(b.skip(b.len() - 6) =~= f.skip(n - 6));
    assert(directory_of(f) + b =~= f);
}

/// Segments are joined by slashes, and a file's name ends in `.frond`.
pub proof fn law_paths_are_joined_by_slashes(path: Seq<String>, name: String)
    ensures
        joined(seq![name]) == name@,
        path.len() > 0 ==> joined(path.push(name)) == joined(path) + seq!['/'] + name@,
        file_of(path) == joined(path) || file_of(path) == joined(path) + seq!['.', 'f', 'r', 'o', 'n', 'd'],
{
    if path.len() > 0 {
        assert(path.push(name).drop_last() =~= path);
        assert(joined(path.push(name)) =~= joined(path) + seq!['/'] + name@);
    }
}

/// The name of the module in a module's file is the last segment of its path,
/// and its directory is that of the other segments.
pub proof fn law_files_give_back_the_module(path: Seq<String>, name: String)
    requires
        !name@.contains('/'),
        !ends_with(joined(path.push(name)), suffix()),
    ensures
        symbol_of(file_of(path.push(name))) == Some(name@),
        path.len() > 0 ==> directory_of(file_of(path.push(name))) == joined(path).push('/'),
        path.len() == 0 ==> directory_of(file_of(path.push(name))).len() == 0,
{
    let dir = if path.len() == 0 {
        seq![]
    } else {
        joined(path).push('/')
    };
    let f = file_of(path.push(name));
    let base = name@ + suffix();
    assert(path.push(name).drop_last() =~= path);
    assert(f =~= dir + base);
    assert forall|i: int| dir.len() <= i < f.len() implies f[i] != '/' by {
        let j = i - dir.len();
        assert(f[i] == base[j]);
        if j < name@.len() {
            assert(name@.contains(name@[j]));
        }
    }
    lemma_last_slash(f);
    if path.len() > 0 {
        assert(f[dir.len() - 1] == '/');
    }
    assert(last_slash(f) == dir.len() - 1);
    assert(base_of(f) =~= base);
    assert(directory_of(f) =~= dir);
    assert(base.skip(base.len() - 6) =~= suffix());
    assert(base.take(base.len() - 6) =~= name@);
}

} // verus!
