//! Workspace paths: `/`-separated names relative to the workspace root.
use vstd::prelude::*;
use vstd::string::*;

use crate::text::{
    chars_of, lower, lower_of, push_all, push_range, same_chars, slice_of, starts_with,
    starts_with_exec, string_of,
};

verus! {

/// Position of the last `c` in `s`, if any.
pub open spec fn last_index_of(s: Seq<char>, c: char) -> Option<int>
    decreases s.len(),
{
    if s.len() == 0 {
        None
    } else if s.last() == c {
        Some(s.len() - 1)
    } else {
        last_index_of(s.drop_last(), c)
    }
}

pub proof fn lemma_last_index_of(s: Seq<char>, c: char)
    ensures
        match last_index_of(s, c) {
            Some(i) => 0 <= i < s.len() && s[i] == c && forall|j: int| i < j < s.len() ==> s[j] != c,
            None => forall|j: int| 0 <= j < s.len() ==> s[j] != c,
        },
    decreases s.len(),
{
    if s.len() > 0 && s.last() != c {
        lemma_last_index_of(s.drop_last(), c);
        let t = s.drop_last();
        assert forall|j: int| 0 <= j < t.len() implies s[j] == t[j] by {}
    }
}

/// Folder that holds `path`: everything before its last `/`, or the root (`""`).
pub open spec fn parent_of(path: Seq<char>) -> Seq<char> {
    match last_index_of(path, '/') {
        Some(i) => path.take(i),
        None => Seq::empty(),
    }
}

/// Last component of `path`: everything after its last `/`.
pub open spec fn file_name_of(path: Seq<char>) -> Seq<char> {
    match last_index_of(path, '/') {
        Some(i) => path.skip(i + 1),
        None => path,
    }
}

/// Extension of `path`: what follows the last `.` of its file name, if there is a `.`.
pub open spec fn file_ext_of(path: Seq<char>) -> Option<Seq<char>> {
    let name = file_name_of(path);
    match last_index_of(name, '.') {
        Some(i) => Some(name.skip(i + 1)),
        None => None,
    }
}

/// `name` placed inside `parent` (the root when `parent` is empty).
pub open spec fn join_of(parent: Seq<char>, name: Seq<char>) -> Seq<char> {
    if parent.len() == 0 {
        name
    } else {
        parent + seq!['/'] + name
    }
}

/// `path` is `dir` itself or lies below it.
pub open spec fn is_at_or_below(path: Seq<char>, dir: Seq<char>) -> bool {
    path == dir || starts_with(path, dir + seq!['/'])
}

/// `path` after `old` was renamed to `new`: the `old` part of a path at or below
/// `old` becomes `new`; other paths stay as they are.
pub open spec fn rewrite_of(path: Seq<char>, old: Seq<char>, new: Seq<char>) -> Seq<char> {
    if path == old {
        new
    } else if starts_with(path, old + seq!['/']) {
        new + path.skip(old.len() as int)
    } else {
        path
    }
}

/// `dir` is a proper ancestor folder of `path`: a non-empty prefix of `path` that
/// ends right before one of its `/`.
pub open spec fn is_proper_ancestor(dir: Seq<char>, path: Seq<char>) -> bool {
    exists|i: int| 0 < i < path.len() && path[i] == '/' && dir == #[trigger] path.take(i)
}

/// The image extensions the workspace knows (lower case).
pub open spec fn is_image_ext(ext: Seq<char>) -> bool {
    ||| ext == seq!['j', 'p', 'g']
    ||| ext == seq!['j', 'p', 'e', 'g']
    ||| ext == seq!['p', 'n', 'g']
    ||| ext == seq!['i', 'c', 'o']
    ||| ext == seq!['i', 'c', 'o', 'n']
}

/// `path` names an image (by extension, in any letter case).
pub open spec fn is_image_path(path: Seq<char>) -> bool {
    match file_ext_of(path) {
        Some(e) => is_image_ext(lower(e)),
        None => false,
    }
}

/// Position of the last `c` in `s`.
pub fn last_index_exec(s: &Vec<char>, c: char) -> (r: Option<usize>)
    ensures
        match r {
            Some(i) => last_index_of(s@, c) == Some(i as int),
            None => last_index_of(s@, c) is None,
        },
{
    let mut n = s.len();
    assert(s@.take(n as int) =~= s@);
    while n > 0 && s[n - 1] != c
        invariant
            n <= s@.len(),
            last_index_of(s@, c) == last_index_of(s@.take(n as int), c),
        decreases n,
    {
        assert(s@.take(n as int).drop_last() =~= s@.take(n - 1));
        n = n - 1;
    }
    if n == 0 {
        assert(s@.take(0) =~= Seq::<char>::empty());
        None
    } else {
        Some(n - 1)
    }
}

/// Folder part of `path`, as characters.
pub fn parent_chars(path: &Vec<char>) -> (r: Vec<char>)
    ensures
        r@ == parent_of(path@),
{
    proof {
        lemma_last_index_of(path@, '/');
    }
    match last_index_exec(path, '/') {
        Some(i) => slice_of(path, 0, i),
        None => Vec::new(),
    }
}

/// File-name part of `path`, as characters.
pub fn file_name_chars(path: &Vec<char>) -> (r: Vec<char>)
    ensures
        r@ == file_name_of(path@),
{
    proof {
        lemma_last_index_of(path@, '/');
    }
    let n = path.len();
    match last_index_exec(path, '/') {
        Some(i) => slice_of(path, i + 1, n),
        None => slice_of(path, 0, path.len()),
    }
}

/// Extension of `path`, as characters.
pub fn file_ext_chars(path: &Vec<char>) -> (r: Option<Vec<char>>)
    ensures
        match r {
            Some(e) => file_ext_of(path@) == Some(e@),
            None => file_ext_of(path@) is None,
        },
{
    let name = file_name_chars(path);
    proof {
        lemma_last_index_of(name@, '.');
    }
    let n = name.len();
    match last_index_exec(&name, '.') {
        Some(i) => Some(slice_of(&name, i + 1, n)),
        None => None,
    }
}

/// `name` placed inside `parent`, as characters.
pub fn join_chars(parent: &Vec<char>, name: &Vec<char>) -> (r: Vec<char>)
    ensures
        r@ == join_of(parent@, name@),
{
    let mut r: Vec<char> = Vec::new();
    if parent.len() == 0 {
        push_all(&mut r, name);
        assert(r@ =~= name@);
    } else {
        push_all(&mut r, parent);
        r.push('/');
        push_all(&mut r, name);
        assert(r@ =~= parent@ + seq!['/'] + name@);
    }
    r
}

/// `dir` followed by `/`.
pub fn with_slash(dir: &Vec<char>) -> (r: Vec<char>)
    ensures
        r@ == dir@ + seq!['/'],
{
    let mut r: Vec<char> = Vec::new();
    push_all(&mut r, dir);
    r.push('/');
    assert(r@ =~= dir@ + seq!['/']);
    r
}

/// Whether `path` is `dir` or lies below it.
pub fn at_or_below_chars(path: &Vec<char>, dir: &Vec<char>) -> (r: bool)
    ensures
        r == is_at_or_below(path@, dir@),
{
    same_chars(path, dir) || starts_with_exec(path, &with_slash(dir))
}

/// `path` after renaming `old` to `new`, as characters.
pub fn rewrite_chars(path: &Vec<char>, old: &Vec<char>, new: &Vec<char>) -> (r: Vec<char>)
    ensures
        r@ == rewrite_of(path@, old@, new@),
{
    if same_chars(path, old) {
        slice_of(new, 0, new.len())
    } else if starts_with_exec(path, &with_slash(old)) {
        let mut r: Vec<char> = Vec::new();
        push_all(&mut r, new);
        push_range(&mut r, path, old.len(), path.len());
        assert(r@ =~= new@ + path@.skip(old@.len() as int));
        r
    } else {
        assert(path@.subrange(0, path@.len() as int) =~= path@);
        slice_of(path, 0, path.len())
    }
}

/// Whether `ext` (already lower case) is an image extension.
pub fn is_image_ext_exec(ext: &Vec<char>) -> (r: bool)
    ensures
        r == is_image_ext(ext@),
{
    same_chars(ext, &vec!['j', 'p', 'g']) || same_chars(ext, &vec!['j', 'p', 'e', 'g'])
        || same_chars(ext, &vec!['p', 'n', 'g']) || same_chars(ext, &vec!['i', 'c', 'o'])
        || same_chars(ext, &vec!['i', 'c', 'o', 'n'])
}

/// Whether `path` names an image, as characters.
pub fn is_image_chars(path: &Vec<char>) -> (r: bool)
    ensures
        r == is_image_path(path@),
{
    match file_ext_chars(path) {
        Some(e) => is_image_ext_exec(&lower_of(&e)),
        None => false,
    }
}

/// Folder that holds `path` (`""` for a path at the root).
pub fn parent_path(path: &str) -> (r: String)
    ensures
        r@ == parent_of(path@),
{
    string_of(&parent_chars(&chars_of(path)))
}

/// Last component of `path`.
pub fn file_name(path: &str) -> (r: String)
    ensures
        r@ == file_name_of(path@),
{
    string_of(&file_name_chars(&chars_of(path)))
}

/// Extension of `path`'s file name, if it has a `.`.
pub fn file_ext(path: &str) -> (r: Option<String>)
    ensures
        match r {
            Some(e) => file_ext_of(path@) == Some(e@),
            None => file_ext_of(path@) is None,
        },
{
    match file_ext_chars(&chars_of(path)) {
        Some(e) => Some(string_of(&e)),
        None => None,
    }
}

/// `name` inside the folder `parent` (the root when `parent` is empty).
pub fn join_path(parent: &str, name: &str) -> (r: String)
    ensures
        r@ == join_of(parent@, name@),
{
    string_of(&join_chars(&chars_of(parent), &chars_of(name)))
}

/// `current` after the entry `old` was renamed to `new`.
pub fn rewrite_prefix(current: &str, old: &str, new: &str) -> (r: String)
    ensures
        r@ == rewrite_of(current@, old@, new@),
{
    string_of(&rewrite_chars(&chars_of(current), &chars_of(old), &chars_of(new)))
}

/// Whether `path` names an image file (jpg, jpeg, png, ico or icon, any case).
pub fn is_image(path: &str) -> (r: bool)
    ensures
        r == is_image_path(path@),
{
    is_image_chars(&chars_of(path))
}

/// The parent of a non-empty path is shorter than it.
pub proof fn lemma_parent_shorter(path: Seq<char>)
    requires
        path.len() > 0,
    ensures
        parent_of(path).len() < path.len(),
{
    lemma_last_index_of(path, '/');
}

/// `path` and every folder above it, up to the root (which is left out).
pub open spec fn ancestry(path: Seq<char>) -> Set<Seq<char>>
    decreases path.len(),
{
    if path.len() == 0 {
        Set::empty()
    } else {
        proof {
            lemma_parent_shorter(path);
        }
        ancestry(parent_of(path)).insert(path)
    }
}

/// Parent of a path one level down: joining a name to a folder and taking the
/// parent gives the folder back, when the name holds no `/`.
pub proof fn parent_of_join(parent: Seq<char>, name: Seq<char>)
    requires
        forall|i: int| 0 <= i < name.len() ==> name[i] != '/',
    ensures
        parent_of(join_of(parent, name)) == parent,
        file_name_of(join_of(parent, name)) == name,
{
    let p = join_of(parent, name);
    lemma_last_index_of(p, '/');
    if parent.len() == 0 {
        assert(p == name);
        assert(p.take(0) =~= Seq::<char>::empty());
    } else {
        let k = parent.len() as int;
        assert(p[k] == '/');
        assert forall|j: int| k < j < p.len() implies p[j] != '/' by {
            assert(p[j] == name[j - k - 1]);
        }
        match last_index_of(p, '/') {
            Some(i) => {
                assert(i == k);
                assert(p.take(k) =~= parent);
                assert(p.skip(k + 1) =~= name);
            },
            None => {},
        }
    }
}

/// Renaming `from` to `to` and back restores a path, unless the path was
/// already at or below `to` without being at or below `from`.
pub proof fn rename_back_restores(path: Seq<char>, from: Seq<char>, to: Seq<char>)
    requires
        is_at_or_below(path, from) || !is_at_or_below(path, to),
    ensures
        rewrite_of(rewrite_of(path, from, to), to, from) == path,
{
    if path == from {
    } else if starts_with(path, from + seq!['/']) {
        let rest = path.skip(from.len() as int);
        let r = to + rest;
        assert(rest[0] == '/') by {
            assert(path[from.len() as int] == (from + seq!['/'])[from.len() as int]);
        }
        assert(r.subrange(0, to.len() as int + 1) =~= to + seq!['/']);
        assert(r != to);
        assert(r.skip(to.len() as int) =~= rest);
        assert(path.subrange(0, from.len() as int) =~= (from + seq!['/']).subrange(0, from.len() as int));
        assert((from + seq!['/']).subrange(0, from.len() as int) =~= from);
        assert(from + rest =~= path);
    }
}

/// A path at or below `from` is, once renamed, at or below `to`.
pub proof fn lemma_rewrite_below(path: Seq<char>, from: Seq<char>, to: Seq<char>)
    requires
        is_at_or_below(path, from),
    ensures
        is_at_or_below(rewrite_of(path, from, to), to),
{
    if path != from {
        let rest = path.skip(from.len() as int);
        let r = to + rest;
        assert(rest[0] == '/') by {
            assert(path[from.len() as int] == (from + seq!['/'])[from.len() as int]);
        }
        assert(r.subrange(0, to.len() as int + 1) =~= to + seq!['/']);
    }
}

} // verus!
