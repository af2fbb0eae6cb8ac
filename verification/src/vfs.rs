//! In-memory file store of the workspace: text files keyed by their path,
//! and the folders created on their own.
//!
//! A folder exists while some file lies below it, or when it was created (and
//! not removed) or lies above one that was.
use vstd::prelude::*;
use vstd::string::*;

use crate::order::{insert_sorted, lemma_sorted_somes, strictly_sorted};
use crate::paths::{
    at_or_below_chars, file_name_chars, file_name_of, is_at_or_below, join_chars, join_of, lemma_rewrite_below,
    parent_chars, parent_of, rename_back_restores, rewrite_chars, rewrite_of, with_slash,
};
use crate::pathset::PathSet;
use crate::text::{chars_of, push_all, same_chars, slice_of, starts_with, starts_with_exec, string_of, texts_of};

verus! {

/// Content of the last entry of `entries` whose path is `path`.
pub open spec fn lookup(entries: Seq<(Seq<char>, Seq<char>)>, path: Seq<char>) -> Option<Seq<char>>
    decreases entries.len(),
{
    if entries.len() == 0 {
        None
    } else if entries.last().0 == path {
        Some(entries.last().1)
    } else {
        lookup(entries.drop_last(), path)
    }
}

/// Position of the last entry of `entries` whose path is `path`.
pub open spec fn last_entry(entries: Seq<(Seq<char>, Seq<char>)>, path: Seq<char>) -> Option<int>
    decreases entries.len(),
{
    if entries.len() == 0 {
        None
    } else if entries.last().0 == path {
        Some(entries.len() - 1)
    } else {
        last_entry(entries.drop_last(), path)
    }
}

proof fn lemma_last_entry(entries: Seq<(Seq<char>, Seq<char>)>, path: Seq<char>)
    ensures
        match last_entry(entries, path) {
            Some(k) => 0 <= k < entries.len() && entries[k].0 == path && lookup(entries, path)
                == Some(entries[k].1) && forall|j: int|
                k < j < entries.len() ==> entries[j].0 != path,
            None => lookup(entries, path) is None && forall|j: int|
                0 <= j < entries.len() ==> entries[j].0 != path,
        },
    decreases entries.len(),
{
    if entries.len() > 0 && entries.last().0 != path {
        let t = entries.drop_last();
        lemma_last_entry(t, path);
        assert forall|j: int| 0 <= j < t.len() implies entries[j] == t[j] by {}
    }
}

proof fn lemma_lookup_update(
    entries: Seq<(Seq<char>, Seq<char>)>,
    k: int,
    path: Seq<char>,
    content: Seq<char>,
    other: Seq<char>,
)
    requires
        0 <= k < entries.len(),
        entries[k].0 == path,
        forall|j: int| k < j < entries.len() ==> entries[j].0 != path,
    ensures
        lookup(entries.update(k, (path, content)), path) == Some(content),
        other != path ==> lookup(entries.update(k, (path, content)), other) == lookup(
            entries,
            other,
        ),
    decreases entries.len(),
{
    let u = entries.update(k, (path, content));
    if k == entries.len() - 1 {
        assert(u.drop_last() =~= entries.drop_last());
    } else {
        assert(u.drop_last() =~= entries.drop_last().update(k, (path, content)));
        lemma_lookup_update(entries.drop_last(), k, path, content, other);
    }
}

/// The store's text files and created folders.
pub struct Vfs {
    files: Vec<(String, String)>,
    dirs: Vec<String>,
}

impl Vfs {
    /// Path and content of every stored entry, in order.
    pub closed spec fn entries(&self) -> Seq<(Seq<char>, Seq<char>)> {
        self.files@.map_values(|e: (String, String)| (e.0@, e.1@))
    }

    /// Content of the file at `path`, if there is one.
    pub open spec fn file(&self, path: Seq<char>) -> Option<Seq<char>> {
        lookup(self.entries(), path)
    }

    /// Every created folder, in order.
    pub closed spec fn folders(&self) -> Seq<Seq<char>> {
        texts_of(self.dirs@)
    }

    /// `path` was created as a folder.
    pub open spec fn marked(&self, path: Seq<char>) -> bool {
        self.folders().contains(path)
    }

    /// Some file lies below `path`.
    pub open spec fn file_below(&self, path: Seq<char>) -> bool {
        exists|p: Seq<char>| #[trigger] self.file(p) is Some && starts_with(p, path + seq!['/'])
    }

    /// A created folder is `path` or lies below it.
    pub open spec fn marked_at_or_below(&self, path: Seq<char>) -> bool {
        exists|d: Seq<char>| #[trigger] self.marked(d) && is_at_or_below(d, path)
    }

    /// `path` is a folder: a file lies below it, or a created folder is at or
    /// below it.
    pub open spec fn is_folder(&self, path: Seq<char>) -> bool {
        self.file_below(path) || self.marked_at_or_below(path)
    }

    /// `path` is a file or a folder of the store.
    pub open spec fn exists_at(&self, path: Seq<char>) -> bool {
        self.file(path) is Some || self.is_folder(path)
    }

    /// An empty store.
    pub fn new() -> (v: Self)
        ensures
            forall|p: Seq<char>| v.file(p) is None,
            forall|p: Seq<char>| !v.marked(p),
    {
        let v = Vfs { files: Vec::new(), dirs: Vec::new() };
        assert(v.entries() =~= Seq::<(Seq<char>, Seq<char>)>::empty());
        assert(v.folders() =~= Seq::<Seq<char>>::empty());
        v
    }

    /// Index of the last stored entry for `path`.
    fn find_entry(&self, path: &Vec<char>) -> (r: Option<usize>)
        ensures
            match r {
                Some(k) => last_entry(self.entries(), path@) == Some(k as int),
                None => last_entry(self.entries(), path@) is None,
            },
    {
        let mut n = self.files.len();
        assert(self.entries().take(n as int) =~= self.entries());
        while n > 0
            invariant
                n <= self.files@.len(),
                self.entries().len() == self.files@.len(),
                last_entry(self.entries(), path@) == last_entry(
                    self.entries().take(n as int),
                    path@,
                ),
            decreases n,
        {
            let here = chars_of(self.files[n - 1].0.as_str());
            if same_chars(&here, path) {
                assert(self.entries().take(n as int).last().0 == path@);
                return Some(n - 1);
            }
            assert(self.entries().take(n as int).drop_last() =~= self.entries().take(n - 1));
            n = n - 1;
        }
        assert(self.entries().take(0) =~= Seq::<(Seq<char>, Seq<char>)>::empty());
        None
    }

    /// Stores `content` as the file at `path`, replacing any earlier content.
    /// Fails with "empty path" when `path` is empty.
    pub fn put_file(&mut self, path: &str, content: String) -> (r: Result<(), String>)
        ensures
            r is Ok <==> path@.len() > 0,
            r is Ok ==> final(self).file(path@) == Some(content@),
            r is Ok ==> forall|p: Seq<char>| p != path@ ==> #[trigger] final(self).file(p) == old(self).file(p),
            final(self).folders() == old(self).folders(),
            r is Err ==> *final(self) == *old(self) && r->Err_0@ == "empty path"@,
    {
        let key = chars_of(path);
        if key.len() == 0 {
            return Err(String::from_str("empty path"));
        }
        let ghost before = self.entries();
        let found = self.find_entry(&key);
        proof {
            lemma_last_entry(before, path@);
        }
        match found {
            Some(k) => {
                let ghost c = content@;
                self.files.set(k, (String::from_str(path), content));
                assert(self.entries() =~= before.update(k as int, (path@, c)));
                proof {
                    assert forall|p: Seq<char>| p != path@ implies #[trigger] lookup(self.entries(), p)
                        == lookup(before, p) by {
                        lemma_lookup_update(before, k as int, path@, c, p);
                    }
                    lemma_lookup_update(before, k as int, path@, c, path@);
                }
            },
            None => {
                let ghost c = content@;
                self.files.push((String::from_str(path), content));
                assert(self.entries() =~= before.push((path@, c)));
                assert(self.entries().drop_last() =~= before);
            },
        }
        Ok(())
    }

    /// Content of the file at `path`.
    pub fn read_file(&self, path: &str) -> (r: Option<&str>)
        ensures
            match r {
                Some(s) => self.file(path@) == Some(s@),
                None => self.file(path@) is None,
            },
    {
        self.read_chars(&chars_of(path))
    }

    /// Content of the file at `path` (given as characters).
    pub fn read_chars(&self, path: &Vec<char>) -> (r: Option<&str>)
        ensures
            match r {
                Some(s) => self.file(path@) == Some(s@),
                None => self.file(path@) is None,
            },
    {
        proof {
            lemma_last_entry(self.entries(), path@);
        }
        match self.find_entry(path) {
            Some(k) => Some(self.files[k].1.as_str()),
            None => None,
        }
    }

    /// Whether a file is stored at `path`.
    pub fn is_file(&self, path: &str) -> (r: bool)
        ensures
            r == self.file(path@) is Some,
    {
        self.read_file(path).is_some()
    }

    /// Whether some file lies below `path`.
    fn file_below_exec(&self, path: &str) -> (r: bool)
        ensures
            r == self.file_below(path@),
    {
        let prefix = with_slash(&chars_of(path));
        let mut i: usize = 0;
        while i < self.files.len()
            invariant
                i <= self.files@.len(),
                self.entries().len() == self.files@.len(),
                prefix@ == path@ + seq!['/'],
                forall|j: int| 0 <= j < i ==> !starts_with(#[trigger] self.entries()[j].0, prefix@),
            decreases self.files.len() - i,
        {
            let here = chars_of(self.files[i].0.as_str());
            if starts_with_exec(&here, &prefix) {
                proof {
                    let p = self.entries()[i as int].0;
                    lemma_entry_found(self.entries(), i as int);
                    assert(self.file(p) is Some);
                }
                return true;
            }
            i = i + 1;
        }
        proof {
            assert forall|p: Seq<char>| #[trigger] self.file(p) is Some implies !starts_with(p, prefix@) by {
                lemma_last_entry(self.entries(), p);
                let k = last_entry(self.entries(), p)->0;
                assert(self.entries()[k].0 == p);
            }
        }
        false
    }

    /// Whether a created folder is `path` or lies below it.
    fn marked_at_or_below_exec(&self, path: &str) -> (r: bool)
        ensures
            r == self.marked_at_or_below(path@),
    {
        let dir = chars_of(path);
        let mut i: usize = 0;
        while i < self.dirs.len()
            invariant
                i <= self.dirs@.len(),
                self.folders().len() == self.dirs@.len(),
                dir@ == path@,
                forall|j: int| 0 <= j < i ==> !is_at_or_below(#[trigger] self.folders()[j], path@),
            decreases self.dirs.len() - i,
        {
            if at_or_below_chars(&chars_of(self.dirs[i].as_str()), &dir) {
                assert(self.marked(self.folders()[i as int]));
                return true;
            }
            i = i + 1;
        }
        proof {
            assert forall|d: Seq<char>| #[trigger] self.marked(d) implies !is_at_or_below(d, path@) by {
                let k = choose|k: int| 0 <= k < self.folders().len() && self.folders()[k] == d;
            }
        }
        false
    }

    /// Whether `path` is a folder.
    pub fn is_dir(&self, path: &str) -> (r: bool)
        ensures
            r == self.is_folder(path@),
    {
        self.file_below_exec(path) || self.marked_at_or_below_exec(path)
    }

    /// Whether `path` is a file or a folder.
    pub fn has_entry(&self, path: &str) -> (r: bool)
        ensures
            r == self.exists_at(path@),
    {
        self.is_file(path) || self.is_dir(path)
    }

    proof fn lemma_exists_at(&self, inside: Seq<char>, name: Seq<char>)
        ensures
            self.exists_at(inside + name) <==> (exists|j: int|
                0 <= j < self.entries().len() && #[trigger] names_entry(self.entries()[j].0, inside, name)) || (exists|k: int|
                0 <= k < self.folders().len() && #[trigger] names_entry(self.folders()[k], inside, name)),
    {
        let full = inside + name;
        if self.file(full) is Some {
            lemma_last_entry(self.entries(), full);
            let k = last_entry(self.entries(), full)->0;
            assert(names_entry(self.entries()[k].0, inside, name));
        } else if self.file_below(full) {
            let p = choose|p: Seq<char>| #[trigger] self.file(p) is Some && starts_with(p, full + seq!['/']);
            lemma_last_entry(self.entries(), p);
            let k = last_entry(self.entries(), p)->0;
            assert(names_entry(self.entries()[k].0, inside, name));
        } else if self.marked_at_or_below(full) {
            let d = choose|d: Seq<char>| #[trigger] self.marked(d) && is_at_or_below(d, full);
            let k = choose|k: int| 0 <= k < self.folders().len() && self.folders()[k] == d;
            assert(names_entry(self.folders()[k], inside, name));
        }
        if exists|j: int| 0 <= j < self.entries().len() && #[trigger] names_entry(self.entries()[j].0, inside, name) {
            let j = choose|j: int| 0 <= j < self.entries().len() && #[trigger] names_entry(self.entries()[j].0, inside, name);
            let q = self.entries()[j].0;
            lemma_entry_found(self.entries(), j);
            assert(self.file(q) is Some);
        }
        if exists|k: int| 0 <= k < self.folders().len() && #[trigger] names_entry(self.folders()[k], inside, name) {
            let k = choose|k: int| 0 <= k < self.folders().len() && #[trigger] names_entry(self.folders()[k], inside, name);
            let d = self.folders()[k];
            assert(self.marked(d));
            assert(is_at_or_below(d, full));
        }
    }

    /// Some stored file is at or below `path` exactly when `path` exists.
    proof fn lemma_exists_at_entries(&self, path: Seq<char>)
        ensures
            self.exists_at(path) <==> (exists|j: int|
                0 <= j < self.entries().len() && is_at_or_below(#[trigger] self.entries()[j].0, path)) || (exists|k: int|
                0 <= k < self.folders().len() && is_at_or_below(#[trigger] self.folders()[k], path)),
    {
        self.lemma_exists_at(path, Seq::empty());
        assert(path + Seq::<char>::empty() =~= path);
        assert forall|j: int| 0 <= j < self.entries().len() implies (names_entry(#[trigger] self.entries()[j].0, path, Seq::empty())
            == is_at_or_below(self.entries()[j].0, path)) by {
            assert(path + Seq::<char>::empty() =~= path);
        }
        assert forall|k: int| 0 <= k < self.folders().len() implies (names_entry(#[trigger] self.folders()[k], path, Seq::empty())
            == is_at_or_below(self.folders()[k], path)) by {
            assert(path + Seq::<char>::empty() =~= path);
        }
    }

    /// Removes the file or folder at `path` with everything below it. Fails
    /// with `nothing at {path}` when there is none.
    pub fn remove(&mut self, path: &str) -> (r: Result<(), String>)
        ensures
            r is Ok <==> old(self).exists_at(path@),
            r is Ok ==> forall|p: Seq<char>| #[trigger] final(self).file(p) == if is_at_or_below(p, path@) {
                None
            } else {
                old(self).file(p)
            },
            r is Ok ==> forall|p: Seq<char>| #[trigger] final(self).marked(p) == (old(self).marked(p) && !is_at_or_below(p, path@)),
            r is Err ==> *final(self) == *old(self) && r->Err_0@ == "nothing at "@ + path@,
    {
        let dir = chars_of(path);
        let ghost before = self.entries();
        let mut kept: Vec<(String, String)> = Vec::new();
        let mut found = false;
        let mut i: usize = 0;
        while i < self.files.len()
            invariant
                i <= self.files@.len(),
                before == self.entries(),
                before.len() == self.files@.len(),
                dir@ == path@,
                kept@.map_values(|e: (String, String)| (e.0@, e.1@)) == outside(before.take(i as int), path@),
                found == exists|j: int| 0 <= j < i && is_at_or_below(#[trigger] before[j].0, path@),
            decreases self.files.len() - i,
        {
            assert(before.take(i + 1).drop_last() =~= before.take(i as int));
            let here = chars_of(self.files[i].0.as_str());
            assert(here@ == before[i as int].0);
            if at_or_below_chars(&here, &dir) {
                found = true;
                assert(is_at_or_below(before[i as int].0, path@));
            } else {
                let e = (self.files[i].0.clone(), self.files[i].1.clone());
                kept.push(e);
                assert(kept@.map_values(|e: (String, String)| (e.0@, e.1@)) =~= outside(before.take(i + 1), path@));
            }
            proof {
                if !is_at_or_below(before[i as int].0, path@) {
                    assert(found == exists|j: int| 0 <= j < i + 1 && is_at_or_below(#[trigger] before[j].0, path@)) by {
                        if exists|j: int| 0 <= j < i + 1 && is_at_or_below(#[trigger] before[j].0, path@) {
                            let j = choose|j: int| 0 <= j < i + 1 && is_at_or_below(#[trigger] before[j].0, path@);
                            assert(j < i);
                        }
                    }
                }
            }
            i = i + 1;
        }
        assert(before.take(i as int) =~= before);
        let ghost marks = self.folders();
        let mut kept_dirs: Vec<String> = Vec::new();
        let mut m: usize = 0;
        while m < self.dirs.len()
            invariant
                m <= self.dirs@.len(),
                marks == self.folders(),
                marks.len() == self.dirs@.len(),
                dir@ == path@,
                forall|d: Seq<char>| #[trigger] texts_of(kept_dirs@).contains(d) <==> (exists|k: int|
                    0 <= k < m && marks[k] == d) && !is_at_or_below(d, path@),
                found == ((exists|j: int| 0 <= j < before.len() && is_at_or_below(#[trigger] before[j].0, path@))
                    || (exists|k: int| 0 <= k < m && is_at_or_below(#[trigger] marks[k], path@))),
            decreases self.dirs.len() - m,
        {
            let ghost kv = texts_of(kept_dirs@);
            let d = chars_of(self.dirs[m].as_str());
            if at_or_below_chars(&d, &dir) {
                found = true;
                assert(is_at_or_below(marks[m as int], path@));
            } else {
                kept_dirs.push(self.dirs[m].clone());
                assert(texts_of(kept_dirs@) =~= kv.push(marks[m as int]));
            }
            proof {
                broadcast use vstd::seq_lib::lemma_seq_contains_after_push;
                let kv2 = texts_of(kept_dirs@);
                assert forall|e: Seq<char>| #[trigger] kv2.contains(e) <==> (exists|k: int| 0 <= k < m + 1 && marks[k] == e)
                    && !is_at_or_below(e, path@) by {
                    if kv.contains(e) {
                        assert(texts_of(kept_dirs@) =~= kv2);
                    }
                    if exists|k: int| 0 <= k < m + 1 && marks[k] == e {
                        let k = choose|k: int| 0 <= k < m + 1 && marks[k] == e;
                        if k < m {
                            assert(exists|k: int| 0 <= k < m && marks[k] == e);
                        }
                    }
                    if kv2.contains(e) && !kv.contains(e) {
                        assert(e == marks[m as int]);
                    }
                }
                if !is_at_or_below(marks[m as int], path@) {
                    if exists|k: int| 0 <= k < m + 1 && is_at_or_below(#[trigger] marks[k], path@) {
                        let k = choose|k: int| 0 <= k < m + 1 && is_at_or_below(#[trigger] marks[k], path@);
                        assert(k < m);
                    }
                }
            }
            m = m + 1;
        }
        proof {
            self.lemma_exists_at_entries(path@);
        }
        if !found {
            let mut msg = chars_of("nothing at ");
            push_all(&mut msg, &dir);
            return Err(string_of(&msg));
        }
        self.files = kept;
        self.dirs = kept_dirs;
        proof {
            assert forall|p: Seq<char>| #[trigger] self.marked(p) == (marks.contains(p) && !is_at_or_below(p, path@)) by {
                if marks.contains(p) {
                    let k = choose|k: int| 0 <= k < marks.len() && marks[k] == p;
                    assert(exists|k2: int| 0 <= k2 < m && marks[k2] == p);
                }
            }
            assert(self.entries() =~= outside(before, path@));
            assert forall|p: Seq<char>| #[trigger] self.file(p) == if is_at_or_below(p, path@) {
                None
            } else {
                lookup(before, p)
            } by {
                lemma_lookup_outside(before, path@, p);
            }
        }
        Ok(())
    }

    /// Creates an empty file at `path`. Fails with `empty path` when `path` is
    /// empty and with `{path} already exists` when a file or folder is there.
    pub fn create_file(&mut self, path: &str) -> (r: Result<(), String>)
        ensures
            r is Ok <==> path@.len() > 0 && !old(self).exists_at(path@),
            r is Ok ==> final(self).file(path@) == Some(Seq::<char>::empty()),
            r is Ok ==> forall|p: Seq<char>| p != path@ ==> #[trigger] final(self).file(p) == old(self).file(p),
            final(self).folders() == old(self).folders(),
            r is Err ==> *final(self) == *old(self),
            r is Err ==> r->Err_0@ == if path@.len() == 0 {
                "empty path"@
            } else {
                path@ + " already exists"@
            },
    {
        if path.unicode_len() == 0 {
            return Err(String::from_str("empty path"));
        }
        if self.has_entry(path) {
            let mut msg = chars_of(path);
            push_all(&mut msg, &chars_of(" already exists"));
            return Err(string_of(&msg));
        }
        let empty = String::new();
        assert(empty@ == Seq::<char>::empty());
        self.put_file(path, empty)
    }

    /// Creates an empty folder at `path`. Fails with `empty path` when `path`
    /// is empty and with `{path} already exists` when a file or folder is
    /// there.
    pub fn mkdir(&mut self, path: &str) -> (r: Result<(), String>)
        ensures
            r is Ok <==> path@.len() > 0 && !old(self).exists_at(path@),
            r is Ok ==> forall|p: Seq<char>| #[trigger] final(self).marked(p) == (old(self).marked(p) || p == path@),
            r is Ok ==> forall|p: Seq<char>| #[trigger] final(self).file(p) == old(self).file(p),
            r is Err ==> *final(self) == *old(self),
            r is Err ==> r->Err_0@ == if path@.len() == 0 {
                "empty path"@
            } else {
                path@ + " already exists"@
            },
    {
        if path.unicode_len() == 0 {
            return Err(String::from_str("empty path"));
        }
        if self.has_entry(path) {
            let mut msg = chars_of(path);
            push_all(&mut msg, &chars_of(" already exists"));
            return Err(string_of(&msg));
        }
        let ghost marks = self.folders();
        self.dirs.push(path.to_owned());
        proof {
            assert(self.folders() =~= marks.push(path@));
            assert forall|p: Seq<char>| #[trigger] self.marked(p) == (marks.contains(p) || p == path@) by {
                if marks.contains(p) {
                    let k = choose|k: int| 0 <= k < marks.len() && marks[k] == p;
                    assert(self.folders()[k] == p);
                }
                if p == path@ {
                    assert(self.folders()[marks.len() as int] == p);
                }
            }
        }
        Ok(())
    }

    /// Length of the longest stored path.
    pub closed spec fn depth_bound(&self) -> nat {
        let a = longest(self.entries());
        let b = longest_text(self.folders());
        if a < b {
            b
        } else {
            a
        }
    }



    /// Length of the longest stored path.
    pub fn depth_bound_exec(&self) -> (n: usize)
        ensures
            n == self.depth_bound(),
    {
        let mut n: usize = 0;
        let mut i: usize = 0;
        while i < self.files.len()
            invariant
                i <= self.files@.len(),
                self.entries().len() == self.files@.len(),
                n == longest(self.entries().take(i as int)),
            decreases self.files.len() - i,
        {
            let here = self.files[i].0.unicode_len();
            assert(self.entries().take(i + 1).drop_last() =~= self.entries().take(i as int));
            if here > n {
                n = here;
            }
            i = i + 1;
        }
        assert(self.entries().take(i as int) =~= self.entries());
        let mut d: usize = 0;
        let mut k: usize = 0;
        while k < self.dirs.len()
            invariant
                k <= self.dirs@.len(),
                self.folders().len() == self.dirs@.len(),
                d == longest_text(self.folders().take(k as int)),
            decreases self.dirs.len() - k,
        {
            let here = self.dirs[k].unicode_len();
            assert(self.folders().take(k + 1).drop_last() =~= self.folders().take(k as int));
            if here > d {
                d = here;
            }
            k = k + 1;
        }
        assert(self.folders().take(k as int) =~= self.folders());
        if n < d {
            d
        } else {
            n
        }
    }

    proof fn lemma_child_names(&self, parent: Seq<char>, name: Seq<char>)
        ensures
            is_child_name(*self, parent, name) <==> (exists|j: int|
                0 <= j < self.entries().len() && child_on_way(#[trigger] self.entries()[j].0, inside_of(parent)) == Some(name))
                || (exists|k: int|
                0 <= k < self.folders().len() && child_on_way(#[trigger] self.folders()[k], inside_of(parent)) == Some(name)),
    {
        let inside = inside_of(parent);
        assert(join_of(parent, name) =~= inside + name);
        self.lemma_exists_at(inside, name);
        if is_child_name(*self, parent, name) {
            if exists|j: int| 0 <= j < self.entries().len() && #[trigger] names_entry(self.entries()[j].0, inside, name) {
                let j = choose|j: int| 0 <= j < self.entries().len() && #[trigger] names_entry(self.entries()[j].0, inside, name);
                lemma_child_on_way(self.entries()[j].0, inside, name);
            } else {
                let k = choose|k: int| 0 <= k < self.folders().len() && #[trigger] names_entry(self.folders()[k], inside, name);
                lemma_child_on_way(self.folders()[k], inside, name);
            }
        }
        if exists|j: int| 0 <= j < self.entries().len() && child_on_way(#[trigger] self.entries()[j].0, inside) == Some(name) {
            let j = choose|j: int| 0 <= j < self.entries().len() && child_on_way(#[trigger] self.entries()[j].0, inside) == Some(name);
            lemma_child_on_way(self.entries()[j].0, inside, name);
        }
        if exists|k: int| 0 <= k < self.folders().len() && child_on_way(#[trigger] self.folders()[k], inside) == Some(name) {
            let k = choose|k: int| 0 <= k < self.folders().len() && child_on_way(#[trigger] self.folders()[k], inside) == Some(name);
            lemma_child_on_way(self.folders()[k], inside, name);
        }
    }

    /// The children of folder `parent` can be listed in name order.
    pub proof fn lemma_child_list_exists(&self, parent: Seq<char>)
        ensures
            exists|s: Seq<Seq<char>>|
                strictly_sorted(s) && forall|n: Seq<char>| #[trigger] s.contains(n) <==> is_child_name(*self, parent, n),
    {
        let inside = inside_of(parent);
        let from_files = self.entries().map_values(|e: (Seq<char>, Seq<char>)| child_on_way(e.0, inside));
        let from_dirs = self.folders().map_values(|f: Seq<char>| child_on_way(f, inside));
        let xs = from_files + from_dirs;
        let s = lemma_sorted_somes(xs);
        assert forall|n: Seq<char>| #[trigger] s.contains(n) <==> is_child_name(*self, parent, n) by {
            self.lemma_child_names(parent, n);
            if s.contains(n) {
                let i = choose|i: int| 0 <= i < xs.len() && xs[i] == Some(n);
                if i < from_files.len() {
                    assert(child_on_way(self.entries()[i].0, inside) == Some(n));
                } else {
                    let k = i - from_files.len();
                    assert(child_on_way(self.folders()[k], inside) == Some(n));
                }
            }
            if exists|j: int|
                0 <= j < self.entries().len() && child_on_way(#[trigger] self.entries()[j].0, inside) == Some(n) {
                let j = choose|j: int|
                    0 <= j < self.entries().len() && child_on_way(#[trigger] self.entries()[j].0, inside) == Some(n);
                assert(xs[j] == Some(n));
            }
            if exists|k: int|
                0 <= k < self.folders().len() && child_on_way(#[trigger] self.folders()[k], inside) == Some(n) {
                let k = choose|k: int|
                    0 <= k < self.folders().len() && child_on_way(#[trigger] self.folders()[k], inside) == Some(n);
                assert(xs[from_files.len() + k] == Some(n));
            }
        }
    }

    /// The children of folder `parent` (the root when empty), sorted by
    /// name, each with whether it is a folder.
    pub fn children(&self, parent: &str) -> (r: Vec<(String, bool)>)
        ensures
            strictly_sorted(names_of(r@)),
            forall|n: Seq<char>| #![trigger names_of(r@).contains(n)]
                names_of(r@).contains(n) <==> is_child_name(*self, parent@, n),
            forall|i: int| 0 <= i < r@.len() ==> (#[trigger] r@[i]).1 == self.is_folder(join_of(parent@, r@[i].0@)),
    {
        let parent_chars = chars_of(parent);
        let inside = if parent_chars.len() == 0 {
            Vec::new()
        } else {
            with_slash(&parent_chars)
        };
        assert(inside@ =~= inside_of(parent@));
        let mut names: Vec<String> = Vec::new();
        let mut i: usize = 0;
        assert(texts_of(names@) =~= Seq::<Seq<char>>::empty());
        while i < self.files.len()
            invariant
                i <= self.files@.len(),
                self.entries().len() == self.files@.len(),
                inside@ == inside_of(parent@),
                strictly_sorted(texts_of(names@)),
                forall|n: Seq<char>| #![trigger texts_of(names@).contains(n)]
                    texts_of(names@).contains(n) <==> exists|j: int|
                        0 <= j < i && child_on_way(#[trigger] self.entries()[j].0, inside@) == Some(n),
            decreases self.files.len() - i,
        {
            let path = chars_of(self.files[i].0.as_str());
            assert(path@ == self.entries()[i as int].0);
            add_child_on_way(&mut names, &path, &inside);
            proof {
                assert forall|n: Seq<char>| #![trigger texts_of(names@).contains(n)]
                    texts_of(names@).contains(n) <==> exists|j: int|
                        0 <= j < i + 1 && child_on_way(#[trigger] self.entries()[j].0, inside@) == Some(n) by {
                    if exists|j: int| 0 <= j < i + 1 && child_on_way(#[trigger] self.entries()[j].0, inside@) == Some(n) {
                        let j = choose|j: int| 0 <= j < i + 1 && child_on_way(#[trigger] self.entries()[j].0, inside@) == Some(n);
                        if j < i {
                            assert(exists|j: int| 0 <= j < i && child_on_way(#[trigger] self.entries()[j].0, inside@) == Some(n));
                        }
                    }
                }
            }
            i = i + 1;
        }
        let mut k: usize = 0;
        while k < self.dirs.len()
            invariant
                k <= self.dirs@.len(),
                self.folders().len() == self.dirs@.len(),
                inside@ == inside_of(parent@),
                strictly_sorted(texts_of(names@)),
                forall|n: Seq<char>| #![trigger texts_of(names@).contains(n)]
                    texts_of(names@).contains(n) <==> (exists|j: int|
                        0 <= j < self.entries().len() && child_on_way(#[trigger] self.entries()[j].0, inside@) == Some(n))
                        || (exists|x: int| 0 <= x < k && child_on_way(#[trigger] self.folders()[x], inside@) == Some(n)),
            decreases self.dirs.len() - k,
        {
            let path = chars_of(self.dirs[k].as_str());
            assert(path@ == self.folders()[k as int]);
            add_child_on_way(&mut names, &path, &inside);
            proof {
                assert forall|n: Seq<char>| #![trigger texts_of(names@).contains(n)]
                    texts_of(names@).contains(n) <==> (exists|j: int|
                        0 <= j < self.entries().len() && child_on_way(#[trigger] self.entries()[j].0, inside@) == Some(n))
                        || (exists|x: int| 0 <= x < k + 1 && child_on_way(#[trigger] self.folders()[x], inside@) == Some(n)) by {
                    if exists|x: int| 0 <= x < k + 1 && child_on_way(#[trigger] self.folders()[x], inside@) == Some(n) {
                        let x = choose|x: int| 0 <= x < k + 1 && child_on_way(#[trigger] self.folders()[x], inside@) == Some(n);
                        if x < k {
                            assert(exists|x: int| 0 <= x < k && child_on_way(#[trigger] self.folders()[x], inside@) == Some(n));
                        }
                    }
                }
            }
            k = k + 1;
        }
        let mut r: Vec<(String, bool)> = Vec::new();
        let mut m: usize = 0;
        while m < names.len()
            invariant
                m <= names@.len(),
                parent_chars@ == parent@,
                r@.len() == m,
                forall|x: int| 0 <= x < m ==> (#[trigger] r@[x]).0 == names@[x],
                forall|x: int| 0 <= x < m ==> (#[trigger] r@[x]).1 == self.is_folder(join_of(parent@, names@[x]@)),
            decreases names.len() - m,
        {
            let full = string_of(&join_chars(&parent_chars, &chars_of(names[m].as_str())));
            let dir = self.is_dir(full.as_str());
            r.push((names[m].clone(), dir));
            m = m + 1;
        }
        proof {
            assert(names_of(r@) =~= texts_of(names@));
            assert forall|n: Seq<char>| #![trigger texts_of(names@).contains(n)]
                texts_of(names@).contains(n) <==> is_child_name(*self, parent@, n) by {
                self.lemma_child_names(parent@, n);
            }
        }
        r
    }

    proof fn lemma_moved_file(&self, from: Seq<char>, to: Seq<char>, q: Seq<char>)
        requires
            !self.exists_at(to),
        ensures
            lookup(moved(self.entries(), from, to), q) == renamed_file(*self, from, to, q),
    {
        let e = self.entries();
        let m = moved(e, from, to);
        self.lemma_exists_at_entries(to);
        assert forall|j: int| 0 <= j < m.len() implies (#[trigger] m[j]).1 == e[j].1 by {}
        if is_at_or_below(q, to) {
            let g = rewrite_of(q, to, from);
            lemma_rewrite_below(q, to, from);
            rename_back_restores(q, to, from);
            assert forall|j: int| 0 <= j < m.len() implies ((#[trigger] m[j]).0 == q <==> e[j].0 == g) by {
                if is_at_or_below(e[j].0, from) {
                    rename_back_restores(e[j].0, from, to);
                } else {
                    if m[j].0 == q {
                        assert(is_at_or_below(e[j].0, to));
                    }
                }
            }
            lemma_lookup_matching(m, e, q, g);
        } else if is_at_or_below(q, from) {
            assert forall|j: int| 0 <= j < m.len() implies (#[trigger] m[j]).0 != q by {
                if is_at_or_below(e[j].0, from) {
                    lemma_rewrite_below(e[j].0, from, to);
                }
            }
            lemma_lookup_missing(m, q);
        } else {
            assert forall|j: int| 0 <= j < m.len() implies ((#[trigger] m[j]).0 == q <==> e[j].0 == q) by {
                if is_at_or_below(e[j].0, from) {
                    lemma_rewrite_below(e[j].0, from, to);
                }
            }
            lemma_lookup_matching(m, e, q, q);
        }
    }

    proof fn lemma_moved_marks(&self, from: Seq<char>, to: Seq<char>, q: Seq<char>)
        requires
            !self.exists_at(to),
        ensures
            self.folders().map_values(|d: Seq<char>| rewrite_of(d, from, to)).contains(q) == renamed_mark(*self, from, to, q),
    {
        let f = self.folders();
        let m = f.map_values(|d: Seq<char>| rewrite_of(d, from, to));
        self.lemma_exists_at_entries(to);
        if m.contains(q) {
            let k = choose|k: int| 0 <= k < m.len() && m[k] == q;
            if is_at_or_below(f[k], from) {
                lemma_rewrite_below(f[k], from, to);
                rename_back_restores(f[k], from, to);
                assert(self.marked(f[k]));
            } else {
                assert(m[k] == f[k]);
                if is_at_or_below(q, to) {
                    assert(is_at_or_below(f[k], to));
                }
                assert(self.marked(f[k]));
            }
        }
        if renamed_mark(*self, from, to, q) {
            if is_at_or_below(q, to) {
                let g = rewrite_of(q, to, from);
                lemma_rewrite_below(q, to, from);
                rename_back_restores(q, to, from);
                let k = choose|k: int| 0 <= k < f.len() && f[k] == g;
                assert(m[k] == q);
            } else {
                let k = choose|k: int| 0 <= k < f.len() && f[k] == q;
                assert(m[k] == q);
            }
        }
    }


    /// Renames the entry at `path` to `name` within its folder, moving
    /// everything below it, and answers the new path. Fails with
    /// `nothing at {path}`, `invalid name {name}` (empty or with `/`) or
    /// `{new path} already exists`, in that order.
    pub fn rename(&mut self, path: &str, name: &str) -> (r: Result<String, String>)
        ensures
            ({
                let to = renamed_path(path@, name@);
                let name_ok = name@.len() > 0 && !name@.contains('/');
                &&& (r is Ok <==> old(self).exists_at(path@) && name_ok && (to == path@ || !old(self).exists_at(to)))
                &&& match r {
                    Ok(n) => n@ == to && (to == path@ ==> *final(self) == *old(self)) && (to != path@
                        ==> forall|q: Seq<char>| #[trigger] final(self).file(q) == renamed_file(*old(self), path@, to, q))
                        && (to != path@ ==> forall|q: Seq<char>| #[trigger] final(self).marked(q) == renamed_mark(
                        *old(self),
                        path@,
                        to,
                        q,
                    )),
                    Err(e) => *final(self) == *old(self) && e@ == if !old(self).exists_at(path@) {
                        "nothing at "@ + path@
                    } else if !name_ok {
                        "invalid name "@ + name@
                    } else {
                        to + " already exists"@
                    },
                }
            }),
    {
        let from = chars_of(path);
        let name_chars = chars_of(name);
        if !self.has_entry(path) {
            let mut msg = chars_of("nothing at ");
            push_all(&mut msg, &from);
            return Err(string_of(&msg));
        }
        let mut bad = name_chars.len() == 0;
        let mut k: usize = 0;
        while k < name_chars.len()
            invariant
                k <= name_chars@.len(),
                name_chars@ == name@,
                bad == (name@.len() == 0 || exists|i: int| 0 <= i < k && name@[i] == '/'),
            decreases name_chars.len() - k,
        {
            if name_chars[k] == '/' {
                bad = true;
            }
            k = k + 1;
        }
        if bad {
            let mut msg = chars_of("invalid name ");
            push_all(&mut msg, &name_chars);
            return Err(string_of(&msg));
        }
        let to = join_chars(&parent_chars(&from), &name_chars);
        let to_str = string_of(&to);
        if same_chars(&to, &from) {
            return Ok(to_str);
        }
        if self.has_entry(to_str.as_str()) {
            let mut msg = to.clone();
            push_all(&mut msg, &chars_of(" already exists"));
            return Err(string_of(&msg));
        }
        let ghost before = self.entries();
        let ghost old_self = *self;
        let mut out: Vec<(String, String)> = Vec::new();
        let mut i: usize = 0;
        while i < self.files.len()
            invariant
                i <= self.files@.len(),
                before == self.entries(),
                before.len() == self.files@.len(),
                from@ == path@,
                to@ == renamed_path(path@, name@),
                out@.len() == i,
                forall|j: int| 0 <= j < i ==> (#[trigger] out@[j]).0@ == rewrite_of(before[j].0, path@, to@) && out@[j].1@ == before[j].1,
            decreases self.files.len() - i,
        {
            let moved_path = string_of(&rewrite_chars(&chars_of(self.files[i].0.as_str()), &from, &to));
            out.push((moved_path, self.files[i].1.clone()));
            i = i + 1;
        }
        let ghost marks = self.folders();
        let mut moved_dirs: Vec<String> = Vec::new();
        let mut m: usize = 0;
        while m < self.dirs.len()
            invariant
                m <= self.dirs@.len(),
                marks == self.folders(),
                marks.len() == self.dirs@.len(),
                from@ == path@,
                to@ == renamed_path(path@, name@),
                moved_dirs@.len() == m,
                forall|j: int| 0 <= j < m ==> (#[trigger] moved_dirs@[j])@ == rewrite_of(marks[j], path@, to@),
            decreases self.dirs.len() - m,
        {
            moved_dirs.push(string_of(&rewrite_chars(&chars_of(self.dirs[m].as_str()), &from, &to)));
            m = m + 1;
        }
        self.files = out;
        self.dirs = moved_dirs;
        proof {
            assert(self.entries() =~= moved(before, path@, to@));
            assert forall|q: Seq<char>| #[trigger] self.file(q) == renamed_file(old_self, path@, to@, q) by {
                old_self.lemma_moved_file(path@, to@, q);
            }
            assert(self.folders() =~= marks.map_values(|d: Seq<char>| rewrite_of(d, path@, to@)));
            assert forall|q: Seq<char>| #[trigger] self.marked(q) == renamed_mark(old_self, path@, to@, q) by {
                old_self.lemma_moved_marks(path@, to@, q);
            }
        }
        Ok(to_str)
    }

    /// Every stored file as `(path, content)`, in storage order.
    pub fn snapshot(&self) -> (r: Vec<(String, String)>)
        ensures
            forall|p: Seq<char>| #[trigger] self.file(p) == lookup(r@.map_values(|e: (String, String)| (e.0@, e.1@)), p),
    {
        let mut r: Vec<(String, String)> = Vec::new();
        let mut i: usize = 0;
        while i < self.files.len()
            invariant
                i <= self.files@.len(),
                r@.len() == i,
                forall|j: int| 0 <= j < i ==> (#[trigger] r@[j]).0@ == self.files@[j].0@ && r@[j].1@ == self.files@[j].1@,
            decreases self.files.len() - i,
        {
            r.push((self.files[i].0.clone(), self.files[i].1.clone()));
            i = i + 1;
        }
        assert(r@.map_values(|e: (String, String)| (e.0@, e.1@)) =~= self.entries());
        r
    }

    /// Every created folder, in creation order.
    pub fn folder_list(&self) -> (r: Vec<String>)
        ensures
            forall|p: Seq<char>| #[trigger] self.marked(p) <==> texts_of(r@).contains(p),
    {
        let mut r: Vec<String> = Vec::new();
        let mut i: usize = 0;
        while i < self.dirs.len()
            invariant
                i <= self.dirs@.len(),
                self.folders().len() == self.dirs@.len(),
                r@.len() == i,
                forall|j: int| 0 <= j < i ==> (#[trigger] r@[j])@ == self.folders()[j],
            decreases self.dirs.len() - i,
        {
            r.push(self.dirs[i].clone());
            i = i + 1;
        }
        assert(texts_of(r@) =~= self.folders());
        r
    }

    /// A store holding `files` (later entries win; empty paths are skipped).
    pub fn from_files(files: Vec<(String, String)>) -> (v: Vfs)
        ensures
            forall|p: Seq<char>| #[trigger] v.marked(p) == false,
            forall|p: Seq<char>| #[trigger] v.file(p) == if p.len() == 0 {
                None
            } else {
                lookup(files@.map_values(|e: (String, String)| (e.0@, e.1@)), p)
            },
    {
        let ghost views = files@.map_values(|e: (String, String)| (e.0@, e.1@));
        let mut v = Vfs { files: Vec::new(), dirs: Vec::new() };
        assert(v.entries() =~= Seq::<(Seq<char>, Seq<char>)>::empty());
        assert(v.folders() =~= Seq::<Seq<char>>::empty());
        let mut i: usize = 0;
        while i < files.len()
            invariant
                i <= files@.len(),
                views == files@.map_values(|e: (String, String)| (e.0@, e.1@)),
                v.folders() == Seq::<Seq<char>>::empty(),
                forall|p: Seq<char>| #[trigger] v.file(p) == if p.len() == 0 {
                    None
                } else {
                    lookup(views.take(i as int), p)
                },
            decreases files.len() - i,
        {
            let _ = v.put_file(files[i].0.as_str(), files[i].1.clone());
            proof {
                assert(views.take(i + 1).drop_last() =~= views.take(i as int));
                assert(views.take(i + 1).last() == views[i as int]);
            }
            i = i + 1;
        }
        assert(views.take(i as int) =~= views);
        v
    }

    /// Copies each entry of `sources`, with everything below it, into folder
    /// `dest` as `dest/<its name>` (see `copied_file`), and answers how many
    /// entries were copied. Fails, changing nothing, with
    /// `'{dest}' is not a folder` or with `nothing at {source}` for the first
    /// source that does not exist.
    pub fn copy_entries_into(&mut self, sources: &Vec<String>, dest: &str) -> (r: Result<usize, String>)
        ensures
            ({
                let srcs = sources@.map_values(|s: String| s@);
                let dest_ok = dest@.len() > 0 && old(self).is_folder(dest@);
                let all_exist = forall|i: int| 0 <= i < srcs.len() ==> old(self).exists_at(#[trigger] srcs[i]);
                &&& (r is Ok <==> dest_ok && all_exist)
                &&& match r {
                    Ok(n) => n == sources@.len() && (forall|q: Seq<char>| #[trigger] final(self).file(q) == copied_file(*old(self), srcs, dest@, q))
                        && (forall|q: Seq<char>| #[trigger] final(self).marked(q) == copied_mark(*old(self), srcs, dest@, q)),
                    Err(e) => *final(self) == *old(self) && (!dest_ok ==> e@ == "'"@ + dest@ + "' is not a folder"@)
                        && (dest_ok ==> exists|i: int| #[trigger] first_missing(*old(self), srcs, i)
                            && e@ == "nothing at "@ + srcs[i]),
                }
            }),
    {
        let ghost srcs = sources@.map_values(|s: String| s@);
        if dest.unicode_len() == 0 || !self.is_dir(dest) {
            let mut msg = chars_of("'");
            push_all(&mut msg, &chars_of(dest));
            push_all(&mut msg, &chars_of("' is not a folder"));
            assert(msg@ =~= "'"@ + dest@ + "' is not a folder"@);
            return Err(string_of(&msg));
        }
        let mut k: usize = 0;
        while k < sources.len()
            invariant
                k <= sources@.len(),
                srcs == sources@.map_values(|s: String| s@),
                dest@.len() > 0,
                self.is_folder(dest@),
                forall|i: int| 0 <= i < k ==> self.exists_at(#[trigger] srcs[i]),
            decreases sources.len() - k,
        {
            if !self.has_entry(sources[k].as_str()) {
                let mut msg = chars_of("nothing at ");
                push_all(&mut msg, &chars_of(sources[k].as_str()));
                assert(!self.exists_at(srcs[k as int]));
                assert(first_missing(*self, srcs, k as int));
                return Err(string_of(&msg));
            }
            k = k + 1;
        }
        let snapshot = self.snapshot();
        let mut mark_list: Vec<String> = Vec::new();
        let mut x: usize = 0;
        while x < self.dirs.len()
            invariant
                x <= self.dirs@.len(),
                self.folders().len() == self.dirs@.len(),
                mark_list@.len() == x,
                forall|y: int| 0 <= y < x ==> (#[trigger] mark_list@[y])@ == self.folders()[y],
            decreases self.dirs.len() - x,
        {
            mark_list.push(self.dirs[x].clone());
            x = x + 1;
        }
        assert(texts_of(mark_list@) =~= self.folders());
        let ghost start = *self;
        let dest_chars = chars_of(dest);
        let ghost mut done: Seq<(Seq<char>, Seq<char>)> = Seq::empty();
        let mut i: usize = 0;
        while i < sources.len()
            invariant
                i <= sources@.len(),
                srcs == sources@.map_values(|s: String| s@),
                dest_chars@ == dest@,
                dest@.len() > 0,
                forall|p: Seq<char>| #[trigger] start.file(p) == lookup(snapshot@.map_values(|e: (String, String)| (e.0@, e.1@)), p),
                forall|q: Seq<char>| #[trigger] self.file(q) == written(start.file(q), done, q),
                forall|q: Seq<char>| #[trigger] written(start.file(q), done, q) == copied_file(start, srcs.take(i as int), dest@, q),
                texts_of(mark_list@) == start.folders(),
                forall|q: Seq<char>| #[trigger] self.marked(q) == copied_mark(start, srcs.take(i as int), dest@, q),
            decreases sources.len() - i,
        {
            let src = chars_of(sources[i].as_str());
            let target = join_chars(&dest_chars, &file_name_chars(&src));
            let ghost t = target@;
            let ghost before_done = done;
            let ghost at_start = *self;
            let ghost marks_now = self.folders();
            let mut j: usize = 0;
            while j < snapshot.len()
                invariant
                    j <= snapshot@.len(),
                    src@ == srcs[i as int],
                    target@ == copy_target(srcs[i as int], dest@),
                    target@.len() > 0,
                    forall|q: Seq<char>| #[trigger] self.file(q) == written(start.file(q), done, q),
                    done == before_done + copy_writes(snapshot@.map_values(|e: (String, String)| (e.0@, e.1@)).take(j as int), srcs[i as int], target@),
                    self.folders() == marks_now,
                decreases snapshot.len() - j,
            {
                let here = chars_of(snapshot[j].0.as_str());
                let ghost sv = snapshot@.map_values(|e: (String, String)| (e.0@, e.1@));
                assert(sv.take(j + 1).drop_last() =~= sv.take(j as int));
                assert(sv.take(j + 1).last() == sv[j as int]);
                if at_or_below_chars(&here, &src) {
                    let to = string_of(&rewrite_chars(&here, &src, &target));
                    let ghost w = (to@, snapshot@[j as int].1@);
                    let ghost prev = *self;
                    proof {
                        lemma_rewrite_below(here@, src@, target@);
                    }
                    let _ = self.put_file(to.as_str(), snapshot[j].1.clone());
                    proof {
                        assert forall|q: Seq<char>| #[trigger] self.file(q) == written(start.file(q), done.push(w), q) by {
                            assert(done.push(w).drop_last() =~= done);
                        }
                        done = done.push(w);
                    }
                }
                j = j + 1;
            }
            proof {
                let sv = snapshot@.map_values(|e: (String, String)| (e.0@, e.1@));
                assert(sv.take(j as int) =~= sv);
                assert forall|q: Seq<char>| #[trigger] written(start.file(q), done, q) == copied_file(start, srcs.take(i + 1), dest@, q) by {
                    lemma_lookup_concat(before_done, copy_writes(sv, srcs[i as int], t), q);
                    lemma_copy_writes(sv, srcs[i as int], t, q);
                    assert(srcs.take(i + 1).drop_last() =~= srcs.take(i as int));
                    assert(srcs.take(i + 1).last() == srcs[i as int]);
                    assert(written(start.file(q), before_done, q) == copied_file(start, srcs.take(i as int), dest@, q));
                    if is_at_or_below(q, t) {
                        assert(start.file(rewrite_of(q, t, srcs[i as int])) == lookup(sv, rewrite_of(q, t, srcs[i as int])));
                    }
                }
            }
            let ghost files_now = *self;
            let mut y: usize = 0;
            while y < mark_list.len()
                invariant
                    y <= mark_list@.len(),
                    src@ == srcs[i as int],
                    target@ == copy_target(srcs[i as int], dest@),
                    texts_of(mark_list@) == start.folders(),
                    forall|q: Seq<char>| #[trigger] self.file(q) == files_now.file(q),
                    forall|q: Seq<char>| #[trigger] self.marked(q) == (marks_now.contains(q) || exists|z: int|
                        0 <= z < y && is_at_or_below(start.folders()[z], srcs[i as int]) && rewrite_of(
                            #[trigger] start.folders()[z],
                            srcs[i as int],
                            target@,
                        ) == q),
                decreases mark_list.len() - y,
            {
                let d = chars_of(mark_list[y].as_str());
                assert(d@ == start.folders()[y as int]);
                let ghost pre = *self;
                let ghost before_marks = self.folders();
                let ghost ents = self.entries();
                if at_or_below_chars(&d, &src) {
                    let moved_mark = string_of(&rewrite_chars(&d, &src, &target));
                    self.dirs.push(moved_mark);
                    assert(self.folders() =~= before_marks.push(rewrite_of(d@, src@, target@)));
                }
                assert(self.entries() == ents);
                assert forall|q: Seq<char>| #[trigger] self.file(q) == files_now.file(q) by {
                    assert(pre.file(q) == files_now.file(q));
                }
                proof {
                    broadcast use vstd::seq_lib::lemma_seq_contains_after_push;
                    assert forall|q: Seq<char>| #[trigger] before_marks.contains(q) == (marks_now.contains(q) || exists|z: int|
                        0 <= z < y && is_at_or_below(start.folders()[z], srcs[i as int]) && rewrite_of(
                            #[trigger] start.folders()[z],
                            srcs[i as int],
                            target@,
                        ) == q) by {
                        assert(pre.marked(q) == before_marks.contains(q));
                    }
                    assert forall|q: Seq<char>| #[trigger] self.marked(q) == (marks_now.contains(q) || exists|z: int|
                        0 <= z < y + 1 && is_at_or_below(start.folders()[z], srcs[i as int]) && rewrite_of(
                            #[trigger] start.folders()[z],
                            srcs[i as int],
                            target@,
                        ) == q) by {
                        if exists|z: int| 0 <= z < y + 1 && is_at_or_below(start.folders()[z], srcs[i as int]) && rewrite_of(
                            #[trigger] start.folders()[z],
                            srcs[i as int],
                            target@,
                        ) == q {
                            let z = choose|z: int| 0 <= z < y + 1 && is_at_or_below(start.folders()[z], srcs[i as int]) && rewrite_of(
                                #[trigger] start.folders()[z],
                                srcs[i as int],
                                target@,
                            ) == q;
                            if z < y {
                                assert(exists|z: int| 0 <= z < y && is_at_or_below(start.folders()[z], srcs[i as int]) && rewrite_of(
                                    #[trigger] start.folders()[z],
                                    srcs[i as int],
                                    target@,
                                ) == q);
                            }
                        }
                    }
                }
                y = y + 1;
            }
            proof {
                assert forall|q: Seq<char>| #[trigger] self.marked(q) == copied_mark(start, srcs.take(i + 1), dest@, q) by {
                    assert(srcs.take(i + 1).drop_last() =~= srcs.take(i as int));
                    assert(srcs.take(i + 1).last() == srcs[i as int]);
                    assert(at_start.marked(q) == copied_mark(start, srcs.take(i as int), dest@, q));
                    assert(marks_now.contains(q) == at_start.marked(q));
                    let s_i = srcs[i as int];
                    let f = start.folders();
                    if exists|z: int| 0 <= z < f.len() && is_at_or_below(f[z], s_i) && rewrite_of(#[trigger] f[z], s_i, t) == q {
                        let z = choose|z: int| 0 <= z < f.len() && is_at_or_below(f[z], s_i) && rewrite_of(#[trigger] f[z], s_i, t) == q;
                        lemma_rewrite_below(f[z], s_i, t);
                        rename_back_restores(f[z], s_i, t);
                        assert(start.marked(f[z]));
                    }
                    if is_at_or_below(q, t) && start.marked(rewrite_of(q, t, s_i)) {
                        let g = rewrite_of(q, t, s_i);
                        lemma_rewrite_below(q, t, s_i);
                        rename_back_restores(q, t, s_i);
                        let z = choose|z: int| 0 <= z < f.len() && f[z] == g;
                        assert(rewrite_of(f[z], s_i, t) == q);
                    }
                }
            }
            i = i + 1;
        }
        assert(srcs.take(i as int) =~= srcs);
        Ok(sources.len())
    }

    /// Every relative path `name` such that `dir/name` is a file or a folder of
    /// the store.
    pub fn names_below(&self, dir: &str) -> (r: PathSet)
        ensures
            forall|name: Seq<char>| #[trigger] r@.contains(name) <==> self.exists_at(dir@ + seq!['/'] + name),
    {
        let inside = with_slash(&chars_of(dir));
        let mut set = PathSet::new();
        let mut i: usize = 0;
        while i < self.files.len()
            invariant
                i <= self.files@.len(),
                self.entries().len() == self.files@.len(),
                inside@ == dir@ + seq!['/'],
                forall|name: Seq<char>| #[trigger] set@.contains(name) <==> exists|j: int|
                    0 <= j < i && #[trigger] names_entry(self.entries()[j].0, inside@, name),
            decreases self.files.len() - i,
        {
            let path = chars_of(self.files[i].0.as_str());
            assert(path@ == self.entries()[i as int].0);
            add_names_on_way(&mut set, &path, &inside);
            proof {
                assert forall|name: Seq<char>| #[trigger] set@.contains(name) <==> exists|j: int|
                    0 <= j < i + 1 && #[trigger] names_entry(self.entries()[j].0, inside@, name) by {
                    if exists|j: int| 0 <= j < i + 1 && #[trigger] names_entry(self.entries()[j].0, inside@, name) {
                        let j = choose|j: int| 0 <= j < i + 1 && #[trigger] names_entry(self.entries()[j].0, inside@, name);
                        if j < i {
                            assert(exists|j: int| 0 <= j < i && #[trigger] names_entry(self.entries()[j].0, inside@, name));
                        }
                    }
                }
            }
            i = i + 1;
        }
        let mut k: usize = 0;
        while k < self.dirs.len()
            invariant
                k <= self.dirs@.len(),
                self.folders().len() == self.dirs@.len(),
                inside@ == dir@ + seq!['/'],
                forall|name: Seq<char>| #[trigger] set@.contains(name) <==> (exists|j: int|
                    0 <= j < self.entries().len() && #[trigger] names_entry(self.entries()[j].0, inside@, name))
                    || (exists|x: int| 0 <= x < k && #[trigger] names_entry(self.folders()[x], inside@, name)),
            decreases self.dirs.len() - k,
        {
            let path = chars_of(self.dirs[k].as_str());
            assert(path@ == self.folders()[k as int]);
            add_names_on_way(&mut set, &path, &inside);
            proof {
                assert forall|name: Seq<char>| #[trigger] set@.contains(name) <==> (exists|j: int|
                    0 <= j < self.entries().len() && #[trigger] names_entry(self.entries()[j].0, inside@, name))
                    || (exists|x: int| 0 <= x < k + 1 && #[trigger] names_entry(self.folders()[x], inside@, name)) by {
                    if exists|x: int| 0 <= x < k + 1 && #[trigger] names_entry(self.folders()[x], inside@, name) {
                        let x = choose|x: int| 0 <= x < k + 1 && #[trigger] names_entry(self.folders()[x], inside@, name);
                        if x < k {
                            assert(exists|x: int| 0 <= x < k && #[trigger] names_entry(self.folders()[x], inside@, name));
                        }
                    }
                }
            }
            k = k + 1;
        }
        proof {
            assert forall|name: Seq<char>| #[trigger] set@.contains(name) <==> self.exists_at(dir@ + seq!['/'] + name) by {
                self.lemma_exists_at(inside@, name);
            }
        }
        set
    }
}

/// The entries of `entries` that are not at or below `dir`, in order.
pub open spec fn outside(entries: Seq<(Seq<char>, Seq<char>)>, dir: Seq<char>) -> Seq<(Seq<char>, Seq<char>)>
    decreases entries.len(),
{
    if entries.len() == 0 {
        Seq::empty()
    } else if is_at_or_below(entries.last().0, dir) {
        outside(entries.drop_last(), dir)
    } else {
        outside(entries.drop_last(), dir).push(entries.last())
    }
}

proof fn lemma_lookup_outside(entries: Seq<(Seq<char>, Seq<char>)>, dir: Seq<char>, p: Seq<char>)
    ensures
        lookup(outside(entries, dir), p) == if is_at_or_below(p, dir) {
            None
        } else {
            lookup(entries, p)
        },
    decreases entries.len(),
{
    if entries.len() > 0 {
        lemma_lookup_outside(entries.drop_last(), dir, p);
        if !is_at_or_below(entries.last().0, dir) {
            let o = outside(entries.drop_last(), dir).push(entries.last());
            assert(o.drop_last() =~= outside(entries.drop_last(), dir));
        }
    }
}

/// Length of the longest path of `entries`.
pub open spec fn longest(entries: Seq<(Seq<char>, Seq<char>)>) -> nat
    decreases entries.len(),
{
    if entries.len() == 0 {
        0
    } else {
        let rest = longest(entries.drop_last());
        if entries.last().0.len() > rest {
            entries.last().0.len()
        } else {
            rest
        }
    }
}


/// Length of the longest text of `s`.
pub open spec fn longest_text(s: Seq<Seq<char>>) -> nat
    decreases s.len(),
{
    if s.len() == 0 {
        0
    } else {
        let rest = longest_text(s.drop_last());
        if s.last().len() > rest {
            s.last().len()
        } else {
            rest
        }
    }
}

/// Position of the first `c` in `s`, or its length when there is none.
pub open spec fn first_index_or_len(s: Seq<char>, c: char) -> int
    decreases s.len(),
{
    if s.len() == 0 {
        0
    } else if s[0] == c {
        0
    } else {
        1 + first_index_or_len(s.drop_first(), c)
    }
}

pub proof fn lemma_first_index_or_len(s: Seq<char>, c: char)
    ensures
        0 <= first_index_or_len(s, c) <= s.len(),
        forall|i: int| 0 <= i < first_index_or_len(s, c) ==> s[i] != c,
        first_index_or_len(s, c) < s.len() ==> s[first_index_or_len(s, c)] == c,
    decreases s.len(),
{
    if s.len() > 0 && s[0] != c {
        lemma_first_index_or_len(s.drop_first(), c);
        assert forall|i: int| 0 <= i < first_index_or_len(s, c) implies s[i] != c by {
            if i > 0 {
                assert(s[i] == s.drop_first()[i - 1]);
            }
        }
    }
}

/// Where paths inside folder `parent` start: `parent/`, or nothing for the root.
pub open spec fn inside_of(parent: Seq<char>) -> Seq<char> {
    if parent.len() == 0 {
        Seq::empty()
    } else {
        parent + seq!['/']
    }
}

/// The name of the child of the folder that `inside` opens, on the way to
/// the stored path `path`, if `path` lies there.
pub open spec fn child_on_way(path: Seq<char>, inside: Seq<char>) -> Option<Seq<char>> {
    if starts_with(path, inside) {
        let rest = path.skip(inside.len() as int);
        let k = first_index_or_len(rest, '/');
        if k > 0 {
            Some(rest.take(k))
        } else {
            None
        }
    } else {
        None
    }
}

/// The names of a list of children.
pub open spec fn names_of(children: Seq<(String, bool)>) -> Seq<Seq<char>> {
    children.map_values(|c: (String, bool)| c.0@)
}

/// `name` is a child of folder `parent` (the root when empty): a non-empty
/// name without `/` under which there is a file or a folder.
pub open spec fn is_child_name(vfs: Vfs, parent: Seq<char>, name: Seq<char>) -> bool {
    name.len() > 0 && !name.contains('/') && vfs.exists_at(join_of(parent, name))
}

/// The file at `q` once everything at or below `from` moved to `to`.
pub open spec fn renamed_file(vfs: Vfs, from: Seq<char>, to: Seq<char>, q: Seq<char>) -> Option<Seq<char>> {
    if is_at_or_below(q, to) {
        vfs.file(rewrite_of(q, to, from))
    } else if is_at_or_below(q, from) {
        None
    } else {
        vfs.file(q)
    }
}

/// `srcs[i]` is the first of `srcs` that does not exist in `vfs`.
pub open spec fn first_missing(vfs: Vfs, srcs: Seq<Seq<char>>, i: int) -> bool {
    &&& 0 <= i < srcs.len()
    &&& !vfs.exists_at(srcs[i])
    &&& forall|j: int| 0 <= j < i ==> vfs.exists_at(#[trigger] srcs[j])
}

/// Whether `q` is a created folder once everything at or below `from` moved to `to`.
pub open spec fn renamed_mark(vfs: Vfs, from: Seq<char>, to: Seq<char>, q: Seq<char>) -> bool {
    if is_at_or_below(q, to) {
        vfs.marked(rewrite_of(q, to, from))
    } else if is_at_or_below(q, from) {
        false
    } else {
        vfs.marked(q)
    }
}

/// The path a rename of the entry at `path` to `name` gives: `name` in the
/// same folder.
pub open spec fn renamed_path(path: Seq<char>, name: Seq<char>) -> Seq<char> {
    join_of(parent_of(path), name)
}

/// `entries` with every path moved from below `from` to below `to`.
pub open spec fn moved(entries: Seq<(Seq<char>, Seq<char>)>, from: Seq<char>, to: Seq<char>) -> Seq<(Seq<char>, Seq<char>)> {
    entries.map_values(|e: (Seq<char>, Seq<char>)| (rewrite_of(e.0, from, to), e.1))
}

proof fn lemma_lookup_matching(
    a: Seq<(Seq<char>, Seq<char>)>,
    b: Seq<(Seq<char>, Seq<char>)>,
    qa: Seq<char>,
    qb: Seq<char>,
)
    requires
        a.len() == b.len(),
        forall|j: int| 0 <= j < a.len() ==> (#[trigger] a[j]).1 == b[j].1,
        forall|j: int| 0 <= j < a.len() ==> ((#[trigger] a[j]).0 == qa <==> b[j].0 == qb),
    ensures
        lookup(a, qa) == lookup(b, qb),
    decreases a.len(),
{
    if a.len() > 0 {
        let (a1, b1) = (a.drop_last(), b.drop_last());
        assert forall|j: int| 0 <= j < a1.len() implies (#[trigger] a1[j]).1 == b1[j].1 && (a1[j].0 == qa <==> b1[j].0 == qb) by {
            assert(a1[j] == a[j] && b1[j] == b[j]);
        }
        lemma_lookup_matching(a1, b1, qa, qb);
        assert(a.last() == a[a.len() - 1]);
        assert(b.last() == b[b.len() - 1]);
    }
}

proof fn lemma_lookup_missing(a: Seq<(Seq<char>, Seq<char>)>, q: Seq<char>)
    requires
        forall|j: int| 0 <= j < a.len() ==> (#[trigger] a[j]).0 != q,
    ensures
        lookup(a, q) is None,
    decreases a.len(),
{
    if a.len() > 0 {
        let a1 = a.drop_last();
        assert forall|j: int| 0 <= j < a1.len() implies (#[trigger] a1[j]).0 != q by {
            assert(a1[j] == a[j]);
        }
        lemma_lookup_missing(a1, q);
        assert(a.last() == a[a.len() - 1]);
    }
}

/// The file at `p` after `writes` were applied over `before`.
pub open spec fn written(before: Option<Seq<char>>, writes: Seq<(Seq<char>, Seq<char>)>, p: Seq<char>) -> Option<Seq<char>> {
    match lookup(writes, p) {
        Some(c) => Some(c),
        None => before,
    }
}

/// Where `source` lands when copied into folder `dest`: `dest/<its name>`.
pub open spec fn copy_target(source: Seq<char>, dest: Seq<char>) -> Seq<char> {
    join_of(dest, file_name_of(source))
}

/// The file at `q` after copying each of `sources` (as `vfs` holds them) into
/// `dest`, in order: a later copy wins over an earlier one and over what was
/// there.
pub open spec fn copied_file(vfs: Vfs, sources: Seq<Seq<char>>, dest: Seq<char>, q: Seq<char>) -> Option<Seq<char>>
    decreases sources.len(),
{
    if sources.len() == 0 {
        vfs.file(q)
    } else {
        let s = sources.last();
        let t = copy_target(s, dest);
        let here = if is_at_or_below(q, t) {
            vfs.file(rewrite_of(q, t, s))
        } else {
            None
        };
        match here {
            Some(c) => Some(c),
            None => copied_file(vfs, sources.drop_last(), dest, q),
        }
    }
}

/// Whether `q` is a created folder after copying each of `sources` (as `vfs`
/// holds them) into `dest`: it was one, or it is the copy of one.
pub open spec fn copied_mark(vfs: Vfs, sources: Seq<Seq<char>>, dest: Seq<char>, q: Seq<char>) -> bool
    decreases sources.len(),
{
    if sources.len() == 0 {
        vfs.marked(q)
    } else {
        let s = sources.last();
        let t = copy_target(s, dest);
        copied_mark(vfs, sources.drop_last(), dest, q) || (is_at_or_below(q, t) && vfs.marked(rewrite_of(q, t, s)))
    }
}

/// The writes that copy the entries of `entries` at or below `source` to
/// below `target`, in storage order.
pub open spec fn copy_writes(entries: Seq<(Seq<char>, Seq<char>)>, source: Seq<char>, target: Seq<char>) -> Seq<(Seq<char>, Seq<char>)>
    decreases entries.len(),
{
    if entries.len() == 0 {
        Seq::empty()
    } else {
        let before = copy_writes(entries.drop_last(), source, target);
        let e = entries.last();
        if is_at_or_below(e.0, source) {
            before.push((rewrite_of(e.0, source, target), e.1))
        } else {
            before
        }
    }
}

proof fn lemma_copy_writes(entries: Seq<(Seq<char>, Seq<char>)>, source: Seq<char>, target: Seq<char>, q: Seq<char>)
    ensures
        lookup(copy_writes(entries, source, target), q) == if is_at_or_below(q, target) {
            lookup(entries, rewrite_of(q, target, source))
        } else {
            None
        },
    decreases entries.len(),
{
    if entries.len() > 0 {
        lemma_copy_writes(entries.drop_last(), source, target, q);
        let e = entries.last();
        if is_at_or_below(e.0, source) {
            let w = copy_writes(entries.drop_last(), source, target).push((rewrite_of(e.0, source, target), e.1));
            assert(w.drop_last() =~= copy_writes(entries.drop_last(), source, target));
            lemma_rewrite_below(e.0, source, target);
            rename_back_restores(e.0, source, target);
            if is_at_or_below(q, target) {
                lemma_rewrite_below(q, target, source);
                rename_back_restores(q, target, source);
            }
        } else {
            if is_at_or_below(q, target) {
                lemma_rewrite_below(q, target, source);
            }
        }
    }
}

proof fn lemma_lookup_concat(a: Seq<(Seq<char>, Seq<char>)>, b: Seq<(Seq<char>, Seq<char>)>, q: Seq<char>)
    ensures
        lookup(a + b, q) == match lookup(b, q) {
            Some(c) => Some(c),
            None => lookup(a, q),
        },
    decreases b.len(),
{
    if b.len() > 0 {
        assert((a + b).drop_last() =~= a + b.drop_last());
        assert((a + b).last() == b.last());
        lemma_lookup_concat(a, b.drop_last(), q);
    } else {
        assert(a + b =~= a);
    }
}

/// Whether `name` is the child of the folder `inside` opens on the way to
/// `path` is the same as whether `path` is at or below `inside + name`, for a
/// non-empty name without `/`.
proof fn lemma_child_on_way(path: Seq<char>, inside: Seq<char>, name: Seq<char>)
    ensures
        (names_entry(path, inside, name) && name.len() > 0 && !name.contains('/')) == (child_on_way(path, inside)
            == Some(name)),
{
    if names_entry(path, inside, name) && name.len() > 0 && !name.contains('/') {
        lemma_names_entry(path, inside, name);
        let rest = path.skip(inside.len() as int);
        let m = choose|m: int| cut_at(rest, m) && #[trigger] rest.take(m) == name;
        lemma_first_index_or_len(rest, '/');
        let k = first_index_or_len(rest, '/');
        assert(m == name.len());
        if k < m {
            assert(rest[k] == name[k]);
            assert(name.contains('/'));
        }
        assert(k == m);
    }
    if child_on_way(path, inside) == Some(name) {
        let rest = path.skip(inside.len() as int);
        lemma_first_index_or_len(rest, '/');
        let k = first_index_or_len(rest, '/');
        assert(cut_at(rest, k));
        lemma_names_entry(path, inside, name);
        assert(names_entry(path, inside, name));
        assert(!name.contains('/')) by {
            if name.contains('/') {
                let i = choose|i: int| 0 <= i < name.len() && name[i] == '/';
                assert(rest[i] == name[i]);
            }
        }
    }
}

/// Adds to the sorted `names` the child of the folder `inside` opens on the
/// way to `path`, if there is one.
fn add_child_on_way(names: &mut Vec<String>, path: &Vec<char>, inside: &Vec<char>)
    requires
        strictly_sorted(texts_of(old(names)@)),
    ensures
        strictly_sorted(texts_of(final(names)@)),
        forall|n: Seq<char>| #![trigger texts_of(final(names)@).contains(n)]
            texts_of(final(names)@).contains(n) <==> (texts_of(old(names)@).contains(n) || child_on_way(path@, inside@)
                == Some(n)),
{
    if starts_with_exec(path, inside) {
        let mut k = inside.len();
        while k < path.len() && path[k] != '/'
            invariant
                inside@.len() <= k <= path@.len(),
                forall|m: int| inside@.len() <= m < k ==> path@[m] != '/',
            decreases path.len() - k,
        {
            k = k + 1;
        }
        let ghost rest = path@.skip(inside@.len() as int);
        proof {
            lemma_first_index_or_len(rest, '/');
            let f = first_index_or_len(rest, '/');
            assert(f == k - inside@.len()) by {
                if f < k - inside@.len() {
                    assert(rest[f] == path@[inside@.len() + f]);
                }
                if f > k - inside@.len() {
                    assert(rest[k - inside@.len()] == path@[k as int]);
                }
            }
        }
        if k > inside.len() {
            let name = slice_of(path, inside.len(), k);
            assert(name@ =~= rest.take(k - inside@.len()));
            insert_sorted(names, string_of(&name));
        }
    }
}

/// Adds to `set` every relative path `name` such that `path` is at or below
/// `inside + name`.
fn add_names_on_way(set: &mut PathSet, path: &Vec<char>, inside: &Vec<char>)
    ensures
        forall|name: Seq<char>| #[trigger] final(set)@.contains(name) <==> (old(set)@.contains(name) || names_entry(
            path@,
            inside@,
            name,
        )),
{
    let ghost start = set@;
    if starts_with_exec(path, inside) {
        let rest = slice_of(path, inside.len(), path.len());
        assert(rest@ =~= path@.skip(inside@.len() as int));
        let mut k: usize = 0;
        while k < rest.len()
            invariant
                k <= rest@.len(),
                rest@ == path@.skip(inside@.len() as int),
                forall|name: Seq<char>| #[trigger] set@.contains(name) <==> start.contains(name)
                    || exists|m: int| 0 <= m < k && cut_at(rest@, m) && #[trigger] rest@.take(m) == name,
            decreases rest.len() - k,
        {
            if rest[k] == '/' {
                let piece = slice_of(&rest, 0, k);
                assert(piece@ =~= rest@.take(k as int));
                set.insert(string_of(&piece));
            }
            proof {
                assert forall|name: Seq<char>| #[trigger] set@.contains(name) <==> start.contains(name)
                    || exists|m: int| 0 <= m < k + 1 && cut_at(rest@, m) && #[trigger] rest@.take(m) == name by {
                    if exists|m: int| 0 <= m < k + 1 && cut_at(rest@, m) && #[trigger] rest@.take(m) == name {
                        let m = choose|m: int| 0 <= m < k + 1 && cut_at(rest@, m) && #[trigger] rest@.take(m) == name;
                        if m < k {
                            assert(exists|m: int| 0 <= m < k && cut_at(rest@, m) && #[trigger] rest@.take(m) == name);
                        }
                    }
                }
            }
            k = k + 1;
        }
        let whole = slice_of(&rest, 0, rest.len());
        assert(whole@ =~= rest@.take(rest@.len() as int));
        set.insert(string_of(&whole));
        proof {
            let n = rest@.len() as int;
            assert(cut_at(rest@, n));
            assert forall|name: Seq<char>| #[trigger] set@.contains(name) <==> (start.contains(name) || names_entry(
                path@,
                inside@,
                name,
            )) by {
                lemma_names_entry(path@, inside@, name);
                if exists|m: int| 0 <= m < n + 1 && cut_at(rest@, m) && #[trigger] rest@.take(m) == name {
                    let m = choose|m: int| 0 <= m < n + 1 && cut_at(rest@, m) && #[trigger] rest@.take(m) == name;
                    if m < n {
                        assert(exists|m: int| 0 <= m < k && cut_at(rest@, m) && #[trigger] rest@.take(m) == name);
                    }
                }
            }
        }
    } else {
        proof {
            assert forall|name: Seq<char>| #[trigger] set@.contains(name) <==> (start.contains(name) || names_entry(
                path@,
                inside@,
                name,
            )) by {
                lemma_names_entry(path@, inside@, name);
            }
        }
    }
}

/// `path` is `inside + name` itself or lies below it.
pub open spec fn names_entry(path: Seq<char>, inside: Seq<char>, name: Seq<char>) -> bool {
    path == inside + name || starts_with(path, inside + name + seq!['/'])
}

/// Position `k` of `rest` ends a component: it is the end or a `/`.
pub open spec fn cut_at(rest: Seq<char>, k: int) -> bool {
    0 <= k <= rest.len() && (k == rest.len() || rest[k] == '/')
}

proof fn lemma_names_entry(path: Seq<char>, inside: Seq<char>, name: Seq<char>)
    ensures
        names_entry(path, inside, name) <==> (starts_with(path, inside) && {
            let rest = path.skip(inside.len() as int);
            exists|k: int| cut_at(rest, k) && #[trigger] rest.take(k) == name
        }),
{
    let rest = path.skip(inside.len() as int);
    if path == inside + name {
        assert(path.subrange(0, inside.len() as int) =~= inside);
        assert(rest =~= name);
        assert(rest.take(rest.len() as int) =~= rest);
        assert(cut_at(rest, rest.len() as int));
    } else if starts_with(path, inside + name + seq!['/']) {
        let full = inside + name + seq!['/'];
        assert(path.subrange(0, inside.len() as int) =~= full.subrange(0, inside.len() as int));
        assert(full.subrange(0, inside.len() as int) =~= inside);
        let k = name.len() as int;
        assert(rest[k] == path[inside.len() + k]);
        assert(path[inside.len() + k] == full[inside.len() + k]);
        assert(rest.take(k) =~= name) by {
            assert forall|i: int| 0 <= i < k implies rest.take(k)[i] == name[i] by {
                assert(rest[i] == path[inside.len() + i]);
                assert(path[inside.len() + i] == full[inside.len() + i]);
            }
        }
        assert(cut_at(rest, k));
    }
    if starts_with(path, inside) {
        if exists|k: int| cut_at(rest, k) && #[trigger] rest.take(k) == name {
            let k = choose|k: int| cut_at(rest, k) && #[trigger] rest.take(k) == name;
            assert(path =~= inside + rest);
            if k == rest.len() {
                assert(rest.take(k) =~= rest);
            } else {
                let full = inside + name + seq!['/'];
                assert(path.subrange(0, full.len() as int) =~= full) by {
                    assert forall|i: int| 0 <= i < full.len() implies path.subrange(0, full.len() as int)[i] == full[i] by {
                        if i >= inside.len() && i < inside.len() + k {
                            assert(rest.take(k)[i - inside.len()] == rest[i - inside.len()]);
                        }
                    }
                }
            }
        }
    }
}

/// After storing a file at `path`, exactly the places at or above it are added
/// to what exists.
pub proof fn lemma_exists_after_put(before: Vfs, after: Vfs, path: Seq<char>, content: Seq<char>, q: Seq<char>)
    requires
        after.file(path) == Some(content),
        forall|p: Seq<char>| p != path ==> #[trigger] after.file(p) == before.file(p),
        after.folders() == before.folders(),
    ensures
        after.exists_at(q) == (before.exists_at(q) || path == q || starts_with(path, q + seq!['/'])),
{
    if after.marked_at_or_below(q) {
        let d = choose|d: Seq<char>| #[trigger] after.marked(d) && is_at_or_below(d, q);
        assert(before.marked(d));
    }
    if before.marked_at_or_below(q) {
        let d = choose|d: Seq<char>| #[trigger] before.marked(d) && is_at_or_below(d, q);
        assert(after.marked(d));
    }
    if after.file_below(q) {
        let w = choose|w: Seq<char>| #[trigger] after.file(w) is Some && starts_with(w, q + seq!['/']);
        if w != path {
            assert(before.file(w) is Some);
        }
    }
    if before.file_below(q) {
        let w = choose|w: Seq<char>| #[trigger] before.file(w) is Some && starts_with(w, q + seq!['/']);
        assert(after.file(w) is Some);
    }
    if starts_with(path, q + seq!['/']) {
        assert(after.file(path) is Some);
    }
    if q != path {
        assert(after.file(q) == before.file(q));
    }
}

proof fn lemma_entry_found(entries: Seq<(Seq<char>, Seq<char>)>, i: int)
    requires
        0 <= i < entries.len(),
    ensures
        lookup(entries, entries[i].0) is Some,
{
    lemma_last_entry(entries, entries[i].0);
}

impl Default for Vfs {
    fn default() -> (v: Self)
        ensures
            forall|p: Seq<char>| v.file(p) is None,
    {
        Vfs::new()
    }
}

} // verus!
