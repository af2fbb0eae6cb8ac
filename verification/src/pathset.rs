//! A set of workspace paths (selection, expanded folders, copy plan).
use vstd::prelude::*;
use vstd::string::*;

use crate::text::{chars_of, same_chars};

verus! {

/// A finite set of paths, kept in insertion order without repeats.
pub struct PathSet {
    items: Vec<String>,
}

impl PathSet {
    /// The paths in storage order.
    pub closed spec fn paths(&self) -> Seq<Seq<char>> {
        self.items@.map_values(|s: String| s@)
    }

    #[verifier::type_invariant]
    spec fn no_repeats(&self) -> bool {
        self.paths().no_duplicates()
    }
}

impl View for PathSet {
    type V = Set<Seq<char>>;

    closed spec fn view(&self) -> Set<Seq<char>> {
        self.paths().to_set()
    }
}

impl PathSet {
    proof fn lemma_view(&self)
        requires
            self.paths().no_duplicates(),
        ensures
            self.paths().no_duplicates(),
            self@.finite(),
            self@.len() == self.paths().len(),
            forall|p: Seq<char>| self@.contains(p) <==> self.paths().contains(p),
    {
        self.paths().unique_seq_to_set();
    }

    /// The empty set.
    pub fn new() -> (s: Self)
        ensures
            s@ == Set::<Seq<char>>::empty(),
    {
        let s = PathSet { items: Vec::new() };
        assert(s.paths() =~= Seq::<Seq<char>>::empty());
        assert(s@ =~= Set::<Seq<char>>::empty());
        s
    }

    /// Position of `path` in storage, if present.
    fn position(&self, path: &Vec<char>) -> (r: Option<usize>)
        ensures
            match r {
                Some(i) => i < self.paths().len() && self.paths()[i as int] == path@,
                None => !self.paths().contains(path@),
            },
    {
        let mut i: usize = 0;
        while i < self.items.len()
            invariant
                i <= self.items@.len(),
                self.paths().len() == self.items@.len(),
                forall|j: int| 0 <= j < i ==> self.paths()[j] != path@,
            decreases self.items.len() - i,
        {
            let here = chars_of(self.items[i].as_str());
            if same_chars(&here, path) {
                return Some(i);
            }
            i = i + 1;
        }
        None
    }

    /// Whether `path` (as characters) is in the set.
    pub fn contains_chars(&self, path: &Vec<char>) -> (r: bool)
        ensures
            r == self@.contains(path@),
    {
        proof {
            use_type_invariant(&*self);
            self.lemma_view();
        }
        self.position(path).is_some()
    }

    /// Whether `path` is in the set.
    pub fn contains(&self, path: &str) -> (r: bool)
        ensures
            r == self@.contains(path@),
    {
        self.contains_chars(&chars_of(path))
    }

    /// Number of paths in the set.
    pub fn len(&self) -> (n: usize)
        ensures
            n == self@.len(),
            self@.finite(),
    {
        proof {
            use_type_invariant(&*self);
            self.lemma_view();
        }
        self.items.len()
    }

    /// Whether the set is empty.
    pub fn is_empty(&self) -> (r: bool)
        ensures
            r == (self@.len() == 0),
    {
        self.len() == 0
    }

    /// Adds `path`; answers whether it was new.
    pub fn insert(&mut self, path: String) -> (added: bool)
        ensures
            final(self)@ == old(self)@.insert(path@),
            added == !old(self)@.contains(path@),
    {
        proof {
            use_type_invariant(&*self);
            self.lemma_view();
        }
        let key = chars_of(path.as_str());
        if self.position(&key).is_some() {
            proof {
                assert(self@.insert(path@) =~= self@);
            }
            return false;
        }
        let ghost before = self.paths();
        let mut items: Vec<String> = Vec::new();
        std::mem::swap(&mut items, &mut self.items);
        items.push(path);
        proof {
            assert(items@.map_values(|s: String| s@) =~= before.push(key@));
            assert forall|a: int, b: int| 0 <= a < b < before.len() + 1 implies before.push(key@)[a] != before.push(key@)[b] by {
                if b == before.len() {
                    assert(before[a] != key@);
                }
            }
        }
        self.items = items;
        proof {
            assert(self.paths() =~= before.push(key@));
            before.lemma_push_to_set_commute(key@);
            assert(self@ =~= before.to_set().insert(key@));
        }
        true
    }

    /// Removes `path`; answers whether it was present.
    pub fn remove(&mut self, path: &str) -> (removed: bool)
        ensures
            final(self)@ == old(self)@.remove(path@),
            removed == old(self)@.contains(path@),
    {
        proof {
            use_type_invariant(&*self);
            self.lemma_view();
        }
        let key = chars_of(path);
        match self.position(&key) {
            None => {
                proof {
                    assert(self@.remove(path@) =~= self@);
                }
                false
            },
            Some(i) => {
                let ghost before = self.paths();
                let mut items: Vec<String> = Vec::new();
                std::mem::swap(&mut items, &mut self.items);
                items.remove(i);
                proof {
                    assert(items@.map_values(|s: String| s@) =~= before.remove(i as int));
                    let after = before.remove(i as int);
                    assert forall|a: int, b: int| 0 <= a < b < after.len() implies after[a] != after[b] by {
                        let a2 = if a < i { a } else { a + 1 };
                        let b2 = if b < i { b } else { b + 1 };
                        assert(after[a] == before[a2]);
                        assert(after[b] == before[b2]);
                    }
                }
                self.items = items;
                proof {
                    assert(self.paths() =~= before.remove(i as int));
                    assert forall|p: Seq<char>| self@.contains(p) <==> before.to_set().remove(path@).contains(p) by {
                        if before.to_set().remove(path@).contains(p) {
                            let k = choose|k: int| 0 <= k < before.len() && before[k] == p;
                            assert(k != i);
                            if k < i {
                                assert(self.paths()[k] == p);
                            } else {
                                assert(self.paths()[k - 1] == p);
                            }
                        }
                        if self@.contains(p) {
                            let k = choose|k: int| 0 <= k < self.paths().len() && self.paths()[k] == p;
                            if k < i {
                                assert(before[k] == p);
                            } else {
                                assert(before[k + 1] == p);
                            }
                        }
                    }
                    assert(self@ =~= before.to_set().remove(path@));
                }
                true
            },
        }
    }

    /// A set made of the given paths (repeats kept once).
    pub fn from_paths(paths: Vec<String>) -> (s: Self)
        ensures
            forall|p: Seq<char>| s@.contains(p) <==> exists|i: int| 0 <= i < paths@.len() && #[trigger] paths@[i]@ == p,
    {
        let mut s = PathSet::new();
        let mut i: usize = 0;
        while i < paths.len()
            invariant
                i <= paths@.len(),
                forall|p: Seq<char>| s@.contains(p) <==> exists|j: int| 0 <= j < i && #[trigger] paths@[j]@ == p,
            decreases paths.len() - i,
        {
            let p = paths[i].clone();
            s.insert(p);
            proof {
                assert forall|q: Seq<char>| s@.contains(q) <==> exists|j: int| 0 <= j < i + 1 && #[trigger] paths@[j]@ == q by {
                    if q == paths@[i as int]@ {
                        assert(0 <= i < i + 1 && paths@[i as int]@ == q);
                    }
                    if exists|j: int| 0 <= j < i + 1 && #[trigger] paths@[j]@ == q {
                        let j = choose|j: int| 0 <= j < i + 1 && #[trigger] paths@[j]@ == q;
                        if j < i {
                            assert(exists|j: int| 0 <= j < i && #[trigger] paths@[j]@ == q);
                        }
                    }
                }
            }
            i = i + 1;
        }
        s
    }

    /// The paths, in the order they were first added.
    pub fn to_vec(&self) -> (v: Vec<String>)
        ensures
            v@.map_values(|s: String| s@) == self.paths(),
            forall|p: Seq<char>| self@.contains(p) <==> exists|i: int| 0 <= i < v@.len() && #[trigger] v@[i]@ == p,
    {
        proof {
            use_type_invariant(&*self);
            self.lemma_view();
        }
        let v = self.items.clone();
        proof {
            assert(v@.map_values(|s: String| s@) =~= self.paths());
            assert forall|p: Seq<char>| self@.contains(p) <==> exists|i: int| 0 <= i < v@.len() && #[trigger] v@[i]@ == p by {
                if self@.contains(p) {
                    let k = choose|k: int| 0 <= k < self.paths().len() && self.paths()[k] == p;
                    assert(v@[k]@ == p);
                }
                if exists|i: int| 0 <= i < v@.len() && #[trigger] v@[i]@ == p {
                    let k = choose|k: int| 0 <= k < v@.len() && #[trigger] v@[k]@ == p;
                    assert(self.paths()[k] == p);
                }
            }
        }
        v
    }
}

} // verus!
