//! Planned copy set for the explorer (not the OS clipboard).
//!
//! Choosing `copy` only marks paths. Paste later clones those entries into the
//! target folder. Nested marks are dropped so a folder and a child inside it
//! are not pasted twice.
use vstd::prelude::*;
use vstd::string::*;

use crate::paths::is_proper_ancestor;
use crate::pathset::PathSet;
use crate::order::{insert_sorted, sorted_lists_with_same_texts_are_equal, strictly_sorted};
use crate::text::{chars_of, slice_of, starts_with, string_of, texts_of};

verus! {

/// `path` is drawn as selected: it, or a folder above it, is in `selected`.
pub open spec fn looks_selected(path: Seq<char>, selected: Set<Seq<char>>) -> bool {
    selected.contains(path) || has_selected_ancestor(path, selected)
}

/// Some proper ancestor folder of `path` is in `selected`.
pub open spec fn has_selected_ancestor(path: Seq<char>, selected: Set<Seq<char>>) -> bool {
    exists|a: Seq<char>| is_proper_ancestor(a, path) && #[trigger] selected.contains(a)
}

/// The marked paths that have no marked ancestor folder.
pub open spec fn top_level_of(paths: Set<Seq<char>>) -> Set<Seq<char>> {
    paths.filter(|p: Seq<char>| !has_selected_ancestor(p, paths))
}

/// The copy plan after the copy command on `clicked`: with `clicked` inside a
/// selection of more than one path, the whole selection is marked; otherwise
/// `clicked` alone is toggled.
pub open spec fn copy_command_of(
    clicked: Seq<char>,
    selected: Set<Seq<char>>,
    planned: Set<Seq<char>>,
) -> Set<Seq<char>> {
    if selected.contains(clicked) && selected.len() > 1 {
        planned.union(selected)
    } else if planned.contains(clicked) {
        planned.remove(clicked)
    } else {
        planned.insert(clicked)
    }
}

/// Whether some proper ancestor folder of `path` is in `selected`.
pub fn selected_ancestor(path: &Vec<char>, selected: &PathSet) -> (r: bool)
    ensures
        r == has_selected_ancestor(path@, selected@),
{
    let n = path.len();
    let mut i: usize = 1;
    while i < n
        invariant
            n == path@.len(),
            1 <= i,
            forall|j: int| 0 < j < i && j < n && path@[j] == '/' ==> !selected@.contains(#[trigger] path@.take(j)),
        decreases n - i,
    {
        if path[i] == '/' {
            let dir = slice_of(path, 0, i);
            if selected.contains_chars(&dir) {
                assert(path@.subrange(0, i as int) =~= path@.take(i as int));
                assert(is_proper_ancestor(dir@, path@));
                return true;
            }
            assert(path@.subrange(0, i as int) =~= path@.take(i as int));
        }
        i = i + 1;
    }
    assert forall|a: Seq<char>| is_proper_ancestor(a, path@) implies !#[trigger] selected@.contains(a) by {
        let k = choose|k: int| 0 < k < path@.len() && path@[k] == '/' && a == #[trigger] path@.take(k);
        assert(!selected@.contains(path@.take(k)));
    }
    false
}

/// True when `path` itself or an ancestor folder is in `selected`.
pub fn row_looks_selected(path: &str, selected: &PathSet) -> (r: bool)
    ensures
        r == looks_selected(path@, selected@),
{
    let p = chars_of(path);
    selected.contains_chars(&p) || selected_ancestor(&p, selected)
}

/// The marked paths that have no marked ancestor folder, in increasing order
/// (so a folder and a child inside it are not pasted twice).
pub fn top_level_paths(paths: &PathSet) -> (r: Vec<String>)
    ensures
        strictly_sorted(texts_of(r@)),
        forall|p: Seq<char>| #![trigger texts_of(r@).contains(p)]
            texts_of(r@).contains(p) <==> (paths@.contains(p)
                && !has_selected_ancestor(p, paths@)),
        texts_of(r@).to_set() == top_level_of(paths@),
{
    let items = paths.to_vec();
    let mut out: Vec<String> = Vec::new();
    let mut i: usize = 0;
    proof {
        assert(texts_of(out@) =~= Seq::<Seq<char>>::empty());
    }
    while i < items.len()
        invariant
            i <= items@.len(),
            forall|p: Seq<char>| paths@.contains(p) <==> exists|j: int| 0 <= j < items@.len() && #[trigger] items@[j]@ == p,
            strictly_sorted(texts_of(out@)),
            forall|p: Seq<char>| #![trigger texts_of(out@).contains(p)]
                texts_of(out@).contains(p) <==> (exists|j: int| 0 <= j < i && #[trigger] items@[j]@ == p)
                    && !has_selected_ancestor(p, paths@),
        decreases items.len() - i,
    {
        let p = chars_of(items[i].as_str());
        let ghost prev = texts_of(out@);
        if !selected_ancestor(&p, paths) {
            insert_sorted(&mut out, string_of(&p));
        }
        proof {
            let cur = texts_of(out@);
            assert forall|q: Seq<char>| #![trigger cur.contains(q)]
                cur.contains(q) <==> (exists|j: int| 0 <= j < i + 1 && #[trigger] items@[j]@ == q)
                    && !has_selected_ancestor(q, paths@) by {
                if exists|j: int| 0 <= j < i + 1 && #[trigger] items@[j]@ == q {
                    let j = choose|j: int| 0 <= j < i + 1 && #[trigger] items@[j]@ == q;
                    if j < i {
                        assert(exists|j: int| 0 <= j < i && #[trigger] items@[j]@ == q);
                        if !has_selected_ancestor(q, paths@) {
                            assert(prev.contains(q));
                        }
                    }
                }
                if prev.contains(q) {
                    let j = choose|j: int| 0 <= j < i && #[trigger] items@[j]@ == q;
                    assert(0 <= j < i + 1 && items@[j]@ == q);
                }
                if q == items@[i as int]@ {
                    assert(0 <= i < i + 1 && items@[i as int]@ == q);
                }
            }
        }
        i = i + 1;
    }
    assert(texts_of(out@).to_set() =~= top_level_of(paths@));
    out
}

/// The copy plan after the copy command on `clicked` (see `copy_command_of`).
pub fn apply_copy_command(clicked: &str, selected: &PathSet, planned: &PathSet) -> (r: PathSet)
    ensures
        r@ == copy_command_of(clicked@, selected@, planned@),
{
    let mut next = PathSet::from_paths(planned.to_vec());
    assert(next@ =~= planned@);
    if selected.contains(clicked) && selected.len() > 1 {
        let all = selected.to_vec();
        let mut i: usize = 0;
        while i < all.len()
            invariant
                i <= all@.len(),
                forall|p: Seq<char>| selected@.contains(p) <==> exists|j: int| 0 <= j < all@.len() && #[trigger] all@[j]@ == p,
                forall|p: Seq<char>| next@.contains(p) <==> planned@.contains(p) || exists|j: int| 0 <= j < i && #[trigger] all@[j]@ == p,
            decreases all.len() - i,
        {
            next.insert(all[i].clone());
            proof {
                assert forall|p: Seq<char>| next@.contains(p) <==> planned@.contains(p) || exists|j: int| 0 <= j < i + 1 && #[trigger] all@[j]@ == p by {
                    if p == all@[i as int]@ {
                        assert(0 <= i < i + 1 && all@[i as int]@ == p);
                    }
                    if exists|j: int| 0 <= j < i + 1 && #[trigger] all@[j]@ == p {
                        let j = choose|j: int| 0 <= j < i + 1 && #[trigger] all@[j]@ == p;
                        if j < i {
                            assert(exists|j: int| 0 <= j < i && #[trigger] all@[j]@ == p);
                        }
                    }
                }
            }
            i = i + 1;
        }
        assert(next@ =~= planned@.union(selected@));
    } else if !next.remove(clicked) {
        next.insert(string_of(&chars_of(clicked)));
    }
    next
}

/// A selected folder paints every row below it as selected.
pub proof fn folder_selection_covers_children(dir: Seq<char>, path: Seq<char>, selected: Set<Seq<char>>)
    requires
        selected.contains(dir),
        dir.len() > 0,
        path.len() > dir.len() + 1,
        path.take(dir.len() as int + 1) == dir + seq!['/'],
    ensures
        looks_selected(path, selected),
{
    let k = dir.len() as int;
    assert(path[k] == path.take(k + 1)[k]);
    assert(path.take(k) =~= dir);
    assert(is_proper_ancestor(dir, path));
}

/// Choosing copy twice on the same path outside a multi-path selection leaves
/// the plan as it was.
pub proof fn copy_toggle_twice_restores(
    clicked: Seq<char>,
    selected: Set<Seq<char>>,
    planned: Set<Seq<char>>,
)
    requires
        !(selected.contains(clicked) && selected.len() > 1),
    ensures
        copy_command_of(clicked, selected, copy_command_of(clicked, selected, planned)) == planned,
{
    if planned.contains(clicked) {
        assert(planned.remove(clicked).insert(clicked) =~= planned);
    } else {
        assert(planned.insert(clicked).remove(clicked) =~= planned);
    }
}

/// Marking a whole selection a second time changes nothing.
pub proof fn copy_selection_is_idempotent(
    clicked: Seq<char>,
    selected: Set<Seq<char>>,
    planned: Set<Seq<char>>,
)
    requires
        selected.contains(clicked),
        selected.len() > 1,
    ensures
        copy_command_of(clicked, selected, copy_command_of(clicked, selected, planned))
            == copy_command_of(clicked, selected, planned),
        selected.subset_of(copy_command_of(clicked, selected, planned)),
{
    assert(planned.union(selected).union(selected) =~= planned.union(selected));
}

/// A marked path whose folder `path.take(i)` is marked lies below some
/// top-level marked path.
proof fn lemma_top_level_ancestor(path: Seq<char>, paths: Set<Seq<char>>, i: int)
    requires
        0 < i < path.len(),
        path[i] == '/',
        paths.contains(path.take(i)),
    ensures
        has_selected_ancestor(path, top_level_of(paths)),
    decreases i,
{
    let dir = path.take(i);
    if has_selected_ancestor(dir, paths) {
        let a = choose|a: Seq<char>| is_proper_ancestor(a, dir) && #[trigger] paths.contains(a);
        let j = choose|j: int| 0 < j < dir.len() && dir[j] == '/' && a == #[trigger] dir.take(j);
        assert(dir.take(j) =~= path.take(j));
        lemma_top_level_ancestor(path, paths, j);
    } else {
        assert(top_level_of(paths).contains(dir));
        assert(is_proper_ancestor(dir, path));
    }
}

/// The top-level marked paths still cover every marked path: each marked
/// path is drawn as selected by them alone. None of them lies below another,
/// and taking the top-level paths of them again changes nothing.
pub proof fn top_level_paths_cover_and_are_stable(paths: Set<Seq<char>>)
    ensures
        forall|p: Seq<char>| #[trigger] paths.contains(p) ==> looks_selected(p, top_level_of(paths)),
        forall|a: Seq<char>, b: Seq<char>|
            #[trigger] top_level_of(paths).contains(a) && #[trigger] top_level_of(paths).contains(b)
                ==> !is_proper_ancestor(a, b) && !(a.len() > 0 && starts_with(b, a + seq!['/'])),
        top_level_of(top_level_of(paths)) == top_level_of(paths),
{
    let top = top_level_of(paths);
    assert forall|p: Seq<char>| #[trigger] paths.contains(p) implies looks_selected(p, top) by {
        if has_selected_ancestor(p, paths) {
            let a = choose|a: Seq<char>| is_proper_ancestor(a, p) && #[trigger] paths.contains(a);
            let i = choose|i: int| 0 < i < p.len() && p[i] == '/' && a == #[trigger] p.take(i);
            lemma_top_level_ancestor(p, paths, i);
        } else {
            assert(top.contains(p));
        }
    }
    assert forall|a: Seq<char>, b: Seq<char>|
        #[trigger] top.contains(a) && #[trigger] top.contains(b)
            implies !is_proper_ancestor(a, b) && !(a.len() > 0 && starts_with(b, a + seq!['/'])) by {
        if is_proper_ancestor(a, b) {
            assert(has_selected_ancestor(b, paths));
        }
        if a.len() > 0 && starts_with(b, a + seq!['/']) {
            let i = a.len() as int;
            assert(b.subrange(0, i + 1) == a + seq!['/']);
            assert(b[i] == b.subrange(0, i + 1)[i]);
            assert(b.take(i) =~= a);
            assert(is_proper_ancestor(a, b));
            assert(has_selected_ancestor(b, paths));
        }
    }
    assert forall|p: Seq<char>| top.contains(p) implies !has_selected_ancestor(p, top) by {
        if has_selected_ancestor(p, top) {
            let a = choose|a: Seq<char>| is_proper_ancestor(a, p) && #[trigger] top.contains(a);
            assert(paths.contains(a));
        }
    }
    assert(top_level_of(top) =~= top);
}

/// Two lists of top-level paths in increasing order, the second taken from
/// the paths of the first, are the same list: computing the paste list again
/// from its own result gives it back.
pub proof fn top_level_list_is_stable(paths: Set<Seq<char>>, first: Seq<Seq<char>>, second: Seq<Seq<char>>)
    requires
        strictly_sorted(first),
        first.to_set() == top_level_of(paths),
        strictly_sorted(second),
        second.to_set() == top_level_of(first.to_set()),
    ensures
        second == first,
{
    top_level_paths_cover_and_are_stable(paths);
    assert forall|x: Seq<char>| first.contains(x) <==> second.contains(x) by {
        assert(first.contains(x) <==> first.to_set().contains(x));
        assert(second.contains(x) <==> second.to_set().contains(x));
    }
    sorted_lists_with_same_texts_are_equal(first, second);
}

/// Copy on a path inside a selection of more than one path marks the whole
/// selection and keeps every earlier mark: the new plan is exactly the old
/// plan together with the selection. Copy on any other path flips that path's
/// mark alone.
pub proof fn copy_marks_without_dropping_others(
    clicked: Seq<char>,
    selected: Set<Seq<char>>,
    planned: Set<Seq<char>>,
)
    ensures
        selected.contains(clicked) && selected.len() > 1 ==> {
            &&& planned.subset_of(copy_command_of(clicked, selected, planned))
            &&& selected.subset_of(copy_command_of(clicked, selected, planned))
            &&& forall|p: Seq<char>| #[trigger] copy_command_of(clicked, selected, planned).contains(p)
                ==> planned.contains(p) || selected.contains(p)
        },
        !(selected.contains(clicked) && selected.len() > 1) ==> {
            &&& copy_command_of(clicked, selected, planned).contains(clicked) == !planned.contains(clicked)
            &&& forall|p: Seq<char>| p != clicked ==> (#[trigger] copy_command_of(clicked, selected, planned).contains(p)
                == planned.contains(p))
        },
{
}

} // verus!
