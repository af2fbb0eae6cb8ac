//! The explorer's visible rows: the store's tree, flattened.
//!
//! The children of a folder are listed in name order; an expanded folder's
//! rows follow it, one level deeper. Collapsed folders hide what is below.
use vstd::prelude::*;
use vstd::string::*;

use crate::order::{sorted_lists_with_same_texts_are_equal, strictly_sorted};
use crate::pathset::PathSet;
use crate::paths::{file_name_of, join_of, join_path, parent_of_join};
use crate::text::texts_of;
use crate::vfs::{is_child_name, names_of, Vfs};

verus! {

/// One visible explorer row.
pub struct TreeRow {
    /// Workspace path of the entry.
    pub path: String,
    /// Its last component.
    pub name: String,
    /// Nesting level (0 at the root).
    pub depth: usize,
    /// Whether it is a folder.
    pub is_dir: bool,
    /// Whether it is an expanded folder.
    pub expanded: bool,
}

/// A row as plain values: path, name, depth, folder, expanded.
pub type RowView = (Seq<char>, Seq<char>, nat, bool, bool);

impl View for TreeRow {
    type V = RowView;

    open spec fn view(&self) -> RowView {
        (self.path@, self.name@, self.depth as nat, self.is_dir, self.expanded)
    }
}

/// The views of a list of rows.
pub open spec fn rows_view(rows: Seq<TreeRow>) -> Seq<RowView> {
    rows.map_values(|r: TreeRow| r@)
}

/// The children of folder `parent` (the root when empty) in name order.
pub open spec fn child_list(vfs: Vfs, parent: Seq<char>) -> Seq<Seq<char>> {
    choose|s: Seq<Seq<char>>|
        strictly_sorted(s) && forall|n: Seq<char>| #[trigger] s.contains(n) <==> is_child_name(vfs, parent, n)
}

/// The rows shown for the contents of folder `parent`, at nesting level `depth`.
pub open spec fn rows_under(vfs: Vfs, expanded: Set<Seq<char>>, parent: Seq<char>, depth: nat) -> Seq<RowView>
    decreases vfs.depth_bound() - parent.len(), 1int, 0int,
{
    rows_of_children(vfs, expanded, parent, child_list(vfs, parent), depth)
}

/// The rows of the children `kids` of `parent` and of what is open below
/// them. (A folder's own rows lie deeper than it, within the longest stored
/// path; the bounds below only make that visible to the definition.)
pub open spec fn rows_of_children(
    vfs: Vfs,
    expanded: Set<Seq<char>>,
    parent: Seq<char>,
    kids: Seq<Seq<char>>,
    depth: nat,
) -> Seq<RowView>
    decreases vfs.depth_bound() - parent.len(), 0int, kids.len(),
{
    if kids.len() == 0 {
        Seq::empty()
    } else {
        let name = kids[0];
        let path = join_of(parent, name);
        let dir = vfs.is_folder(path);
        let open = dir && expanded.contains(path);
        let below = if open && parent.len() < path.len() <= vfs.depth_bound() {
            rows_under(vfs, expanded, path, depth + 1)
        } else {
            Seq::empty()
        };
        seq![(path, name, depth, dir, open)] + below + rows_of_children(vfs, expanded, parent, kids.drop_first(), depth)
    }
}

/// Appends the rows for the contents of folder `parent` at level `depth`.
fn push_children(
    vfs: &Vfs,
    parent: &str,
    depth: usize,
    expanded: &PathSet,
    rows: &mut Vec<TreeRow>,
    bound: usize,
)
    requires
        bound == vfs.depth_bound(),
        depth <= parent@.len() <= bound,
    ensures
        rows_view(final(rows)@) == rows_view(old(rows)@) + rows_under(*vfs, expanded@, parent@, depth as nat),
    decreases bound - parent@.len(),
{
    let kids = vfs.children(parent);
    let ghost all = child_list(*vfs, parent@);
    proof {
        sorted_lists_with_same_texts_are_equal(all, names_of(kids@));
    }
    let ghost start = rows_view(rows@);
    let mut i: usize = 0;
    assert(names_of(kids@).skip(0) =~= names_of(kids@));
    while i < kids.len()
        invariant
            i <= kids@.len(),
            bound == vfs.depth_bound(),
            depth <= parent@.len() <= bound,
            all == names_of(kids@),
            forall|x: int| 0 <= x < kids@.len() ==> (#[trigger] kids@[x]).1 == vfs.is_folder(join_of(parent@, kids@[x].0@)),
            start + rows_of_children(*vfs, expanded@, parent@, all, depth as nat) == rows_view(rows@)
                + rows_of_children(*vfs, expanded@, parent@, all.skip(i as int), depth as nat),
        decreases kids.len() - i,
    {
        let ghost rest = all.skip(i as int);
        assert(rest[0] == kids@[i as int].0@);
        assert(rest.drop_first() =~= all.skip(i + 1));
        let path = join_path(parent, kids[i].0.as_str());
        let is_dir = kids[i].1;
        let open = is_dir && expanded.contains(path.as_str());
        let len = path.unicode_len();
        let ghost before = rows_view(rows@);
        rows.push(TreeRow { path: path.clone(), name: kids[i].0.clone(), depth, is_dir, expanded: open });
        let ghost row = (path@, kids@[i as int].0@, depth as nat, is_dir, open);
        assert(rows_view(rows@) =~= before.push(row));
        if open && parent.unicode_len() < len && len <= bound {
            let ghost mid = rows_view(rows@);
            push_children(vfs, path.as_str(), depth + 1, expanded, rows, bound);
            assert(before + rows_of_children(*vfs, expanded@, parent@, rest, depth as nat) =~= rows_view(rows@)
                + rows_of_children(*vfs, expanded@, parent@, all.skip(i + 1), depth as nat));
        } else {
            assert(before + rows_of_children(*vfs, expanded@, parent@, rest, depth as nat) =~= rows_view(rows@)
                + rows_of_children(*vfs, expanded@, parent@, all.skip(i + 1), depth as nat));
        }
        i = i + 1;
    }
    assert(all.skip(i as int) =~= Seq::<Seq<char>>::empty());
    assert(rows_view(rows@) + Seq::<RowView>::empty() =~= rows_view(rows@));
}

/// The explorer's rows for `vfs` with the folders of `expanded` open.
pub fn flatten_tree(vfs: &Vfs, expanded: &PathSet) -> (r: Vec<TreeRow>)
    ensures
        rows_view(r@) == rows_under(*vfs, expanded@, Seq::empty(), 0),
{
    let bound = vfs.depth_bound_exec();
    let mut rows: Vec<TreeRow> = Vec::new();
    let root = "";
    proof {
        reveal_strlit("");
    }
    assert(root@ =~= Seq::<char>::empty());
    push_children(vfs, root, 0, expanded, &mut rows, bound);
    assert(rows_view(Seq::<TreeRow>::empty()) =~= Seq::<RowView>::empty());
    assert(Seq::<RowView>::empty() + rows_under(*vfs, expanded@, Seq::empty(), 0) =~= rows_under(
        *vfs,
        expanded@,
        Seq::empty(),
        0,
    ));
    rows
}

/// A row shows an existing entry under the entry's own name: the last
/// component of its path, non-empty and free of `/`.
pub open spec fn row_named_by_path(vfs: Vfs, row: RowView) -> bool {
    &&& row.1.len() > 0
    &&& !row.1.contains('/')
    &&& row.1 == file_name_of(row.0)
    &&& vfs.exists_at(row.0)
}

proof fn lemma_children_rows_named(
    vfs: Vfs,
    expanded: Set<Seq<char>>,
    parent: Seq<char>,
    kids: Seq<Seq<char>>,
    depth: nat,
)
    requires
        forall|n: Seq<char>| #[trigger] kids.contains(n) ==> is_child_name(vfs, parent, n),
    ensures
        forall|i: int| 0 <= i < rows_of_children(vfs, expanded, parent, kids, depth).len()
            ==> row_named_by_path(vfs, #[trigger] rows_of_children(vfs, expanded, parent, kids, depth)[i]),
    decreases vfs.depth_bound() - parent.len(), 0int, kids.len(),
{
    if kids.len() > 0 {
        let name = kids[0];
        let path = join_of(parent, name);
        let dir = vfs.is_folder(path);
        let open = dir && expanded.contains(path);
        let below = if open && parent.len() < path.len() <= vfs.depth_bound() {
            rows_under(vfs, expanded, path, depth + 1)
        } else {
            Seq::empty()
        };
        assert(kids.contains(name));
        assert forall|j: int| 0 <= j < name.len() implies name[j] != '/' by {
            if name[j] == '/' {
                assert(name.contains(name[j]));
            }
        }
        parent_of_join(parent, name);
        let tail = kids.drop_first();
        assert forall|n: Seq<char>| #[trigger] tail.contains(n) implies is_child_name(vfs, parent, n) by {
            let k = choose|k: int| 0 <= k < tail.len() && tail[k] == n;
            assert(kids[k + 1] == n);
            assert(kids.contains(n));
        }
        lemma_children_rows_named(vfs, expanded, parent, tail, depth);
        if open && parent.len() < path.len() <= vfs.depth_bound() {
            lemma_rows_named(vfs, expanded, path, depth + 1);
        }
        let first = seq![(path, name, depth, dir, open)];
        let rest = rows_of_children(vfs, expanded, parent, tail, depth);
        let all = rows_of_children(vfs, expanded, parent, kids, depth);
        assert(all == first + below + rest);
        assert forall|i: int| 0 <= i < all.len() implies row_named_by_path(vfs, #[trigger] all[i]) by {
            if i == 0 {
                assert(all[i] == (path, name, depth, dir, open));
            } else if i < 1 + below.len() {
                assert(all[i] == below[i - 1]);
            } else {
                assert(all[i] == rest[i - 1 - below.len()]);
            }
        }
    }
}

proof fn lemma_rows_named(vfs: Vfs, expanded: Set<Seq<char>>, parent: Seq<char>, depth: nat)
    ensures
        forall|i: int| 0 <= i < rows_under(vfs, expanded, parent, depth).len()
            ==> row_named_by_path(vfs, #[trigger] rows_under(vfs, expanded, parent, depth)[i]),
    decreases vfs.depth_bound() - parent.len(), 1int, 0int,
{
    vfs.lemma_child_list_exists(parent);
    let kids = child_list(vfs, parent);
    assert(forall|n: Seq<char>| #[trigger] kids.contains(n) <==> is_child_name(vfs, parent, n));
    lemma_children_rows_named(vfs, expanded, parent, kids, depth);
    assert(rows_under(vfs, expanded, parent, depth) == rows_of_children(vfs, expanded, parent, kids, depth));
}

/// Every explorer row names an existing entry by the last component of its
/// path (the child's own name, never the joined path).
pub proof fn explorer_rows_show_entry_names(vfs: Vfs, expanded: Set<Seq<char>>)
    ensures
        forall|i: int| 0 <= i < rows_under(vfs, expanded, Seq::empty(), 0).len() ==> {
            let row = #[trigger] rows_under(vfs, expanded, Seq::empty(), 0)[i];
            &&& row.1 == file_name_of(row.0)
            &&& row.1.len() > 0
            &&& !row.1.contains('/')
            &&& vfs.exists_at(row.0)
        },
{
    lemma_rows_named(vfs, expanded, Seq::empty(), 0);
}

} // verus!
