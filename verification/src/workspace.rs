//! The editor's workspace state and the transitions the UI asks for.
//!
//! The state holds the file store, the explorer selection, the open tabs of
//! one or two panes, the expanded folders, the copy plan, the status line and
//! the busy flag. Every transition keeps the panes well formed: an active tab
//! is one of its pane's tabs; while split, the left pane holds only edit tabs
//! and the right pane only preview tabs; while not split, the right pane is
//! empty.
use vstd::prelude::*;
use vstd::string::*;

use crate::pathset::PathSet;
use crate::paths::{ancestry, at_or_below_chars, is_at_or_below, parent_of, parent_path, rewrite_of, rewrite_prefix, lemma_parent_shorter};
use crate::text::chars_of;
use crate::split::{
    after_merge_of, after_split_of, auto_preview_of, close_of, of_kind, opt_view, push_unique,
    merge_of, tabs_view, OpenTab, TabKind, TabView, lemma_of_kind, lemma_merge, lemma_without,
    lemma_first_index, active_after_merge, active_after_split, close_tab_in, merge_split_tabs,
    partition_tabs, push_tab_unique, should_auto_open_preview, duplicate_opt,
};
use crate::vfs::{copied_file, copied_mark, first_missing, renamed_file, renamed_mark, renamed_path, Vfs};
use crate::copy_plan::{apply_copy_command, copy_command_of, top_level_paths, has_selected_ancestor};
use crate::help::{help_file_path, help_path, install_user_help, needs_install, needs_install_of, looks_like_html_of, should_open_preview};
use crate::template::{decimal, push_decimal, InstalledGame};
use crate::paths::join_of;
use crate::order::{sorted_lists_with_same_texts_are_equal, strictly_sorted};
use crate::text::{push_all, string_of, texts_of};

verus! {

/// The tab panes as plain values.
pub struct Panes {
    /// Left (or only) pane, left to right.
    pub tabs: Seq<TabView>,
    /// Active tab of the left pane.
    pub active: Option<TabView>,
    /// Right pane (preview tabs while split).
    pub preview: Seq<TabView>,
    /// Active tab of the right pane.
    pub active_preview: Option<TabView>,
    /// Whether the editor is split.
    pub split: bool,
}

/// An active tab, when there is one, belongs to its pane.
pub open spec fn pane_ok(tabs: Seq<TabView>, active: Option<TabView>) -> bool {
    match active {
        Some(t) => tabs.contains(t),
        None => true,
    }
}

/// Every tab of `tabs` has kind `k`.
pub open spec fn all_kind(tabs: Seq<TabView>, k: TabKind) -> bool {
    forall|i: int| 0 <= i < tabs.len() ==> (#[trigger] tabs[i]).1 == k
}

/// The panes are well formed.
pub open spec fn panes_ok(p: Panes) -> bool {
    &&& pane_ok(p.tabs, p.active)
    &&& pane_ok(p.preview, p.active_preview)
    &&& p.split ==> all_kind(p.tabs, TabKind::Edit) && all_kind(p.preview, TabKind::Preview)
    &&& !p.split ==> p.preview.len() == 0
}

/// Panes after opening (or focusing) `tab`. While split, a preview tab goes
/// to the right pane; an edit tab of a previewable file also opens its
/// preview on the right when that preview is not there yet.
pub open spec fn open_of(p: Panes, tab: TabView) -> Panes {
    if p.split && tab.1 == TabKind::Preview {
        Panes {
            tabs: p.tabs,
            active: p.active,
            preview: push_unique(p.preview, tab),
            active_preview: Some(tab),
            split: p.split,
        }
    } else if p.split && tab.1 == TabKind::Edit && auto_preview_of(tab.0, p.preview) {
        let shown = (tab.0, TabKind::Preview);
        Panes {
            tabs: push_unique(p.tabs, tab),
            active: Some(tab),
            preview: push_unique(p.preview, shown),
            active_preview: Some(shown),
            split: p.split,
        }
    } else {
        Panes {
            tabs: push_unique(p.tabs, tab),
            active: Some(tab),
            preview: p.preview,
            active_preview: p.active_preview,
            split: p.split,
        }
    }
}

/// `tab` belongs to the right pane: the editor is split and it is a preview.
pub open spec fn in_right_pane(p: Panes, tab: TabView) -> bool {
    p.split && tab.1 == TabKind::Preview
}

/// Panes after making `tab` active in its pane.
pub open spec fn activate_of(p: Panes, tab: TabView) -> Panes {
    if in_right_pane(p, tab) {
        Panes { tabs: p.tabs, active: p.active, preview: p.preview, active_preview: Some(tab), split: p.split }
    } else {
        Panes { tabs: p.tabs, active: Some(tab), preview: p.preview, active_preview: p.active_preview, split: p.split }
    }
}

/// Panes after closing `tab` in its pane (see `close_of`).
pub open spec fn close_panes_of(p: Panes, tab: TabView) -> Panes {
    if in_right_pane(p, tab) {
        let c = close_of(p.preview, p.active_preview, tab);
        Panes { tabs: p.tabs, active: p.active, preview: c.0, active_preview: c.1, split: p.split }
    } else {
        let c = close_of(p.tabs, p.active, tab);
        Panes { tabs: c.0, active: c.1, preview: p.preview, active_preview: p.active_preview, split: p.split }
    }
}

/// Whether closing `tab` closes the active tab of its pane.
pub open spec fn closes_active(p: Panes, tab: TabView) -> bool {
    if in_right_pane(p, tab) {
        p.active_preview == Some(tab)
    } else {
        p.active == Some(tab)
    }
}

/// Panes after the split toggle: splitting sends edit tabs left and preview
/// tabs right, each pane keeping the previous active tab when it is there;
/// merging puts the right pane after the left one, without repeats.
pub open spec fn toggle_of(p: Panes) -> Panes {
    if p.split {
        let merged = merge_of(p.tabs, p.preview);
        Panes {
            tabs: merged,
            active: after_merge_of(p.active, merged),
            preview: Seq::empty(),
            active_preview: None,
            split: false,
        }
    } else {
        let edit = of_kind(p.tabs, TabKind::Edit);
        let preview = of_kind(p.tabs, TabKind::Preview);
        let act = after_split_of(p.active, edit, preview);
        Panes { tabs: edit, active: act.0, preview: preview, active_preview: act.1, split: true }
    }
}


proof fn lemma_push_unique(s: Seq<TabView>, t: TabView)
    ensures
        forall|u: TabView| #[trigger] push_unique(s, t).contains(u) <==> (s.contains(u) || u == t),
        forall|k: TabKind| all_kind(s, k) && t.1 == k ==> all_kind(push_unique(s, t), k),
{
    broadcast use vstd::seq_lib::lemma_seq_contains_after_push;
    assert forall|k: TabKind| all_kind(s, k) && t.1 == k implies all_kind(push_unique(s, t), k) by {
        if !s.contains(t) {
            assert forall|i: int| 0 <= i < s.push(t).len() implies (#[trigger] s.push(t)[i]).1 == k by {
                if i < s.len() {
                    assert(s.push(t)[i] == s[i]);
                }
            }
        }
    }
}

/// Closing a tab keeps its pane well formed and of one kind.
proof fn lemma_close_ok(tabs: Seq<TabView>, active: Option<TabView>, tab: TabView)
    requires
        pane_ok(tabs, active),
    ensures
        pane_ok(close_of(tabs, active, tab).0, close_of(tabs, active, tab).1),
        forall|k: TabKind| all_kind(tabs, k) ==> all_kind(#[trigger] close_of(tabs, active, tab).0, k),
{
    lemma_without(tabs, tab);
    let r = crate::split::without(tabs, tab);
    assert(r == close_of(tabs, active, tab).0);
    if active == Some(tab) {
        lemma_first_index(tabs, tab);
        match close_of(tabs, active, tab).1 {
            Some(n) => {
                let i = first_index_of(tabs, tab);
                if 0 <= i < r.len() && n == r[i] {
                    assert(r.contains(r[i]));
                } else {
                    assert(r.contains(r[r.len() - 1]));
                }
            },
            None => {},
        }
    }
    assert forall|k: TabKind| all_kind(tabs, k) implies all_kind(#[trigger] close_of(tabs, active, tab).0, k) by {
        assert forall|i: int| 0 <= i < r.len() implies (#[trigger] r[i]).1 == k by {
            assert(r.contains(r[i]));
            assert(tabs.contains(r[i]));
            let j = choose|j: int| 0 <= j < tabs.len() && tabs[j] == r[i];
            assert(tabs[j].1 == k);
        }
    }
}

/// The position `close_of` looks at.
spec fn first_index_of(tabs: Seq<TabView>, tab: TabView) -> int {
    match crate::split::first_index(tabs, tab) {
        Some(i) => i,
        None => -1,
    }
}

/// Splitting or merging keeps the panes well formed.
proof fn lemma_toggle_ok(p: Panes)
    requires
        panes_ok(p),
    ensures
        panes_ok(toggle_of(p)),
{
    if p.split {
        let merged = merge_of(p.tabs, p.preview);
        lemma_merge(p.tabs, p.preview);
        match after_merge_of(p.active, merged) {
            Some(t) => {
                if !(p.active == Some(t) && merged.contains(t)) {
                    assert(merged.contains(merged[0]));
                }
            },
            None => {},
        }
    } else {
        let edit = of_kind(p.tabs, TabKind::Edit);
        let preview = of_kind(p.tabs, TabKind::Preview);
        lemma_of_kind(p.tabs, TabKind::Edit);
        lemma_of_kind(p.tabs, TabKind::Preview);
        assert forall|i: int| 0 <= i < edit.len() implies (#[trigger] edit[i]).1 == TabKind::Edit by {
            assert(edit.contains(edit[i]));
        }
        assert forall|i: int| 0 <= i < preview.len() implies (#[trigger] preview[i]).1 == TabKind::Preview by {
            assert(preview.contains(preview[i]));
        }
        if edit.len() > 0 {
            assert(edit.contains(edit[0]));
        }
        if preview.len() > 0 {
            assert(preview.contains(preview[0]));
        }
    }
}

/// Tabs with their paths rewritten after a rename of `from` to `to`.
pub open spec fn rewrite_tabs(tabs: Seq<TabView>, from: Seq<char>, to: Seq<char>) -> Seq<TabView> {
    tabs.map_values(|t: TabView| (rewrite_of(t.0, from, to), t.1))
}

/// An optional tab with its path rewritten.
pub open spec fn rewrite_opt(t: Option<TabView>, from: Seq<char>, to: Seq<char>) -> Option<TabView> {
    match t {
        Some(t) => Some((rewrite_of(t.0, from, to), t.1)),
        None => None,
    }
}

/// Closing the tabs at or below a deleted entry keeps a pane well formed and
/// of one kind.
proof fn lemma_forget_ok(tabs: Seq<TabView>, active: Option<TabView>, deleted: Seq<char>)
    requires
        pane_ok(tabs, active),
    ensures
        pane_ok(crate::split::forget_of(tabs, active, deleted).0, crate::split::forget_of(tabs, active, deleted).1),
        forall|k: TabKind| all_kind(tabs, k) ==> all_kind(#[trigger] crate::split::forget_of(tabs, active, deleted).0, k),
{
    crate::split::lemma_not_below(tabs, deleted);
    let r = crate::split::not_below(tabs, deleted);
    assert(r == crate::split::forget_of(tabs, active, deleted).0);
    match active {
        Some(t) => {
            if is_at_or_below(t.0, deleted) {
                lemma_first_index(tabs, t);
                match crate::split::first_index(tabs, t) {
                    Some(i) => {
                        if r.len() > 0 {
                            if i < r.len() {
                                assert(r.contains(r[i]));
                            } else {
                                assert(r.contains(r[r.len() - 1]));
                            }
                        }
                    },
                    None => {},
                }
            }
        },
        None => {},
    }
    assert forall|k: TabKind| all_kind(tabs, k) implies all_kind(#[trigger] crate::split::forget_of(tabs, active, deleted).0, k) by {
        assert forall|i: int| 0 <= i < r.len() implies (#[trigger] r[i]).1 == k by {
            assert(r.contains(r[i]));
            assert(tabs.contains(r[i]));
            let j = choose|j: int| 0 <= j < tabs.len() && tabs[j] == r[i];
            assert(tabs[j].1 == k);
        }
    }
}

/// Renaming keeps a pane well formed and of one kind.
proof fn lemma_rewrite_ok(tabs: Seq<TabView>, active: Option<TabView>, from: Seq<char>, to: Seq<char>)
    requires
        pane_ok(tabs, active),
    ensures
        pane_ok(rewrite_tabs(tabs, from, to), rewrite_opt(active, from, to)),
        forall|k: TabKind| all_kind(tabs, k) ==> all_kind(#[trigger] rewrite_tabs(tabs, from, to), k),
{
    let r = rewrite_tabs(tabs, from, to);
    if active is Some {
        let i = choose|i: int| 0 <= i < tabs.len() && tabs[i] == active->0;
        assert(r[i] == rewrite_opt(active, from, to)->0);
    }
}

/// The text of an optional string.
pub open spec fn str_opt(s: Option<String>) -> Option<Seq<char>> {
    match s {
        Some(s) => Some(s@),
        None => None,
    }
}

/// The path of an optional tab.
pub open spec fn tab_path(t: Option<TabView>) -> Option<Seq<char>> {
    match t {
        Some(t) => Some(t.0),
        None => None,
    }
}

/// The set holding just `path`, or nothing.
pub open spec fn single_or_empty(path: Option<Seq<char>>) -> Set<Seq<char>> {
    match path {
        Some(p) => set![p],
        None => Set::empty(),
    }
}

/// Tabs restored with a session: the selected path, when it is a file,
/// opens in an edit tab that is active.
pub open spec fn initial_tabs_of(vfs: Vfs, selected: Option<Seq<char>>) -> (Seq<TabView>, Option<TabView>) {
    match selected {
        Some(p) if vfs.file(p) is Some => (seq![(p, TabKind::Edit)], Some((p, TabKind::Edit))),
        _ => (Seq::empty(), None),
    }
}

/// What the caller still has to do for an explorer command.
pub enum EntryRequest {
    /// Nothing more: the workspace handled the command.
    Done,
    /// Ask for a new name, then rename the entry.
    Rename,
    /// Pick files on disk and copy them into the folder.
    LoadFiles,
}

/// How a request to load files from disk into a folder begins.
#[derive(Debug)]
pub enum LoadStart {
    /// A long action is already running; nothing changed.
    Busy,
    /// The target is not a folder: the warning to show. Nothing changed.
    NotAFolder(String),
    /// The workspace is now busy and waits for the files to be picked.
    Started,
}

/// The planned paths that have no planned folder above them, in name order.
pub open spec fn paste_list(planned: Set<Seq<char>>) -> Seq<Seq<char>> {
    choose|s: Seq<Seq<char>>|
        strictly_sorted(s) && forall|p: Seq<char>| #[trigger] s.contains(p) <==> (planned.contains(p)
            && !has_selected_ancestor(p, planned))
}

/// `Deleted {path}`.
pub open spec fn deleted_message(path: Seq<char>) -> Seq<char> {
    "Deleted "@ + path
}

/// `Unknown command {id}`.
pub open spec fn unknown_message(id: Seq<char>) -> Seq<char> {
    "Unknown command "@ + id
}

/// `Pasted {n} item(s) into {dest}`.
pub open spec fn pasted_message(n: nat, dest: Seq<char>) -> Seq<char> {
    "Pasted "@ + decimal(n) + " item(s) into "@ + dest
}

/// `Added {path} from {source}`.
pub open spec fn added_message(path: Seq<char>, source: Seq<char>) -> Seq<char> {
    "Added "@ + path + " from "@ + source
}

/// `Loaded {n} file(s) into {folder}`.
pub open spec fn loaded_files_message(n: nat, folder: Seq<char>) -> Seq<char> {
    "Loaded "@ + decimal(n) + " file(s) into "@ + folder
}

/// `Prepared {what} for {n} decks`.
pub open spec fn prepared_message(what: Seq<char>, n: nat) -> Seq<char> {
    "Prepared "@ + what + " for "@ + decimal(n) + " decks"@
}

/// `games/{folder}`.
pub open spec fn game_path(folder: Seq<char>) -> Seq<char> {
    "games/"@ + folder
}

/// The selection after the entry `path` went away, given the left pane's
/// new active tab: that tab's path when there is one; otherwise the old
/// selection, unless it was at or below `path`.
pub open spec fn selection_after_forget(before: Workspace, after: Workspace, path: Seq<char>) -> bool {
    match after.panes().active {
        Some(t) => str_opt(after.selected) == Some(t.0) && after.multi_selected@ == set![t.0],
        None => after.multi_selected@ == before.multi_selected@ && str_opt(after.selected) == match str_opt(
            before.selected,
        ) {
            Some(s) => if is_at_or_below(s, path) {
                None
            } else {
                Some(s)
            },
            None => None,
        },
    }
}

/// What deleting the entry at `path` does: when it exists, it goes with
/// everything below it, its tabs close in both panes (see `forget_of`), the
/// expanded folders at or below it are dropped, the selection moves (see
/// `selection_after_forget`) and the status says `Deleted {path}`; otherwise
/// only the status changes, to `nothing at {path}`.
pub open spec fn delete_effect(before: Workspace, after: Workspace, path: Seq<char>) -> bool {
    if before.vfs.exists_at(path) {
        let f = crate::split::forget_of(before.panes().tabs, before.panes().active, path);
        let g = crate::split::forget_of(before.panes().preview, before.panes().active_preview, path);
        &&& forall|p: Seq<char>| #[trigger] after.vfs.file(p) == if is_at_or_below(p, path) {
            None
        } else {
            before.vfs.file(p)
        }
        &&& forall|p: Seq<char>| #[trigger] after.vfs.marked(p) == (before.vfs.marked(p) && !is_at_or_below(p, path))
        &&& after.panes() == (Panes { tabs: f.0, active: f.1, preview: g.0, active_preview: g.1, split: before.split_preview })
        &&& after.expanded@ == before.expanded@.filter(|p: Seq<char>| !is_at_or_below(p, path))
        &&& selection_after_forget(before, after, path)
        &&& after.status@ == deleted_message(path)
    } else {
        &&& after.vfs == before.vfs
        &&& after.panes() == before.panes()
        &&& str_opt(after.selected) == str_opt(before.selected)
        &&& after.multi_selected@ == before.multi_selected@
        &&& after.expanded@ == before.expanded@
        &&& after.status@ == "nothing at "@ + path
    }
}

/// What the `copy` command on `path` does: the copy plan changes (see
/// `copy_command_of`), the status is cleared, nothing else changes.
pub open spec fn copy_effect(before: Workspace, after: Workspace, path: Seq<char>) -> bool {
    &&& after.copy_planned@ == copy_command_of(path, before.multi_selected@, before.copy_planned@)
    &&& after.status@ == Seq::<char>::empty()
    &&& after.panes() == before.panes()
    &&& str_opt(after.selected) == str_opt(before.selected)
    &&& after.multi_selected@ == before.multi_selected@
    &&& after.vfs == before.vfs
    &&& after.expanded@ == before.expanded@
}

/// What opening `tab` does: the panes change (see `open_of`), nothing else.
pub open spec fn open_effect(before: Workspace, after: Workspace, tab: TabView) -> bool {
    &&& after.panes() == open_of(before.panes(), tab)
    &&& str_opt(after.selected) == str_opt(before.selected)
    &&& after.multi_selected@ == before.multi_selected@
    &&& after.vfs == before.vfs
    &&& after.expanded@ == before.expanded@
    &&& after.copy_planned@ == before.copy_planned@
    &&& after.status@ == before.status@
}

/// What pasting the copy plan into `dest` does (see `Workspace::paste_into`).
pub open spec fn paste_effect(before: Workspace, after: Workspace, dest: Seq<char>) -> bool {
    &&& before.copy_planned@.len() == 0 ==> after.status@ == "Nothing to paste"@ && after.vfs == before.vfs
        && after.copy_planned@ == before.copy_planned@ && after.expanded@ == before.expanded@
    &&& before.copy_planned@.len() != 0 ==> ({
        let list = paste_list(before.copy_planned@);
        let ok = dest.len() > 0 && before.vfs.is_folder(dest) && forall|i: int|
            0 <= i < list.len() ==> before.vfs.exists_at(#[trigger] list[i]);
        if ok {
            &&& forall|q: Seq<char>| #[trigger] after.vfs.file(q) == copied_file(before.vfs, list, dest, q)
            &&& forall|q: Seq<char>| #[trigger] after.vfs.marked(q) == copied_mark(before.vfs, list, dest, q)
            &&& after.copy_planned@ == Set::<Seq<char>>::empty()
            &&& after.expanded@ == before.expanded@.union(ancestry(dest))
            &&& after.status@ == pasted_message(list.len(), dest)
        } else {
            &&& after.vfs == before.vfs
            &&& after.copy_planned@ == before.copy_planned@
            &&& after.expanded@ == before.expanded@
            &&& !(dest.len() > 0 && before.vfs.is_folder(dest)) ==> after.status@ == "'"@ + dest + "' is not a folder"@
            &&& (dest.len() > 0 && before.vfs.is_folder(dest)) ==> exists|i: int| #[trigger] first_missing(before.vfs, list, i)
                && after.status@ == "nothing at "@ + list[i]
        }
    })
    &&& after.panes() == before.panes()
    &&& str_opt(after.selected) == str_opt(before.selected)
    &&& after.multi_selected@ == before.multi_selected@
}

/// The editor's state.
pub struct Workspace {
    /// The file store.
    pub vfs: Vfs,
    /// Explorer selection (file or folder path).
    pub selected: Option<String>,
    /// Paths selected together (for copy).
    pub multi_selected: PathSet,
    /// Left (or only) pane tabs, left to right.
    pub tabs: Vec<OpenTab>,
    /// Focused tab of the left pane.
    pub active_tab: Option<OpenTab>,
    /// Right pane tabs while split.
    pub preview_tabs: Vec<OpenTab>,
    /// Focused tab of the right pane.
    pub active_preview_tab: Option<OpenTab>,
    /// Whether the editor shows two panes.
    pub split_preview: bool,
    /// Folders expanded in the explorer.
    pub expanded: PathSet,
    /// Paths marked for the next paste.
    pub copy_planned: PathSet,
    /// Footer status line.
    pub status: String,
    /// Whether a long action is running.
    pub loading: bool,
    /// Text typed into the editor of a file and not stored yet.
    pub draft: Option<(String, String)>,
}

impl Workspace {
    /// The panes as plain values.
    pub open spec fn panes(&self) -> Panes {
        Panes {
            tabs: tabs_view(self.tabs@),
            active: opt_view(self.active_tab),
            preview: tabs_view(self.preview_tabs@),
            active_preview: opt_view(self.active_preview_tab),
            split: self.split_preview,
        }
    }

    /// The state is well formed.
    pub open spec fn wf(&self) -> bool {
        panes_ok(self.panes())
    }

    /// Makes `path` the primary selection: the selected path and the whole
    /// multi-selection.
    fn set_primary_selection(&mut self, path: Option<String>)
        ensures
            final(self).draft == old(self).draft,
            str_opt(final(self).selected) == str_opt(path),
            final(self).multi_selected@ == single_or_empty(str_opt(path)),
            final(self).panes() == old(self).panes(),
            final(self).vfs == old(self).vfs,
            final(self).expanded@ == old(self).expanded@,
            final(self).copy_planned@ == old(self).copy_planned@,
            final(self).status@ == old(self).status@,
            final(self).loading == old(self).loading,
    {
        let mut multi = PathSet::new();
        match &path {
            Some(p) => {
                multi.insert(p.clone());
                assert(multi@ =~= set![p@]);
            },
            None => {},
        }
        self.multi_selected = multi;
        self.selected = path;
    }

    /// Focuses `tab`, opening it first when it is not open (see `open_of`).
    pub fn open_tab(&mut self, tab: OpenTab)
        ensures
            final(self).draft == old(self).draft,
            final(self).panes() == open_of(old(self).panes(), tab@),
            old(self).wf() ==> final(self).wf(),
            str_opt(final(self).selected) == str_opt(old(self).selected),
            final(self).multi_selected@ == old(self).multi_selected@,
            final(self).vfs == old(self).vfs,
            final(self).expanded@ == old(self).expanded@,
            final(self).copy_planned@ == old(self).copy_planned@,
            final(self).status@ == old(self).status@,
            final(self).loading == old(self).loading,
    {
        let ghost p = self.panes();
        if self.split_preview && tab.kind == TabKind::Preview {
            let shown = tab.duplicate();
            push_tab_unique(&mut self.preview_tabs, tab);
            self.active_preview_tab = Some(shown);
        } else {
            let auto = self.split_preview && tab.kind == TabKind::Edit
                && should_auto_open_preview(tab.path.as_str(), self.preview_tabs.as_slice());
            let preview = OpenTab { path: tab.path.clone(), kind: TabKind::Preview };
            let focus = tab.duplicate();
            push_tab_unique(&mut self.tabs, tab);
            self.active_tab = Some(focus);
            if auto {
                let shown = preview.duplicate();
                push_tab_unique(&mut self.preview_tabs, preview);
                self.active_preview_tab = Some(shown);
            }
        }
        proof {
            let q = self.panes();
            assert(q == open_of(p, tab@));
            if panes_ok(p) {
                let t = tab@;
                assert(push_unique(p.tabs, t).contains(t)) by {
                    if !p.tabs.contains(t) {
                        assert(p.tabs.push(t)[p.tabs.len() as int] == t);
                    }
                }
                assert(push_unique(p.preview, t).contains(t)) by {
                    if !p.preview.contains(t) {
                        assert(p.preview.push(t)[p.preview.len() as int] == t);
                    }
                }
                let shown = (t.0, TabKind::Preview);
                assert(push_unique(p.preview, shown).contains(shown)) by {
                    if !p.preview.contains(shown) {
                        assert(p.preview.push(shown)[p.preview.len() as int] == shown);
                    }
                }
                if p.active is Some {
                    assert(push_unique(p.tabs, t).contains(p.active->0)) by {
                        if !p.tabs.contains(t) {
                            let i = choose|i: int| 0 <= i < p.tabs.len() && p.tabs[i] == p.active->0;
                            assert(p.tabs.push(t)[i] == p.active->0);
                        }
                    }
                }
                if p.active_preview is Some {
                    assert(push_unique(p.preview, shown).contains(p.active_preview->0)) by {
                        if !p.preview.contains(shown) {
                            let i = choose|i: int| 0 <= i < p.preview.len() && p.preview[i] == p.active_preview->0;
                            assert(p.preview.push(shown)[i] == p.active_preview->0);
                        }
                    }
                }
                if p.split {
                    assert(t.1 == TabKind::Edit ==> all_kind(push_unique(p.tabs, t), TabKind::Edit)) by {
                        if t.1 == TabKind::Edit && !p.tabs.contains(t) {
                            assert forall|i: int| 0 <= i < p.tabs.push(t).len() implies (#[trigger] p.tabs.push(t)[i]).1 == TabKind::Edit by {
                                if i < p.tabs.len() {
                                    assert(p.tabs.push(t)[i] == p.tabs[i]);
                                }
                            }
                        }
                    }
                    assert(all_kind(push_unique(p.preview, shown), TabKind::Preview)) by {
                        if !p.preview.contains(shown) {
                            assert forall|i: int| 0 <= i < p.preview.push(shown).len() implies (#[trigger] p.preview.push(shown)[i]).1 == TabKind::Preview by {
                                if i < p.preview.len() {
                                    assert(p.preview.push(shown)[i] == p.preview[i]);
                                }
                            }
                        }
                    }
                    assert(t.1 == TabKind::Preview ==> all_kind(push_unique(p.preview, t), TabKind::Preview)) by {
                        if t.1 == TabKind::Preview && !p.preview.contains(t) {
                            assert forall|i: int| 0 <= i < p.preview.push(t).len() implies (#[trigger] p.preview.push(t)[i]).1 == TabKind::Preview by {
                                if i < p.preview.len() {
                                    assert(p.preview.push(t)[i] == p.preview[i]);
                                }
                            }
                        }
                    }
                }
            }
        }
    }

    /// Makes `tab` the active tab of its pane and selects its path.
    pub fn activate_tab(&mut self, tab: OpenTab)
        ensures
            final(self).draft == old(self).draft,
            final(self).panes() == activate_of(old(self).panes(), tab@),
            old(self).wf() && (if in_right_pane(old(self).panes(), tab@) {
                old(self).panes().preview.contains(tab@)
            } else {
                old(self).panes().tabs.contains(tab@)
            }) ==> final(self).wf(),
            str_opt(final(self).selected) == Some(tab@.0),
            final(self).multi_selected@ == set![tab@.0],
            final(self).vfs == old(self).vfs,
            final(self).expanded@ == old(self).expanded@,
            final(self).copy_planned@ == old(self).copy_planned@,
            final(self).status@ == old(self).status@,
            final(self).loading == old(self).loading,
    {
        let path = tab.path.clone();
        if self.split_preview && tab.kind == TabKind::Preview {
            self.active_preview_tab = Some(tab);
        } else {
            self.active_tab = Some(tab);
        }
        self.set_primary_selection(Some(path));
    }

    /// Closes `tab` in its pane; when it was the pane's active tab, the tab
    /// that takes its place (else the last one) becomes active and selected.
    pub fn close_tab(&mut self, tab: OpenTab)
        ensures
            final(self).draft == old(self).draft,
            final(self).panes() == close_panes_of(old(self).panes(), tab@),
            old(self).wf() ==> final(self).wf(),
            closes_active(old(self).panes(), tab@) ==> {
                let now = if in_right_pane(old(self).panes(), tab@) {
                    final(self).panes().active_preview
                } else {
                    final(self).panes().active
                };
                &&& str_opt(final(self).selected) == tab_path(now)
                &&& final(self).multi_selected@ == single_or_empty(tab_path(now))
            },
            !closes_active(old(self).panes(), tab@) ==> str_opt(final(self).selected) == str_opt(old(self).selected)
                && final(self).multi_selected@ == old(self).multi_selected@,
            final(self).vfs == old(self).vfs,
            final(self).expanded@ == old(self).expanded@,
            final(self).copy_planned@ == old(self).copy_planned@,
            final(self).status@ == old(self).status@,
            final(self).loading == old(self).loading,
    {
        let ghost p = self.panes();
        let right = self.split_preview && tab.kind == TabKind::Preview;
        let (tabs, active, was_active) = if right {
            close_tab_in(crate::split::duplicate_tabs(&self.preview_tabs), duplicate_opt(&self.active_preview_tab), &tab)
        } else {
            close_tab_in(crate::split::duplicate_tabs(&self.tabs), duplicate_opt(&self.active_tab), &tab)
        };
        let path = match &active {
            Some(t) => Some(t.path.clone()),
            None => None,
        };
        if right {
            self.preview_tabs = tabs;
            self.active_preview_tab = active;
        } else {
            self.tabs = tabs;
            self.active_tab = active;
        }
        if was_active {
            self.set_primary_selection(path);
        }
        proof {
            if panes_ok(p) {
                lemma_close_ok(p.tabs, p.active, tab@);
                lemma_close_ok(p.preview, p.active_preview, tab@);
            }
        }
    }

    /// Turns the two-pane editor on or off (see `toggle_of`); after merging,
    /// the active tab's path is selected.
    pub fn toggle_split_preview(&mut self)
        ensures
            final(self).draft == old(self).draft,
            final(self).panes() == toggle_of(old(self).panes()),
            old(self).wf() ==> final(self).wf(),
            (old(self).split_preview && final(self).panes().active is Some) ==> str_opt(final(self).selected)
                == tab_path(final(self).panes().active) && final(self).multi_selected@ == single_or_empty(
                tab_path(final(self).panes().active),
            ),
            !(old(self).split_preview && final(self).panes().active is Some) ==> str_opt(final(self).selected)
                == str_opt(old(self).selected) && final(self).multi_selected@ == old(self).multi_selected@,
            final(self).vfs == old(self).vfs,
            final(self).expanded@ == old(self).expanded@,
            final(self).copy_planned@ == old(self).copy_planned@,
            final(self).status@ == old(self).status@,
            final(self).loading == old(self).loading,
    {
        let ghost p = self.panes();
        if self.split_preview {
            let left = crate::split::duplicate_tabs(&self.tabs);
            let right = crate::split::duplicate_tabs(&self.preview_tabs);
            let merged = merge_split_tabs(left, right);
            let active = active_after_merge(self.active_tab.as_ref(), merged.as_slice());
            let path = match &active {
                Some(t) => Some(t.path.clone()),
                None => None,
            };
            self.tabs = merged;
            self.preview_tabs = Vec::new();
            self.active_preview_tab = None;
            self.active_tab = active;
            self.split_preview = false;
            if path.is_some() {
                self.set_primary_selection(path);
            }
        } else {
            let (edit, preview) = partition_tabs(crate::split::duplicate_tabs(&self.tabs));
            let (left, right) = active_after_split(self.active_tab.as_ref(), edit.as_slice(), preview.as_slice());
            self.tabs = edit;
            self.preview_tabs = preview;
            self.active_tab = left;
            self.active_preview_tab = right;
            self.split_preview = true;
        }
        proof {
            assert(tabs_view(Seq::<OpenTab>::empty()) =~= Seq::<TabView>::empty());
            if panes_ok(p) {
                lemma_toggle_ok(p);
            }
        }
    }

    /// Selects `path`. A folder toggles between expanded and collapsed; a file
    /// opens (or focuses) its edit tab. The status line is cleared.
    pub fn select(&mut self, path: String, is_dir: bool)
        ensures
            final(self).draft == old(self).draft,
            str_opt(final(self).selected) == Some(path@),
            final(self).multi_selected@ == set![path@],
            final(self).status@ == Seq::<char>::empty(),
            is_dir ==> final(self).panes() == old(self).panes(),
            is_dir ==> final(self).expanded@ == if old(self).expanded@.contains(path@) {
                old(self).expanded@.remove(path@)
            } else {
                old(self).expanded@.insert(path@)
            },
            !is_dir ==> final(self).panes() == open_of(old(self).panes(), (path@, TabKind::Edit)),
            !is_dir ==> final(self).expanded@ == old(self).expanded@,
            old(self).wf() ==> final(self).wf(),
            final(self).vfs == old(self).vfs,
            final(self).copy_planned@ == old(self).copy_planned@,
            final(self).loading == old(self).loading,
    {
        self.set_primary_selection(Some(path.clone()));
        self.status = String::new();
        if is_dir {
            if !self.expanded.remove(path.as_str()) {
                self.expanded.insert(path);
            }
        } else {
            self.open_tab(OpenTab { path, kind: TabKind::Edit });
        }
    }

    /// Right-click on the explorer row of `path`: a path already in the
    /// multi-selection keeps the whole selection as it is; any other path is
    /// selected as a click would select it (see `select`).
    pub fn context_select(&mut self, path: String, is_dir: bool)
        ensures
            old(self).multi_selected@.contains(path@) ==> *final(self) == *old(self),
            !old(self).multi_selected@.contains(path@) ==> {
                &&& final(self).draft == old(self).draft
                &&& str_opt(final(self).selected) == Some(path@)
                &&& final(self).multi_selected@ == set![path@]
                &&& final(self).status@ == Seq::<char>::empty()
                &&& is_dir ==> final(self).panes() == old(self).panes()
                &&& is_dir ==> final(self).expanded@ == if old(self).expanded@.contains(path@) {
                    old(self).expanded@.remove(path@)
                } else {
                    old(self).expanded@.insert(path@)
                }
                &&& !is_dir ==> final(self).panes() == open_of(old(self).panes(), (path@, TabKind::Edit))
                &&& !is_dir ==> final(self).expanded@ == old(self).expanded@
                &&& final(self).vfs == old(self).vfs
                &&& final(self).copy_planned@ == old(self).copy_planned@
                &&& final(self).loading == old(self).loading
            },
            old(self).wf() ==> final(self).wf(),
    {
        if !self.multi_selected.contains(path.as_str()) {
            self.select(path, is_dir);
        }
    }


    /// Forgets the deleted entry `path`: its tabs and those below it close in
    /// both panes (see `forget_of`), a selection at or below it goes, and so do
    /// the expanded folders at or below it. When the left pane still has an
    /// active tab, its path becomes the selection.
    pub fn forget_path(&mut self, path: &str)
        ensures
            final(self).draft == old(self).draft,
            ({
                let f = crate::split::forget_of(old(self).panes().tabs, old(self).panes().active, path@);
                let g = crate::split::forget_of(old(self).panes().preview, old(self).panes().active_preview, path@);
                final(self).panes() == Panes { tabs: f.0, active: f.1, preview: g.0, active_preview: g.1, split: old(self).split_preview }
            }),
            old(self).wf() ==> final(self).wf(),
            final(self).expanded@ == old(self).expanded@.filter(|p: Seq<char>| !is_at_or_below(p, path@)),
            match final(self).panes().active {
                Some(t) => str_opt(final(self).selected) == Some(t.0) && final(self).multi_selected@ == set![t.0],
                None => final(self).multi_selected@ == old(self).multi_selected@ && str_opt(final(self).selected)
                    == match str_opt(old(self).selected) {
                    Some(s) => if is_at_or_below(s, path@) {
                        None
                    } else {
                        Some(s)
                    },
                    None => None,
                },
            },
            final(self).vfs == old(self).vfs,
            final(self).copy_planned@ == old(self).copy_planned@,
            final(self).status@ == old(self).status@,
            final(self).loading == old(self).loading,
    {
        let ghost p = self.panes();
        let gone = chars_of(path);
        let drop_selection = match &self.selected {
            Some(s) => at_or_below_chars(&chars_of(s.as_str()), &gone),
            None => false,
        };
        if drop_selection {
            self.selected = None;
        }
        self.expanded = without_below(&self.expanded, path);
        let (tabs, active) = crate::split::forget_tabs(
            crate::split::duplicate_tabs(&self.tabs),
            duplicate_opt(&self.active_tab),
            path,
        );
        let (preview, active_preview) = crate::split::forget_tabs(
            crate::split::duplicate_tabs(&self.preview_tabs),
            duplicate_opt(&self.active_preview_tab),
            path,
        );
        let next = match &active {
            Some(t) => Some(t.path.clone()),
            None => None,
        };
        self.tabs = tabs;
        self.active_tab = active;
        self.preview_tabs = preview;
        self.active_preview_tab = active_preview;
        if next.is_some() {
            self.set_primary_selection(next);
        }
        proof {
            if panes_ok(p) {
                lemma_forget_ok(p.tabs, p.active, path@);
                lemma_forget_ok(p.preview, p.active_preview, path@);
                if !p.split {
                    crate::split::lemma_not_below(p.preview, path@);
                    assert(crate::split::not_below(p.preview, path@).len() == 0);
                }
            }
        }
    }

    /// Follows the rename of `from` to `to`: the selection, the expanded
    /// folders and every tab at or below `from` move below `to`.
    pub fn rewrite_paths(&mut self, from: &str, to: &str)
        ensures
            final(self).draft == old(self).draft,
            final(self).panes() == (Panes {
                tabs: rewrite_tabs(old(self).panes().tabs, from@, to@),
                active: rewrite_opt(old(self).panes().active, from@, to@),
                preview: rewrite_tabs(old(self).panes().preview, from@, to@),
                active_preview: rewrite_opt(old(self).panes().active_preview, from@, to@),
                split: old(self).split_preview,
            }),
            old(self).wf() ==> final(self).wf(),
            str_opt(final(self).selected) == match str_opt(old(self).selected) {
                Some(s) => Some(rewrite_of(s, from@, to@)),
                None => None,
            },
            final(self).expanded@ == old(self).expanded@.map(|p: Seq<char>| rewrite_of(p, from@, to@)),
            final(self).multi_selected@ == old(self).multi_selected@,
            final(self).vfs == old(self).vfs,
            final(self).copy_planned@ == old(self).copy_planned@,
            final(self).status@ == old(self).status@,
            final(self).loading == old(self).loading,
    {
        let ghost p = self.panes();
        let selected = match &self.selected {
            Some(s) => Some(rewrite_prefix(s.as_str(), from, to)),
            None => None,
        };
        self.selected = selected;
        self.expanded = rewritten(&self.expanded, from, to);
        self.tabs = rewrite_tab_list(&self.tabs, from, to);
        self.preview_tabs = rewrite_tab_list(&self.preview_tabs, from, to);
        self.active_tab = rewrite_tab(&self.active_tab, from, to);
        self.active_preview_tab = rewrite_tab(&self.active_preview_tab, from, to);
        proof {
            if panes_ok(p) {
                lemma_rewrite_ok(p.tabs, p.active, from@, to@);
                lemma_rewrite_ok(p.preview, p.active_preview, from@, to@);
            }
        }
    }

    /// Folder where a new file or folder goes: the selected folder, else the
    /// folder of the selected file, else the root.
    pub fn creation_parent(&self) -> (r: String)
        ensures
            r@ == match str_opt(self.selected) {
                Some(p) => if self.vfs.is_folder(p) {
                    p
                } else {
                    parent_of(p)
                },
                None => Seq::<char>::empty(),
            },
    {
        match &self.selected {
            Some(path) => if self.vfs.is_dir(path.as_str()) {
                path.clone()
            } else {
                parent_path(path.as_str())
            },
            None => String::new(),
        }
    }

    /// Expands `path` and every folder above it.
    pub fn expand_ancestors(&mut self, path: &str)
        ensures
            final(self).draft == old(self).draft,
            final(self).expanded@ == old(self).expanded@.union(ancestry(path@)),
            final(self).panes() == old(self).panes(),
            str_opt(final(self).selected) == str_opt(old(self).selected),
            final(self).multi_selected@ == old(self).multi_selected@,
            final(self).vfs == old(self).vfs,
            final(self).copy_planned@ == old(self).copy_planned@,
            final(self).status@ == old(self).status@,
            final(self).loading == old(self).loading,
    {
        expand_into(&mut self.expanded, path);
    }

    /// Adds `path` to the multi-selection, or removes it when it is there.
    pub fn toggle_select(&mut self, path: String)
        ensures
            final(self).draft == old(self).draft,
            final(self).multi_selected@ == if old(self).multi_selected@.contains(path@) {
                old(self).multi_selected@.remove(path@)
            } else {
                old(self).multi_selected@.insert(path@)
            },
            str_opt(final(self).selected) == str_opt(old(self).selected),
            final(self).panes() == old(self).panes(),
            final(self).vfs == old(self).vfs,
            final(self).expanded@ == old(self).expanded@,
            final(self).copy_planned@ == old(self).copy_planned@,
            final(self).status@ == old(self).status@,
            final(self).loading == old(self).loading,
    {
        if !self.multi_selected.remove(path.as_str()) {
            self.multi_selected.insert(path);
        }
    }

    /// Keeps `text` as the unsaved text of the file at `path`.
    pub fn set_draft(&mut self, path: String, text: String)
        ensures
            match final(self).draft {
                Some(d) => d.0@ == path@ && d.1@ == text@,
                None => false,
            },
            final(self).vfs == old(self).vfs,
            final(self).panes() == old(self).panes(),
            final(self).status@ == old(self).status@,
            str_opt(final(self).selected) == str_opt(old(self).selected),
            final(self).multi_selected@ == old(self).multi_selected@,
            final(self).expanded@ == old(self).expanded@,
            final(self).copy_planned@ == old(self).copy_planned@,
            final(self).loading == old(self).loading,
    {
        self.draft = Some((path, text));
    }

    /// Whether the unsaved text of `path` differs from what is stored.
    pub fn draft_is_ahead(&self, path: &str) -> (r: bool)
        ensures
            r == match self.draft {
                Some(d) => d.0@ == path@ && self.vfs.file(path@) != Some(d.1@),
                None => false,
            },
    {
        match &self.draft {
            Some((p, text)) => {
                if !crate::text::same_text(p.as_str(), path) {
                    return false;
                }
                match self.vfs.read_file(path) {
                    Some(stored) => !crate::text::same_text(stored, text.as_str()),
                    None => true,
                }
            },
            None => false,
        }
    }

    /// Stores the unsaved text, if any, in its file and forgets it.
    pub fn flush_draft(&mut self)
        ensures
            final(self).draft is None,
            match old(self).draft {
                Some(d) => d.0@.len() > 0 ==> final(self).vfs.file(d.0@) == Some(d.1@) && forall|p: Seq<char>|
                    p != d.0@ ==> #[trigger] final(self).vfs.file(p) == old(self).vfs.file(p),
                None => final(self).vfs == old(self).vfs,
            },
            match old(self).draft {
                Some(d) => d.0@.len() == 0 ==> final(self).vfs == old(self).vfs,
                None => true,
            },
            final(self).vfs.folders() == old(self).vfs.folders(),
            final(self).panes() == old(self).panes(),
            final(self).status@ == old(self).status@,
            str_opt(final(self).selected) == str_opt(old(self).selected),
            final(self).multi_selected@ == old(self).multi_selected@,
            final(self).expanded@ == old(self).expanded@,
            final(self).copy_planned@ == old(self).copy_planned@,
            final(self).loading == old(self).loading,
    {
        let draft = self.draft.take();
        match draft {
            Some((path, text)) => {
                let _ = self.vfs.put_file(path.as_str(), text);
            },
            None => {},
        }
    }

    /// A workspace restored from a saved session: nothing open but the
    /// selected file, no copy plan, an empty status line, not busy, not split.
    pub fn from_session(vfs: Vfs, selected: Option<String>, expanded: PathSet) -> (w: Workspace)
        ensures
            w.wf(),
            w.vfs == vfs,
            str_opt(w.selected) == str_opt(selected),
            w.multi_selected@ == single_or_empty(str_opt(selected)),
            w.expanded@ == expanded@,
            (w.panes().tabs, w.panes().active) == initial_tabs_of(vfs, str_opt(selected)),
            w.panes().preview.len() == 0,
            !w.split_preview,
            w.copy_planned@ == Set::<Seq<char>>::empty(),
            w.status@ == Seq::<char>::empty(),
            !w.loading,
    {
        let (tabs, active_tab) = initial_tabs(&vfs, &selected);
        let mut w = Workspace {
            vfs,
            selected: None,
            multi_selected: PathSet::new(),
            tabs,
            active_tab,
            preview_tabs: Vec::new(),
            active_preview_tab: None,
            split_preview: false,
            expanded,
            copy_planned: PathSet::new(),
            status: String::new(),
            loading: false,
            draft: None,
        };
        w.set_primary_selection(selected);
        proof {
            assert(tabs_view(Seq::<OpenTab>::empty()) =~= Seq::<TabView>::empty());
            if w.active_tab is Some {
                assert(w.panes().tabs[0] == w.panes().active->0);
            }
        }
        w
    }

    /// Empties the workspace: no files, nothing selected, expanded or open,
    /// no copy plan; the status says `Workspace cleared`.
    pub fn clear(&mut self)
        ensures
            forall|p: Seq<char>| #[trigger] final(self).vfs.file(p) is None,
            forall|p: Seq<char>| !(#[trigger] final(self).vfs.marked(p)),
            final(self).selected is None,
            final(self).multi_selected@ == Set::<Seq<char>>::empty(),
            final(self).panes().tabs.len() == 0,
            final(self).panes().active is None,
            final(self).panes().preview.len() == 0,
            final(self).panes().active_preview is None,
            final(self).split_preview == old(self).split_preview,
            final(self).expanded@ == Set::<Seq<char>>::empty(),
            final(self).copy_planned@ == Set::<Seq<char>>::empty(),
            final(self).status@ == "Workspace cleared"@,
            final(self).loading == old(self).loading,
            final(self).wf(),
    {
        self.vfs = Vfs::new();
        self.selected = None;
        self.multi_selected = PathSet::new();
        self.tabs = Vec::new();
        self.active_tab = None;
        self.preview_tabs = Vec::new();
        self.active_preview_tab = None;
        self.expanded = PathSet::new();
        self.copy_planned = PathSet::new();
        self.status = String::from_str("Workspace cleared");
        self.draft = None;
        assert(tabs_view(self.tabs@) =~= Seq::<TabView>::empty());
        assert(tabs_view(self.preview_tabs@) =~= Seq::<TabView>::empty());
    }

    /// Applies the `copy` command on `path` to the copy plan (see
    /// `copy_command_of`) and clears the status line.
    pub fn mark_copy(&mut self, path: &str)
        ensures
            final(self).draft == old(self).draft,
            copy_effect(*old(self), *final(self), path@),
            final(self).loading == old(self).loading,
    {
        self.copy_planned = apply_copy_command(path, &self.multi_selected, &self.copy_planned);
        self.status = String::new();
    }

    /// The entries to paste: the planned paths without those below another
    /// planned folder, sorted. With an empty plan there is nothing, and the
    /// status says `Nothing to paste`.
    pub fn paste_sources(&mut self) -> (r: Option<Vec<String>>)
        ensures
            final(self).draft == old(self).draft,
            r is None <==> old(self).copy_planned@.len() == 0,
            r is None ==> final(self).status@ == "Nothing to paste"@,
            r is Some ==> final(self).status@ == old(self).status@,
            match r {
                Some(v) => strictly_sorted(texts_of(v@)) && forall|p: Seq<char>| #![trigger texts_of(v@).contains(p)]
                    texts_of(v@).contains(p) <==> (old(self).copy_planned@.contains(p)
                        && !has_selected_ancestor(p, old(self).copy_planned@)),
                None => true,
            },
            final(self).panes() == old(self).panes(),
            str_opt(final(self).selected) == str_opt(old(self).selected),
            final(self).multi_selected@ == old(self).multi_selected@,
            final(self).vfs == old(self).vfs,
            final(self).expanded@ == old(self).expanded@,
            final(self).copy_planned@ == old(self).copy_planned@,
            final(self).loading == old(self).loading,
    {
        if self.copy_planned.is_empty() {
            self.status = String::from_str("Nothing to paste");
            return None;
        }
        Some(top_level_paths(&self.copy_planned))
    }

    /// Reports a paste of `n` entries into `dest`: the plan is emptied, `dest`
    /// and the folders above it are expanded.
    pub fn pasted(&mut self, dest: &str, n: usize)
        ensures
            final(self).draft == old(self).draft,
            final(self).copy_planned@ == Set::<Seq<char>>::empty(),
            final(self).expanded@ == old(self).expanded@.union(ancestry(dest@)),
            final(self).status@ == pasted_message(n as nat, dest@),
            final(self).panes() == old(self).panes(),
            str_opt(final(self).selected) == str_opt(old(self).selected),
            final(self).multi_selected@ == old(self).multi_selected@,
            final(self).vfs == old(self).vfs,
            final(self).loading == old(self).loading,
    {
        self.copy_planned = PathSet::new();
        self.expand_ancestors(dest);
        let mut msg = chars_of("Pasted ");
        push_decimal(&mut msg, n as u64);
        push_all(&mut msg, &chars_of(" item(s) into "));
        push_all(&mut msg, &chars_of(dest));
        assert(msg@ =~= pasted_message(n as nat, dest@));
        self.status = string_of(&msg);
    }

    /// Pastes the copy plan into folder `dest`: the planned entries without a
    /// planned folder above them are copied there (see
    /// `Vfs::copy_entries_into`); then the plan is emptied, `dest` expanded
    /// and the status tells how many entries were pasted. With an empty plan
    /// the status says `Nothing to paste`; a failed copy shows its error.
    pub fn paste_into(&mut self, dest: &str)
        ensures
            final(self).draft == old(self).draft,
            paste_effect(*old(self), *final(self), dest@),
            final(self).loading == old(self).loading,
    {
        let ghost planned = self.copy_planned@;
        match self.paste_sources() {
            None => {},
            Some(sources) => {
                proof {
                    sorted_lists_with_same_texts_are_equal(paste_list(planned), texts_of(sources@));
                    assert(texts_of(sources@) =~= sources@.map_values(|s: String| s@));
                }
                match self.vfs.copy_entries_into(&sources, dest) {
                    Ok(n) => self.pasted(dest, n),
                    Err(e) => self.status = e,
                }
            },
        }
    }

    /// Starts a long action unless one is running: marks the workspace busy,
    /// shows `message`, and answers `true`; when busy, changes nothing and
    /// answers `false`.
    pub fn begin_action(&mut self, message: &str) -> (started: bool)
        ensures
            final(self).draft == old(self).draft,
            started == !old(self).loading,
            final(self).loading,
            started ==> final(self).status@ == message@,
            !started ==> final(self).status@ == old(self).status@,
            final(self).panes() == old(self).panes(),
            str_opt(final(self).selected) == str_opt(old(self).selected),
            final(self).multi_selected@ == old(self).multi_selected@,
            final(self).vfs == old(self).vfs,
            final(self).expanded@ == old(self).expanded@,
            final(self).copy_planned@ == old(self).copy_planned@,
    {
        if self.loading {
            return false;
        }
        self.loading = true;
        self.status = message.to_owned();
        true
    }

    /// Ends the running long action.
    pub fn end_action(&mut self)
        ensures
            final(self).draft == old(self).draft,
            !final(self).loading,
            final(self).status@ == old(self).status@,
            final(self).panes() == old(self).panes(),
            str_opt(final(self).selected) == str_opt(old(self).selected),
            final(self).multi_selected@ == old(self).multi_selected@,
            final(self).vfs == old(self).vfs,
            final(self).expanded@ == old(self).expanded@,
            final(self).copy_planned@ == old(self).copy_planned@,
    {
        self.loading = false;
    }

    /// Shows `message` on the status line.
    pub fn set_status(&mut self, message: String)
        ensures
            final(self).draft == old(self).draft,
            final(self).status@ == message@,
            final(self).panes() == old(self).panes(),
            str_opt(final(self).selected) == str_opt(old(self).selected),
            final(self).multi_selected@ == old(self).multi_selected@,
            final(self).vfs == old(self).vfs,
            final(self).expanded@ == old(self).expanded@,
            final(self).copy_planned@ == old(self).copy_planned@,
            final(self).loading == old(self).loading,
    {
        self.status = message;
    }

    /// Shows the help file: expands its folders, selects it, opens its
    /// preview tab and says `Opened user-help.md`.
    pub fn open_help_preview(&mut self)
        ensures
            final(self).draft == old(self).draft,
            final(self).expanded@ == old(self).expanded@.union(ancestry(help_path())),
            str_opt(final(self).selected) == Some(help_path()),
            final(self).multi_selected@ == set![help_path()],
            final(self).panes() == open_of(old(self).panes(), (help_path(), TabKind::Preview)),
            final(self).status@ == "Opened user-help.md"@,
            old(self).wf() ==> final(self).wf(),
            final(self).vfs == old(self).vfs,
            final(self).copy_planned@ == old(self).copy_planned@,
            final(self).loading == old(self).loading,
    {
        let path = help_file_path();
        self.expand_ancestors(path);
        self.set_primary_selection(Some(path.to_owned()));
        self.open_tab(OpenTab::new(path, TabKind::Preview));
        proof {
            reveal_strlit("user-help.md");
            reveal_strlit("Opened user-help.md");
        }
        let mut msg = chars_of("Opened ");
        push_all(&mut msg, &chars_of(path));
        proof {
            reveal_strlit("Opened ");
        }
        assert(msg@ =~= "Opened user-help.md"@);
        self.status = string_of(&msg);
    }

    /// Copies the bundled `help` into the store when it is missing or stored
    /// as an HTML page; when no tab was open, shows it.
    pub fn ensure_user_help(&mut self, help: String)
        ensures
            final(self).draft == old(self).draft,
            needs_install_of(old(self).vfs) ==> final(self).vfs.file(help_path()) == Some(help@),
            forall|p: Seq<char>| p != help_path() ==> #[trigger] final(self).vfs.file(p) == old(self).vfs.file(p),
            !needs_install_of(old(self).vfs) ==> final(self).vfs.file(help_path()) == old(self).vfs.file(help_path()),
            final(self).vfs.folders() == old(self).vfs.folders(),
            old(self).tabs@.len() == 0 ==> final(self).panes() == open_of(old(self).panes(), (help_path(), TabKind::Preview))
                && str_opt(final(self).selected) == Some(help_path())
                && final(self).status@ == "Opened user-help.md"@
                && final(self).expanded@ == old(self).expanded@.union(ancestry(help_path())),
            old(self).tabs@.len() != 0 ==> final(self).panes() == old(self).panes()
                && str_opt(final(self).selected) == str_opt(old(self).selected)
                && final(self).status@ == old(self).status@
                && final(self).expanded@ == old(self).expanded@,
            old(self).wf() ==> final(self).wf(),
            final(self).copy_planned@ == old(self).copy_planned@,
            final(self).loading == old(self).loading,
    {
        let open_preview = should_open_preview(self.tabs.len());
        if needs_install(&self.vfs) {
            let _ = install_user_help(&mut self.vfs, help);
        }
        if open_preview {
            self.open_help_preview();
        }
    }

    /// Reports a game installed from the sample repository: its folder is
    /// expanded and selected, and the status says where it came from.
    pub fn installed_game(&mut self, installed: &InstalledGame)
        ensures
            final(self).draft == old(self).draft,
            final(self).expanded@ == old(self).expanded@.union(ancestry(game_path(installed.folder@))),
            str_opt(final(self).selected) == Some(game_path(installed.folder@)),
            final(self).multi_selected@ == set![game_path(installed.folder@)],
            final(self).status@ == added_message(game_path(installed.folder@), installed.source@),
            final(self).panes() == old(self).panes(),
            final(self).vfs == old(self).vfs,
            final(self).copy_planned@ == old(self).copy_planned@,
            final(self).loading == old(self).loading,
    {
        let mut path = chars_of("games/");
        push_all(&mut path, &chars_of(installed.folder.as_str()));
        let path_str = string_of(&path);
        self.expand_ancestors(path_str.as_str());
        let mut msg = chars_of("Added ");
        push_all(&mut msg, &path);
        push_all(&mut msg, &chars_of(" from "));
        push_all(&mut msg, &chars_of(installed.source));
        assert(msg@ =~= added_message(game_path(installed.folder@), installed.source@));
        self.set_primary_selection(Some(path_str));
        self.status = string_of(&msg);
    }

    /// Reports a game folder loaded from disk as `games/{folder}`: it is
    /// expanded and selected, and the status says `Loaded games/{folder}`.
    pub fn loaded_game_folder(&mut self, folder: &str)
        ensures
            final(self).draft == old(self).draft,
            final(self).expanded@ == old(self).expanded@.union(ancestry(game_path(folder@))),
            str_opt(final(self).selected) == Some(game_path(folder@)),
            final(self).multi_selected@ == set![game_path(folder@)],
            final(self).status@ == "Loaded "@ + game_path(folder@),
            final(self).panes() == old(self).panes(),
            final(self).vfs == old(self).vfs,
            final(self).copy_planned@ == old(self).copy_planned@,
            final(self).loading == old(self).loading,
    {
        let mut path = chars_of("games/");
        push_all(&mut path, &chars_of(folder));
        let path_str = string_of(&path);
        self.expand_ancestors(path_str.as_str());
        let mut msg = chars_of("Loaded ");
        push_all(&mut msg, &path);
        assert(msg@ =~= "Loaded "@ + game_path(folder@));
        self.set_primary_selection(Some(path_str));
        self.status = string_of(&msg);
    }

    /// Reports `n` files copied from disk into `folder`: it is expanded and
    /// selected, and the status says how many files went where.
    pub fn loaded_files(&mut self, folder: &str, n: usize)
        ensures
            final(self).draft == old(self).draft,
            final(self).expanded@ == old(self).expanded@.union(ancestry(folder@)),
            str_opt(final(self).selected) == Some(folder@),
            final(self).multi_selected@ == set![folder@],
            final(self).status@ == loaded_files_message(n as nat, folder@),
            final(self).panes() == old(self).panes(),
            final(self).vfs == old(self).vfs,
            final(self).copy_planned@ == old(self).copy_planned@,
            final(self).loading == old(self).loading,
    {
        self.expand_ancestors(folder);
        let mut msg = chars_of("Loaded ");
        push_decimal(&mut msg, n as u64);
        push_all(&mut msg, &chars_of(" file(s) into "));
        push_all(&mut msg, &chars_of(folder));
        assert(msg@ =~= loaded_files_message(n as nat, folder@));
        self.set_primary_selection(Some(folder.to_owned()));
        self.status = string_of(&msg);
    }

    /// Reports decks prepared as `what` (`HTML`, `PDF`): the status says how many.
    pub fn prepared(&mut self, what: &str, n: usize)
        ensures
            final(self).draft == old(self).draft,
            final(self).status@ == prepared_message(what@, n as nat),
            final(self).panes() == old(self).panes(),
            str_opt(final(self).selected) == str_opt(old(self).selected),
            final(self).multi_selected@ == old(self).multi_selected@,
            final(self).vfs == old(self).vfs,
            final(self).expanded@ == old(self).expanded@,
            final(self).copy_planned@ == old(self).copy_planned@,
            final(self).loading == old(self).loading,
    {
        let mut msg = chars_of("Prepared ");
        push_all(&mut msg, &chars_of(what));
        push_all(&mut msg, &chars_of(" for "));
        push_decimal(&mut msg, n as u64);
        push_all(&mut msg, &chars_of(" decks"));
        assert(msg@ =~= prepared_message(what@, n as nat));
        self.status = string_of(&msg);
    }

    /// Deletes the entry at `path`: on success its tabs, selection and
    /// expanded folders are forgotten (see `forget_path`) and the status says
    /// `Deleted {path}`; otherwise the status shows the error.
    pub fn delete_entry(&mut self, path: &str)
        ensures
            final(self).draft == old(self).draft,
            delete_effect(*old(self), *final(self), path@),
            old(self).wf() ==> final(self).wf(),
            final(self).copy_planned@ == old(self).copy_planned@,
            final(self).loading == old(self).loading,
    {
        match self.vfs.remove(path) {
            Ok(()) => {
                self.forget_path(path);
                let mut msg = chars_of("Deleted ");
                push_all(&mut msg, &chars_of(path));
                assert(msg@ =~= deleted_message(path@));
                self.status = string_of(&msg);
            },
            Err(e) => {
                self.status = e;
            },
        }
    }

    /// Creates an empty file `name` in the creation parent; on success its
    /// folders are expanded, it is selected and opened, and the status is
    /// cleared; otherwise the status shows the error.
    pub fn create_file(&mut self, name: &str)
        ensures
            final(self).draft == old(self).draft,
            ({
                let parent = match str_opt(old(self).selected) {
                    Some(p) => if old(self).vfs.is_folder(p) {
                        p
                    } else {
                        parent_of(p)
                    },
                    None => Seq::<char>::empty(),
                };
                let path = join_of(parent, name@);
                if path.len() > 0 && !old(self).vfs.exists_at(path) {
                    &&& final(self).vfs.file(path) == Some(Seq::<char>::empty())
                    &&& forall|p: Seq<char>| p != path ==> #[trigger] final(self).vfs.file(p) == old(self).vfs.file(p)
                    &&& final(self).vfs.folders() == old(self).vfs.folders()
                    &&& final(self).expanded@ == old(self).expanded@.union(ancestry(parent))
                    &&& str_opt(final(self).selected) == Some(path)
                    &&& final(self).panes() == open_of(old(self).panes(), (path, TabKind::Edit))
                    &&& final(self).status@ == Seq::<char>::empty()
                } else {
                    &&& final(self).vfs == old(self).vfs
                    &&& final(self).panes() == old(self).panes()
                    &&& final(self).status@ == if path.len() == 0 {
                        "empty path"@
                    } else {
                        path + " already exists"@
                    }
                }
            }),
            old(self).wf() ==> final(self).wf(),
            final(self).copy_planned@ == old(self).copy_planned@,
            final(self).loading == old(self).loading,
    {
        let parent = self.creation_parent();
        let path = crate::paths::join_path(parent.as_str(), name);
        match self.vfs.create_file(path.as_str()) {
            Ok(()) => {
                self.expand_ancestors(parent.as_str());
                self.selected = Some(path.clone());
                self.open_tab(OpenTab { path, kind: TabKind::Edit });
                self.status = String::new();
            },
            Err(e) => {
                self.status = e;
            },
        }
    }

    /// Renames the entry at `path` to `name` (see `Vfs::rename`); on success
    /// the selection, expanded folders and tabs follow (see `rewrite_paths`)
    /// and the status says `Renamed to {new path}`; otherwise the status shows
    /// the error.
    pub fn rename_entry(&mut self, path: &str, name: &str)
        ensures
            final(self).draft == old(self).draft,
            ({
                let to = renamed_path(path@, name@);
                let ok = old(self).vfs.exists_at(path@) && name@.len() > 0 && !name@.contains('/') && (to == path@
                    || !old(self).vfs.exists_at(to));
                if ok {
                    &&& to != path@ ==> forall|q: Seq<char>| #[trigger] final(self).vfs.file(q) == renamed_file(old(self).vfs, path@, to, q)
                    &&& to != path@ ==> forall|q: Seq<char>| #[trigger] final(self).vfs.marked(q) == renamed_mark(old(self).vfs, path@, to, q)
                    &&& to == path@ ==> final(self).vfs == old(self).vfs
                    &&& final(self).panes().tabs == rewrite_tabs(old(self).panes().tabs, path@, to)
                    &&& final(self).panes().active == rewrite_opt(old(self).panes().active, path@, to)
                    &&& final(self).panes().preview == rewrite_tabs(old(self).panes().preview, path@, to)
                    &&& final(self).panes().active_preview == rewrite_opt(old(self).panes().active_preview, path@, to)
                    &&& final(self).expanded@ == old(self).expanded@.map(|p: Seq<char>| rewrite_of(p, path@, to))
                    &&& str_opt(final(self).selected) == match str_opt(old(self).selected) {
                        Some(s) => Some(rewrite_of(s, path@, to)),
                        None => None,
                    }
                    &&& final(self).status@ == "Renamed to "@ + to
                } else {
                    &&& final(self).vfs == old(self).vfs
                    &&& final(self).panes() == old(self).panes()
                    &&& str_opt(final(self).selected) == str_opt(old(self).selected)
                    &&& final(self).expanded@ == old(self).expanded@
                    &&& final(self).status@ == if !old(self).vfs.exists_at(path@) {
                        "nothing at "@ + path@
                    } else if !(name@.len() > 0 && !name@.contains('/')) {
                        "invalid name "@ + name@
                    } else {
                        to + " already exists"@
                    }
                }
            }),
            old(self).wf() ==> final(self).wf(),
            final(self).copy_planned@ == old(self).copy_planned@,
            final(self).loading == old(self).loading,
    {
        match self.vfs.rename(path, name) {
            Ok(new_path) => {
                self.rewrite_paths(path, new_path.as_str());
                let mut msg = chars_of("Renamed to ");
                push_all(&mut msg, &chars_of(new_path.as_str()));
                self.status = string_of(&msg);
            },
            Err(e) => {
                self.status = e;
            },
        }
    }

    /// Why files cannot be loaded into `folder`, if they cannot: it must be a
    /// folder of the store.
    pub fn load_target_error(&self, folder: &str) -> (r: Option<String>)
        ensures
            r is None <==> self.vfs.is_folder(folder@),
            match r {
                Some(m) => m@ == "'"@ + folder@ + "' is not a folder"@,
                None => true,
            },
    {
        if self.vfs.is_dir(folder) {
            return None;
        }
        let mut msg = chars_of("'");
        push_all(&mut msg, &chars_of(folder));
        push_all(&mut msg, &chars_of("' is not a folder"));
        Some(string_of(&msg))
    }

    /// Begins loading files into `folder`. While a long action runs, nothing
    /// happens. Otherwise, when `folder` is not a folder of the store, the
    /// answer is the warning `'{folder}' is not a folder` and nothing changes.
    /// Otherwise the workspace becomes busy and the status says
    /// `Select file(s)…`.
    pub fn start_load_files(&mut self, folder: &str) -> (r: LoadStart)
        ensures
            old(self).loading ==> r is Busy && *final(self) == *old(self),
            !old(self).loading && !old(self).vfs.is_folder(folder@) ==> *final(self) == *old(self) && (match r {
                LoadStart::NotAFolder(m) => m@ == "'"@ + folder@ + "' is not a folder"@,
                _ => false,
            }),
            !old(self).loading && old(self).vfs.is_folder(folder@) ==> {
                &&& r is Started
                &&& final(self).loading
                &&& final(self).status@ == "Select file(s)…"@
                &&& final(self).draft == old(self).draft
                &&& final(self).panes() == old(self).panes()
                &&& str_opt(final(self).selected) == str_opt(old(self).selected)
                &&& final(self).multi_selected@ == old(self).multi_selected@
                &&& final(self).vfs == old(self).vfs
                &&& final(self).expanded@ == old(self).expanded@
                &&& final(self).copy_planned@ == old(self).copy_planned@
            },
    {
        if self.loading {
            return LoadStart::Busy;
        }
        match self.load_target_error(folder) {
            Some(m) => LoadStart::NotAFolder(m),
            None => {
                self.begin_action("Select file(s)…");
                LoadStart::Started
            },
        }
    }

    /// Ends a load of files that picked nothing (cancelled or refused): the
    /// status line is cleared and the workspace is no longer busy.
    pub fn load_files_aborted(&mut self)
        ensures
            final(self).status@ == Seq::<char>::empty(),
            !final(self).loading,
            final(self).draft == old(self).draft,
            final(self).panes() == old(self).panes(),
            str_opt(final(self).selected) == str_opt(old(self).selected),
            final(self).multi_selected@ == old(self).multi_selected@,
            final(self).vfs == old(self).vfs,
            final(self).expanded@ == old(self).expanded@,
            final(self).copy_planned@ == old(self).copy_planned@,
    {
        self.status = String::new();
        self.loading = false;
    }

    /// Creates an empty folder `name` in the creation parent; on success it
    /// and the folders above it are expanded, it is selected and the status
    /// is cleared; otherwise the status shows the error.
    pub fn create_folder(&mut self, name: &str)
        ensures
            final(self).draft == old(self).draft,
            ({
                let parent = match str_opt(old(self).selected) {
                    Some(p) => if old(self).vfs.is_folder(p) {
                        p
                    } else {
                        parent_of(p)
                    },
                    None => Seq::<char>::empty(),
                };
                let path = join_of(parent, name@);
                if path.len() > 0 && !old(self).vfs.exists_at(path) {
                    &&& forall|p: Seq<char>| #[trigger] final(self).vfs.marked(p) == (old(self).vfs.marked(p) || p == path)
                    &&& forall|p: Seq<char>| #[trigger] final(self).vfs.file(p) == old(self).vfs.file(p)
                    &&& final(self).expanded@ == old(self).expanded@.union(ancestry(path))
                    &&& str_opt(final(self).selected) == Some(path)
                    &&& final(self).status@ == Seq::<char>::empty()
                } else {
                    &&& final(self).vfs == old(self).vfs
                    &&& final(self).expanded@ == old(self).expanded@
                    &&& str_opt(final(self).selected) == str_opt(old(self).selected)
                    &&& final(self).status@ == if path.len() == 0 {
                        "empty path"@
                    } else {
                        path + " already exists"@
                    }
                }
            }),
            final(self).panes() == old(self).panes(),
            final(self).multi_selected@ == old(self).multi_selected@,
            final(self).copy_planned@ == old(self).copy_planned@,
            final(self).loading == old(self).loading,
    {
        let parent = self.creation_parent();
        let path = crate::paths::join_path(parent.as_str(), name);
        match self.vfs.mkdir(path.as_str()) {
            Ok(()) => {
                self.expand_ancestors(path.as_str());
                self.selected = Some(path);
                self.status = String::new();
            },
            Err(e) => {
                self.status = e;
            },
        }
    }

    /// Runs the explorer command `id` on `path`. `preview` opens the preview
    /// tab, `copy` updates the copy plan, `delete` deletes, `past` pastes the
    /// plan into the folder; `rename` and `load_files` are handed back; any
    /// other id is reported as unknown.
    pub fn run_entry_command(&mut self, id: &str, path: &str) -> (r: EntryRequest)
        ensures
            final(self).draft == old(self).draft,
            id@ == "rename"@ ==> r is Rename && *final(self) == *old(self),
            id@ == "load_files"@ ==> r is LoadFiles && *final(self) == *old(self),
            id@ == "preview"@ ==> r is Done && open_effect(*old(self), *final(self), (path@, TabKind::Preview)),
            id@ == "copy"@ ==> r is Done && copy_effect(*old(self), *final(self), path@),
            id@ == "delete"@ ==> r is Done && delete_effect(*old(self), *final(self), path@),
            id@ == "past"@ ==> r is Done && paste_effect(*old(self), *final(self), path@),
            (id@ != "rename"@ && id@ != "load_files"@ && id@ != "preview"@ && id@ != "copy"@ && id@ != "delete"@
                && id@ != "past"@) ==> r is Done && final(self).status@ == unknown_message(id@)
                && final(self).panes() == old(self).panes() && final(self).vfs == old(self).vfs
                && str_opt(final(self).selected) == str_opt(old(self).selected)
                && final(self).multi_selected@ == old(self).multi_selected@
                && final(self).expanded@ == old(self).expanded@
                && final(self).copy_planned@ == old(self).copy_planned@,
            old(self).wf() ==> final(self).wf(),
            final(self).loading == old(self).loading,
    {
        proof {
            reveal_strlit("delete");
            reveal_strlit("rename");
            reveal_strlit("preview");
            reveal_strlit("load_files");
            reveal_strlit("copy");
            reveal_strlit("past");
            assert("delete"@[0] == 'd' && "rename"@[0] == 'r' && "preview"@[0] == 'p');
            assert("load_files"@[0] == 'l' && "copy"@[0] == 'c' && "past"@[0] == 'p');
            assert("preview"@.len() == 7 && "past"@.len() == 4);
        }
        if crate::text::same_text(id, "delete") {
            self.delete_entry(path);
            EntryRequest::Done
        } else if crate::text::same_text(id, "rename") {
            EntryRequest::Rename
        } else if crate::text::same_text(id, "preview") {
            self.open_tab(OpenTab::new(path, TabKind::Preview));
            EntryRequest::Done
        } else if crate::text::same_text(id, "load_files") {
            EntryRequest::LoadFiles
        } else if crate::text::same_text(id, "copy") {
            self.mark_copy(path);
            EntryRequest::Done
        } else if crate::text::same_text(id, "past") {
            self.paste_into(path);
            EntryRequest::Done
        } else {
            let mut msg = chars_of("Unknown command ");
            push_all(&mut msg, &chars_of(id));
            assert(msg@ =~= unknown_message(id@));
            self.status = string_of(&msg);
            EntryRequest::Done
        }
    }

}

/// `set` without the paths at or below `dir`.
fn without_below(set: &PathSet, dir: &str) -> (r: PathSet)
    ensures
        r@ == set@.filter(|p: Seq<char>| !is_at_or_below(p, dir@)),
{
    let items = set.to_vec();
    let gone = chars_of(dir);
    let mut kept = PathSet::new();
    let mut i: usize = 0;
    while i < items.len()
        invariant
            i <= items@.len(),
            gone@ == dir@,
            forall|p: Seq<char>| set@.contains(p) <==> exists|j: int| 0 <= j < items@.len() && #[trigger] items@[j]@ == p,
            forall|p: Seq<char>| #[trigger] kept@.contains(p) <==> (exists|j: int| 0 <= j < i && #[trigger] items@[j]@ == p)
                && !is_at_or_below(p, dir@),
        decreases items.len() - i,
    {
        let ghost before = kept@;
        if !at_or_below_chars(&chars_of(items[i].as_str()), &gone) {
            kept.insert(items[i].clone());
        }
        proof {
            assert forall|p: Seq<char>| #[trigger] kept@.contains(p) <==> (exists|j: int| 0 <= j < i + 1 && #[trigger] items@[j]@ == p)
                && !is_at_or_below(p, dir@) by {
                if exists|j: int| 0 <= j < i + 1 && #[trigger] items@[j]@ == p {
                    let j = choose|j: int| 0 <= j < i + 1 && #[trigger] items@[j]@ == p;
                    if j < i {
                        assert(exists|j: int| 0 <= j < i && #[trigger] items@[j]@ == p);
                    }
                }
                if p == items@[i as int]@ {
                    assert(exists|j: int| 0 <= j < i + 1 && #[trigger] items@[j]@ == p);
                }
            }
        }
        i = i + 1;
    }
    assert(kept@ =~= set@.filter(|p: Seq<char>| !is_at_or_below(p, dir@)));
    kept
}

/// `set` with every path renamed from below `from` to below `to`.
fn rewritten(set: &PathSet, from: &str, to: &str) -> (r: PathSet)
    ensures
        r@ == set@.map(|p: Seq<char>| rewrite_of(p, from@, to@)),
{
    let items = set.to_vec();
    let mut out = PathSet::new();
    let mut i: usize = 0;
    while i < items.len()
        invariant
            i <= items@.len(),
            forall|p: Seq<char>| set@.contains(p) <==> exists|j: int| 0 <= j < items@.len() && #[trigger] items@[j]@ == p,
            forall|p: Seq<char>| #[trigger] out@.contains(p) <==> exists|j: int| 0 <= j < i && rewrite_of(#[trigger] items@[j]@, from@, to@) == p,
        decreases items.len() - i,
    {
        out.insert(rewrite_prefix(items[i].as_str(), from, to));
        proof {
            assert forall|p: Seq<char>| #[trigger] out@.contains(p) <==> exists|j: int| 0 <= j < i + 1 && rewrite_of(#[trigger] items@[j]@, from@, to@) == p by {
                if exists|j: int| 0 <= j < i + 1 && rewrite_of(#[trigger] items@[j]@, from@, to@) == p {
                    let j = choose|j: int| 0 <= j < i + 1 && rewrite_of(#[trigger] items@[j]@, from@, to@) == p;
                    if j < i {
                        assert(exists|j: int| 0 <= j < i && rewrite_of(#[trigger] items@[j]@, from@, to@) == p);
                    }
                }
            }
        }
        i = i + 1;
    }
    proof {
        let f = |p: Seq<char>| rewrite_of(p, from@, to@);
        assert forall|p: Seq<char>| out@.contains(p) <==> set@.map(f).contains(p) by {
            if out@.contains(p) {
                let j = choose|j: int| 0 <= j < i && rewrite_of(#[trigger] items@[j]@, from@, to@) == p;
                assert(set@.contains(items@[j]@));
            }
            if set@.map(f).contains(p) {
                let q = choose|q: Seq<char>| set@.contains(q) && f(q) == p;
                let j = choose|j: int| 0 <= j < items@.len() && #[trigger] items@[j]@ == q;
                assert(rewrite_of(items@[j]@, from@, to@) == p);
            }
        }
        assert(out@ =~= set@.map(f));
    }
    out
}

/// `tabs` with their paths renamed from below `from` to below `to`.
fn rewrite_tab_list(tabs: &Vec<OpenTab>, from: &str, to: &str) -> (r: Vec<OpenTab>)
    ensures
        tabs_view(r@) == rewrite_tabs(tabs_view(tabs@), from@, to@),
{
    let mut out: Vec<OpenTab> = Vec::new();
    let mut i: usize = 0;
    while i < tabs.len()
        invariant
            i <= tabs@.len(),
            out@.len() == i,
            forall|j: int| 0 <= j < i ==> (#[trigger] out@[j])@ == (rewrite_of(tabs@[j].path@, from@, to@), tabs@[j].kind),
        decreases tabs.len() - i,
    {
        out.push(OpenTab { path: rewrite_prefix(tabs[i].path.as_str(), from, to), kind: tabs[i].kind });
        i = i + 1;
    }
    assert(tabs_view(out@) =~= rewrite_tabs(tabs_view(tabs@), from@, to@));
    out
}

/// An optional tab with its path renamed.
fn rewrite_tab(tab: &Option<OpenTab>, from: &str, to: &str) -> (r: Option<OpenTab>)
    ensures
        opt_view(r) == rewrite_opt(opt_view(*tab), from@, to@),
{
    match tab {
        Some(t) => Some(OpenTab { path: rewrite_prefix(t.path.as_str(), from, to), kind: t.kind }),
        None => None,
    }
}

/// Adds `path` and every folder above it to `set`.
fn expand_into(set: &mut PathSet, path: &str)
    ensures
        final(set)@ == old(set)@.union(ancestry(path@)),
{
    let ghost start = set@;
    let mut current = path.to_owned();
    assert(start.union(ancestry(path@)) =~= set@.union(ancestry(current@)));
    while current.unicode_len() > 0
        invariant
            start.union(ancestry(path@)) == set@.union(ancestry(current@)),
        decreases current@.len(),
    {
        let ghost c = current@;
        let parent = parent_path(current.as_str());
        proof {
            lemma_parent_shorter(c);
            assert(ancestry(c) == ancestry(parent_of(c)).insert(c));
        }
        set.insert(current);
        current = parent;
        assert(start.union(ancestry(path@)) =~= set@.union(ancestry(current@)));
    }
    assert(ancestry(current@) =~= Set::<Seq<char>>::empty());
    assert(start.union(ancestry(path@)) =~= set@);
}

/// Tabs restored with a session (see `initial_tabs_of`).
pub fn initial_tabs(vfs: &Vfs, selected: &Option<String>) -> (r: (Vec<OpenTab>, Option<OpenTab>))
    ensures
        (tabs_view(r.0@), opt_view(r.1)) == initial_tabs_of(*vfs, str_opt(*selected)),
{
    match selected {
        Some(path) => if vfs.is_file(path.as_str()) {
            let tab = OpenTab { path: path.clone(), kind: TabKind::Edit };
            let focus = tab.duplicate();
            let tabs = vec![tab];
            assert(tabs_view(tabs@) =~= seq![(path@, TabKind::Edit)]);
            (tabs, Some(focus))
        } else {
            let tabs: Vec<OpenTab> = Vec::new();
            assert(tabs_view(tabs@) =~= Seq::<TabView>::empty());
            (tabs, None)
        },
        None => {
            let tabs: Vec<OpenTab> = Vec::new();
            assert(tabs_view(tabs@) =~= Seq::<TabView>::empty());
            (tabs, None)
        },
    }
}

/// Opening the same tab twice is the same as opening it once.
pub proof fn open_tab_twice_is_once(p: Panes, tab: TabView)
    ensures
        open_of(open_of(p, tab), tab) == open_of(p, tab),
{
    lemma_push_unique(p.tabs, tab);
    lemma_push_unique(p.preview, tab);
    let shown = (tab.0, TabKind::Preview);
    lemma_push_unique(p.preview, shown);
    assert(push_unique(push_unique(p.tabs, tab), tab) == push_unique(p.tabs, tab));
    assert(push_unique(push_unique(p.preview, tab), tab) == push_unique(p.preview, tab));
    assert(push_unique(p.preview, shown).contains(shown));
}

/// After an entry is deleted, no tab of either pane is at or below it.
pub proof fn forget_closes_everything_below(p: Panes, deleted: Seq<char>)
    ensures
        forall|t: TabView| #[trigger] crate::split::forget_of(p.tabs, p.active, deleted).0.contains(t)
            ==> !is_at_or_below(t.0, deleted),
        forall|t: TabView| #[trigger] crate::split::forget_of(p.preview, p.active_preview, deleted).0.contains(t)
            ==> !is_at_or_below(t.0, deleted),
{
    crate::split::lemma_not_below(p.tabs, deleted);
    crate::split::lemma_not_below(p.preview, deleted);
    assert(crate::split::not_below(p.tabs, deleted) == crate::split::forget_of(p.tabs, p.active, deleted).0);
    assert(crate::split::not_below(p.preview, deleted) == crate::split::forget_of(p.preview, p.active_preview, deleted).0);
    assert forall|t: TabView| #[trigger] crate::split::forget_of(p.tabs, p.active, deleted).0.contains(t)
        implies !is_at_or_below(t.0, deleted) by {
        assert(crate::split::not_below(p.tabs, deleted).contains(t));
    }
    assert forall|t: TabView| #[trigger] crate::split::forget_of(p.preview, p.active_preview, deleted).0.contains(t)
        implies !is_at_or_below(t.0, deleted) by {
        assert(crate::split::not_below(p.preview, deleted).contains(t));
    }
}

/// Turning split on and off again, from a single pane whose bar holds no
/// repeat and whose active tab (if any) is in the bar, gives a single pane
/// whose bar is its edit tabs followed by its preview tabs, each in order. The
/// active tab stays when it is an edit tab; otherwise the first tab of that
/// bar is active.
pub proof fn toggling_split_twice_groups_tabs(p: Panes)
    requires
        !p.split,
        p.tabs.no_duplicates(),
        p.active matches Some(t) ==> p.tabs.contains(t),
    ensures
        ({
            let merged = of_kind(p.tabs, TabKind::Edit) + of_kind(p.tabs, TabKind::Preview);
            toggle_of(toggle_of(p)) == Panes {
                tabs: merged,
                active: match p.active {
                    Some(t) if t.1 == TabKind::Edit => Some(t),
                    _ => if merged.len() > 0 {
                        Some(merged[0])
                    } else {
                        None
                    },
                },
                preview: Seq::empty(),
                active_preview: None,
                split: false,
            }
        }),
{
    let e = of_kind(p.tabs, TabKind::Edit);
    let v = of_kind(p.tabs, TabKind::Preview);
    let merged = e + v;
    crate::split::split_then_merge_orders_edit_before_preview(p.tabs);
    lemma_of_kind(p.tabs, TabKind::Edit);
    let once = toggle_of(p);
    assert(once.tabs == e && once.preview == v && once.split);
    assert(merge_of(once.tabs, once.preview) == merged);
    match p.active {
        Some(t) => {
            if t.1 == TabKind::Edit {
                assert(e.contains(t));
                let i = choose|i: int| 0 <= i < e.len() && e[i] == t;
                assert(merged[i] == t);
                assert(merged.contains(t));
            } else if e.len() > 0 {
                assert(merged[0] == e[0]);
                assert(merged.contains(e[0]));
            }
        },
        None => {
            if e.len() > 0 {
                assert(merged[0] == e[0]);
                assert(merged.contains(e[0]));
            }
        },
    }
}

} // verus!
