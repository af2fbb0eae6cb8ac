//! Editor tabs and the split-for-preview routing.
//!
//! The workspace has one tab list until the split toggle is on. Then edit tabs
//! stay on the left and preview tabs move to the right. Opening a previewable
//! file while split also opens its preview tab if it is missing. Partition,
//! merge and close rules are functions of plain tab lists.
use vstd::prelude::*;
use vstd::string::*;

use crate::paths::{file_ext_chars, file_ext_of, is_at_or_below, is_image_path, at_or_below_chars, is_image_chars};
use crate::text::{chars_of, lower, lower_of, same_chars};

verus! {

/// Whether an editor tab shows the source or a rendered preview.
#[derive(Clone, Copy, Debug, PartialEq, Eq, Structural)]
pub enum TabKind {
    /// Editable source.
    Edit,
    /// Rendered HTML / Markdown / PDF / image preview.
    Preview,
}

/// One open editor tab (path + edit vs preview).
#[derive(Clone, Debug, PartialEq, Eq)]
pub struct OpenTab {
    /// Workspace path of the file.
    pub path: String,
    /// Source vs preview.
    pub kind: TabKind,
}

/// A tab as plain values: its path and its kind.
pub type TabView = (Seq<char>, TabKind);

impl View for OpenTab {
    type V = TabView;

    open spec fn view(&self) -> TabView {
        (self.path@, self.kind)
    }
}

/// The views of a list of tabs.
pub open spec fn tabs_view(v: Seq<OpenTab>) -> Seq<TabView> {
    v.map_values(|t: OpenTab| t@)
}

/// The view of an optional tab.
pub open spec fn opt_view(t: Option<OpenTab>) -> Option<TabView> {
    match t {
        Some(t) => Some(t@),
        None => None,
    }
}

impl OpenTab {
    /// A tab of kind `kind` on `path`.
    pub fn new(path: &str, kind: TabKind) -> (t: OpenTab)
        ensures
            t@ == (path@, kind),
    {
        OpenTab { path: String::from_str(path), kind }
    }

    /// A copy of this tab.
    pub fn duplicate(&self) -> (t: OpenTab)
        ensures
            t@ == self@,
    {
        OpenTab { path: self.path.clone(), kind: self.kind }
    }
}

/// Whether two tabs are the same tab.
pub fn same_tab(a: &OpenTab, b: &OpenTab) -> (r: bool)
    ensures
        r == (a@ == b@),
{
    a.kind == b.kind && a.path == b.path
}


/// A copy of an optional tab.
pub fn duplicate_opt(t: &Option<OpenTab>) -> (r: Option<OpenTab>)
    ensures
        opt_view(r) == opt_view(*t),
{
    match t {
        Some(x) => Some(x.duplicate()),
        None => None,
    }
}

/// A copy of a list of tabs.
pub fn duplicate_tabs(v: &Vec<OpenTab>) -> (r: Vec<OpenTab>)
    ensures
        tabs_view(r@) == tabs_view(v@),
{
    let mut r: Vec<OpenTab> = Vec::new();
    let mut i: usize = 0;
    while i < v.len()
        invariant
            i <= v@.len(),
            tabs_view(r@) == tabs_view(v@).take(i as int),
        decreases v.len() - i,
    {
        let ghost prev = r@;
        let t = v[i].duplicate();
        r.push(t);
        assert(r@ =~= prev.push(t));
        assert(tabs_view(r@) =~= tabs_view(prev).push(t@));
        assert(tabs_view(v@).take(i + 1) =~= tabs_view(v@).take(i as int).push(tabs_view(v@)[i as int]));
        i = i + 1;
    }
    assert(tabs_view(v@).take(i as int) =~= tabs_view(v@));
    r
}

/// The extensions (lower case) that render in a preview tab besides images.
pub open spec fn is_document_ext(ext: Seq<char>) -> bool {
    ||| ext == seq!['h', 't', 'm', 'l']
    ||| ext == seq!['h', 't', 'm']
    ||| ext == seq!['m', 'd']
    ||| ext == seq!['m', 'a', 'r', 'k', 'd', 'o', 'w', 'n']
    ||| ext == seq!['p', 'd', 'f']
}

/// HTML, Markdown, PDF and images can render in a preview tab.
pub open spec fn previewable(path: Seq<char>) -> bool {
    is_image_path(path) || match file_ext_of(path) {
        Some(e) => is_document_ext(lower(e)),
        None => false,
    }
}

/// The tabs of `s` of kind `k`, in order.
pub open spec fn of_kind(s: Seq<TabView>, k: TabKind) -> Seq<TabView>
    decreases s.len(),
{
    if s.len() == 0 {
        Seq::empty()
    } else if s.last().1 == k {
        of_kind(s.drop_last(), k).push(s.last())
    } else {
        of_kind(s.drop_last(), k)
    }
}

/// `acc` with `x` appended unless it is already there.
pub open spec fn push_unique(acc: Seq<TabView>, x: TabView) -> Seq<TabView> {
    if acc.contains(x) {
        acc
    } else {
        acc.push(x)
    }
}

/// `acc` followed by the tabs of `xs` it does not hold yet, in order.
pub open spec fn merge_of(acc: Seq<TabView>, xs: Seq<TabView>) -> Seq<TabView>
    decreases xs.len(),
{
    if xs.len() == 0 {
        acc
    } else {
        push_unique(merge_of(acc, xs.drop_last()), xs.last())
    }
}

/// `s` without any tab equal to `t`, in order.
pub open spec fn without(s: Seq<TabView>, t: TabView) -> Seq<TabView>
    decreases s.len(),
{
    if s.len() == 0 {
        Seq::empty()
    } else if s.last() == t {
        without(s.drop_last(), t)
    } else {
        without(s.drop_last(), t).push(s.last())
    }
}

/// `s` without the tabs whose path is `deleted` or lies below it, in order.
pub open spec fn not_below(s: Seq<TabView>, deleted: Seq<char>) -> Seq<TabView>
    decreases s.len(),
{
    if s.len() == 0 {
        Seq::empty()
    } else if is_at_or_below(s.last().0, deleted) {
        not_below(s.drop_last(), deleted)
    } else {
        not_below(s.drop_last(), deleted).push(s.last())
    }
}

/// Position of the first tab equal to `t` in `s`.
pub open spec fn first_index(s: Seq<TabView>, t: TabView) -> Option<int>
    decreases s.len(),
{
    if s.len() == 0 {
        None
    } else {
        match first_index(s.drop_last(), t) {
            Some(i) => Some(i),
            None => if s.last() == t {
                Some(s.len() - 1)
            } else {
                None
            },
        }
    }
}

pub proof fn lemma_first_index(s: Seq<TabView>, t: TabView)
    ensures
        match first_index(s, t) {
            Some(i) => 0 <= i < s.len() && s[i] == t && forall|j: int| 0 <= j < i ==> s[j] != t,
            None => !s.contains(t),
        },
    decreases s.len(),
{
    broadcast use vstd::seq_lib::group_seq_properties;
    if s.len() > 0 {
        let d = s.drop_last();
        lemma_first_index(d, t);
        assert(s =~= d.push(s.last()));
        match first_index(d, t) {
            Some(i) => {
                assert(s[i] == d[i]);
                assert forall|j: int| 0 <= j < i implies s[j] != t by {
                    assert(s[j] == d[j]);
                }
            },
            None => {
                assert forall|j: int| 0 <= j < s.len() - 1 implies s[j] != t by {
                    assert(s[j] == d[j]);
                    if s[j] == t {
                        assert(d.contains(t));
                    }
                }
            },
        }
    }
}

proof fn lemma_first_index_prefix(s: Seq<TabView>, t: TabView, m: int)
    requires
        0 <= m <= s.len(),
        first_index(s.take(m), t) is Some,
    ensures
        first_index(s, t) == first_index(s.take(m), t),
    decreases s.len(),
{
    if m < s.len() {
        assert(s.drop_last().take(m) =~= s.take(m));
        lemma_first_index_prefix(s.drop_last(), t, m);
    } else {
        assert(s.take(m) =~= s);
    }
}

/// Active tabs (left, right) after turning split on: the previous active tab
/// stays active in its pane; the other pane uses its first tab.
pub open spec fn after_split_of(
    previous: Option<TabView>,
    edit: Seq<TabView>,
    preview: Seq<TabView>,
) -> (Option<TabView>, Option<TabView>) {
    let left = match previous {
        Some(t) if t.1 == TabKind::Edit => Some(t),
        _ => if edit.len() > 0 {
            Some(edit[0])
        } else {
            None
        },
    };
    let right = match previous {
        Some(t) if t.1 == TabKind::Preview => Some(t),
        _ => if preview.len() > 0 {
            Some(preview[0])
        } else {
            None
        },
    };
    (left, right)
}

/// Active tab after turning split off: the left active tab if it remains,
/// else the first tab.
pub open spec fn after_merge_of(left_active: Option<TabView>, merged: Seq<TabView>) -> Option<TabView> {
    match left_active {
        Some(t) if merged.contains(t) => Some(t),
        _ => if merged.len() > 0 {
            Some(merged[0])
        } else {
            None
        },
    }
}

/// Split mode should create a preview tab for `path`: it is previewable and
/// no preview tab shows it yet.
pub open spec fn auto_preview_of(path: Seq<char>, preview_tabs: Seq<TabView>) -> bool {
    previewable(path) && !preview_tabs.contains((path, TabKind::Preview))
}

/// Tabs, active tab and whether the closed tab was active, after closing
/// `tab`: every copy of `tab` goes; when it was active, the tab that moved into
/// its place (else the last tab) becomes active.
pub open spec fn close_of(tabs: Seq<TabView>, active: Option<TabView>, tab: TabView) -> (
    Seq<TabView>,
    Option<TabView>,
    bool,
) {
    let remaining = without(tabs, tab);
    if active != Some(tab) {
        (remaining, active, false)
    } else {
        let next = match first_index(tabs, tab) {
            None => None,
            Some(i) => if i < remaining.len() {
                Some(remaining[i])
            } else if remaining.len() > 0 {
                Some(remaining.last())
            } else {
                None
            },
        };
        (remaining, next, true)
    }
}

/// Tabs and active tab after the entry `deleted` went away: its tabs and those
/// below it close; an active tab that closed hands over to the tab now at its
/// place (else the last one); an active tab that stays, stays active.
pub open spec fn forget_of(tabs: Seq<TabView>, active: Option<TabView>, deleted: Seq<char>) -> (
    Seq<TabView>,
    Option<TabView>,
) {
    let remaining = not_below(tabs, deleted);
    let next = match active {
        Some(t) if is_at_or_below(t.0, deleted) => match first_index(tabs, t) {
            None => None,
            Some(i) => if remaining.len() == 0 {
                None
            } else if i < remaining.len() {
                Some(remaining[i])
            } else {
                Some(remaining[remaining.len() - 1])
            },
        },
        Some(t) => if remaining.contains(t) {
            Some(t)
        } else {
            None
        },
        None => None,
    };
    (remaining, next)
}

pub proof fn lemma_of_kind(s: Seq<TabView>, k: TabKind)
    ensures
        forall|t: TabView| #[trigger] of_kind(s, k).contains(t) <==> (s.contains(t) && t.1 == k),
        of_kind(s, k).len() <= s.len(),
    decreases s.len(),
{
    broadcast use vstd::seq_lib::group_seq_properties;
    if s.len() > 0 {
        let d = s.drop_last();
        lemma_of_kind(d, k);
        assert(s =~= d.push(s.last()));
        let o = of_kind(d, k);
        assert(of_kind(s, k) == if s.last().1 == k { o.push(s.last()) } else { o });
        assert forall|t: TabView| of_kind(s, k).contains(t) <==> s.contains(t) && t.1 == k by {
            assert(s.contains(t) <==> d.contains(t) || t == s.last());
            if s.last().1 == k {
                assert(o.push(s.last()).contains(t) <==> o.contains(t) || t == s.last());
            }
        }
    } else {
        assert(of_kind(s, k) == Seq::<TabView>::empty());
        assert forall|t: TabView| of_kind(s, k).contains(t) <==> s.contains(t) && t.1 == k by {
            assert(!Seq::<TabView>::empty().contains(t));
            assert(!s.contains(t));
        }
    }
}

pub proof fn lemma_merge(acc: Seq<TabView>, xs: Seq<TabView>)
    ensures
        forall|t: TabView| merge_of(acc, xs).contains(t) <==> acc.contains(t) || xs.contains(t),
        acc.no_duplicates() ==> merge_of(acc, xs).no_duplicates(),
        merge_of(acc, xs).take(acc.len() as int) == acc,
        merge_of(acc, xs).len() >= acc.len(),
    decreases xs.len(),
{
    if xs.len() > 0 {
        let m = merge_of(acc, xs.drop_last());
        lemma_merge(acc, xs.drop_last());
        let x = xs.last();
        assert forall|t: TabView| merge_of(acc, xs).contains(t) <==> acc.contains(t) || xs.contains(t) by {
            if xs.contains(t) {
                let i = choose|i: int| 0 <= i < xs.len() && xs[i] == t;
                if i < xs.len() - 1 {
                    assert(xs.drop_last()[i] == t);
                }
            }
            if xs.drop_last().contains(t) {
                let i = choose|i: int| 0 <= i < xs.drop_last().len() && xs.drop_last()[i] == t;
                assert(xs[i] == t);
            }
            if !m.contains(x) {
                if m.push(x).contains(t) && t != x {
                    let i = choose|i: int| 0 <= i < m.push(x).len() && m.push(x)[i] == t;
                    assert(m[i] == t);
                }
                if m.contains(t) {
                    let i = choose|i: int| 0 <= i < m.len() && m[i] == t;
                    assert(m.push(x)[i] == t);
                }
                assert(m.push(x)[m.len() as int] == x);
            }
        }
        if !m.contains(x) {
            assert(m.push(x).take(acc.len() as int) =~= m.take(acc.len() as int));
            if acc.no_duplicates() {
                assert forall|i: int, j: int| 0 <= i < j < m.push(x).len() implies m.push(x)[i] != m.push(x)[j] by {
                    if j == m.len() {
                        assert(m[i] != x);
                    }
                }
            }
        }
    }
}

pub proof fn lemma_without(s: Seq<TabView>, t: TabView)
    ensures
        forall|u: TabView| #[trigger] without(s, t).contains(u) <==> s.contains(u) && u != t,
        without(s, t).len() <= s.len(),
        s.contains(t) ==> without(s, t).len() < s.len(),
    decreases s.len(),
{
    broadcast use vstd::seq_lib::lemma_seq_contains_after_push;
    if s.len() > 0 {
        let d = s.drop_last();
        lemma_without(d, t);
        assert(s =~= d.push(s.last()));
    }
}

pub proof fn lemma_not_below(s: Seq<TabView>, deleted: Seq<char>)
    ensures
        forall|u: TabView| #[trigger] not_below(s, deleted).contains(u) <==> s.contains(u) && !is_at_or_below(u.0, deleted),
        not_below(s, deleted).len() <= s.len(),
    decreases s.len(),
{
    broadcast use vstd::seq_lib::lemma_seq_contains_after_push;
    if s.len() > 0 {
        let d = s.drop_last();
        lemma_not_below(d, deleted);
        assert(s =~= d.push(s.last()));
    }
}

/// HTML, Markdown, PDF, and images can render in a preview tab.
pub fn is_previewable(path: &str) -> (r: bool)
    ensures
        r == previewable(path@),
{
    is_previewable_chars(&chars_of(path))
}

/// Whether `path` (as characters) can render in a preview tab.
pub fn is_previewable_chars(path: &Vec<char>) -> (r: bool)
    ensures
        r == previewable(path@),
{
    if is_image_chars(path) {
        return true;
    }
    match file_ext_chars(path) {
        None => false,
        Some(e) => {
            let ext = lower_of(&e);
            let html = vec!['h', 't', 'm', 'l'];
            assert(html@ =~= seq!['h', 't', 'm', 'l']);
            let htm = vec!['h', 't', 'm'];
            assert(htm@ =~= seq!['h', 't', 'm']);
            let md = vec!['m', 'd'];
            assert(md@ =~= seq!['m', 'd']);
            let markdown = vec!['m', 'a', 'r', 'k', 'd', 'o', 'w', 'n'];
            assert(markdown@ =~= seq!['m', 'a', 'r', 'k', 'd', 'o', 'w', 'n']);
            let pdf = vec!['p', 'd', 'f'];
            assert(pdf@ =~= seq!['p', 'd', 'f']);
            same_chars(&ext, &html) || same_chars(&ext, &htm) || same_chars(&ext, &md)
                || same_chars(&ext, &markdown) || same_chars(&ext, &pdf)
        },
    }
}

/// Whether `t` is in `tabs`.
pub fn tabs_contain(tabs: &[OpenTab], t: &OpenTab) -> (r: bool)
    ensures
        r == tabs_view(tabs@).contains(t@),
{
    let mut i: usize = 0;
    while i < tabs.len()
        invariant
            i <= tabs@.len(),
            forall|j: int| 0 <= j < i ==> tabs_view(tabs@)[j] != t@,
        decreases tabs.len() - i,
    {
        if same_tab(&tabs[i], t) {
            assert(tabs_view(tabs@)[i as int] == t@);
            return true;
        }
        i = i + 1;
    }
    false
}

/// Position of the first tab equal to `t`.
pub fn tab_position(tabs: &Vec<OpenTab>, t: &OpenTab) -> (r: Option<usize>)
    ensures
        match r {
            Some(i) => first_index(tabs_view(tabs@), t@) == Some(i as int),
            None => first_index(tabs_view(tabs@), t@) is None,
        },
{
    let ghost s = tabs_view(tabs@);
    let mut i: usize = 0;
    assert(s.take(0) =~= Seq::<TabView>::empty());
    while i < tabs.len()
        invariant
            i <= tabs@.len(),
            s == tabs_view(tabs@),
            first_index(s.take(i as int), t@) is None,
        decreases tabs.len() - i,
    {
        assert(s.take(i + 1).drop_last() =~= s.take(i as int));
        if same_tab(&tabs[i], t) {
            proof {
                lemma_first_index_prefix(s, t@, i + 1);
            }
            return Some(i);
        }
        i = i + 1;
    }
    assert(s.take(i as int) =~= s);
    None
}

/// Split a mixed tab bar into edit (left) and preview (right) lists.
pub fn partition_tabs(tabs: Vec<OpenTab>) -> (r: (Vec<OpenTab>, Vec<OpenTab>))
    ensures
        tabs_view(r.0@) == of_kind(tabs_view(tabs@), TabKind::Edit),
        tabs_view(r.1@) == of_kind(tabs_view(tabs@), TabKind::Preview),
{
    let mut edit: Vec<OpenTab> = Vec::new();
    let mut preview: Vec<OpenTab> = Vec::new();
    let mut i: usize = 0;
    while i < tabs.len()
        invariant
            i <= tabs@.len(),
            tabs_view(edit@) == of_kind(tabs_view(tabs@).take(i as int), TabKind::Edit),
            tabs_view(preview@) == of_kind(tabs_view(tabs@).take(i as int), TabKind::Preview),
        decreases tabs.len() - i,
    {
        let t = tabs[i].duplicate();
        let ghost before = tabs_view(tabs@).take(i as int);
        assert(tabs_view(tabs@).take(i + 1).drop_last() =~= before);
        match t.kind {
            TabKind::Edit => {
                edit.push(t);
                assert(tabs_view(edit@) =~= of_kind(tabs_view(tabs@).take(i + 1), TabKind::Edit));
                assert(tabs_view(preview@) =~= of_kind(tabs_view(tabs@).take(i + 1), TabKind::Preview));
            },
            TabKind::Preview => {
                preview.push(t);
                assert(tabs_view(edit@) =~= of_kind(tabs_view(tabs@).take(i + 1), TabKind::Edit));
                assert(tabs_view(preview@) =~= of_kind(tabs_view(tabs@).take(i + 1), TabKind::Preview));
            },
        }
        i = i + 1;
    }
    assert(tabs_view(tabs@).take(i as int) =~= tabs_view(tabs@));
    (edit, preview)
}

/// Appends `t` to `tabs` unless it is already there.
pub fn push_tab_unique(tabs: &mut Vec<OpenTab>, t: OpenTab)
    ensures
        tabs_view(final(tabs)@) == push_unique(tabs_view(old(tabs)@), t@),
{
    if !tabs_contain(tabs.as_slice(), &t) {
        let ghost before = tabs_view(tabs@);
        let ghost tv = t@;
        tabs.push(t);
        assert(tabs_view(tabs@) =~= before.push(tv));
    }
}

/// Put left-pane tabs back first, then right-pane tabs that are not duplicates.
pub fn merge_split_tabs(left: Vec<OpenTab>, right: Vec<OpenTab>) -> (r: Vec<OpenTab>)
    ensures
        tabs_view(r@) == merge_of(tabs_view(left@), tabs_view(right@)),
{
    let mut merged = left;
    let ghost start = tabs_view(merged@);
    let mut i: usize = 0;
    assert(tabs_view(right@).take(0) =~= Seq::<TabView>::empty());
    while i < right.len()
        invariant
            i <= right@.len(),
            tabs_view(merged@) == merge_of(start, tabs_view(right@).take(i as int)),
        decreases right.len() - i,
    {
        push_tab_unique(&mut merged, right[i].duplicate());
        assert(tabs_view(right@).take(i + 1).drop_last() =~= tabs_view(right@).take(i as int));
        i = i + 1;
    }
    assert(tabs_view(right@).take(i as int) =~= tabs_view(right@));
    merged
}

/// Left/right active tabs after turning split on.
///
/// The previous active tab stays in its pane; the other pane uses its first tab.
pub fn active_after_split(previous: Option<&OpenTab>, edit: &[OpenTab], preview: &[OpenTab]) -> (r: (
    Option<OpenTab>,
    Option<OpenTab>,
))
    ensures
        (opt_view(r.0), opt_view(r.1)) == after_split_of(
            match previous {
                Some(t) => Some(t@),
                None => None,
            },
            edit@.map_values(|t: OpenTab| t@),
            preview@.map_values(|t: OpenTab| t@),
        ),
{
    let left = match previous {
        Some(tab) if tab.kind == TabKind::Edit => Some(tab.duplicate()),
        _ => if edit.len() > 0 {
            Some(edit[0].duplicate())
        } else {
            None
        },
    };
    let right = match previous {
        Some(tab) if tab.kind == TabKind::Preview => Some(tab.duplicate()),
        _ => if preview.len() > 0 {
            Some(preview[0].duplicate())
        } else {
            None
        },
    };
    (left, right)
}

/// Active tab after turning split off: keep the left active tab if it remains.
pub fn active_after_merge(left_active: Option<&OpenTab>, merged: &[OpenTab]) -> (r: Option<OpenTab>)
    ensures
        opt_view(r) == after_merge_of(
            match left_active {
                Some(t) => Some(t@),
                None => None,
            },
            tabs_view(merged@),
        ),
{
    match left_active {
        Some(tab) if tabs_contain(merged, tab) => Some(tab.duplicate()),
        _ => if merged.len() > 0 {
            Some(merged[0].duplicate())
        } else {
            None
        },
    }
}

/// True when split mode should create a preview tab for `path`.
pub fn should_auto_open_preview(path: &str, preview_tabs: &[OpenTab]) -> (r: bool)
    ensures
        r == auto_preview_of(path@, tabs_view(preview_tabs@)),
{
    is_previewable(path) && !tabs_contain(preview_tabs, &OpenTab::new(path, TabKind::Preview))
}

/// Remove `tab` and pick the neighbor to the right (else left) when it was active.
pub fn close_tab_in(tabs: Vec<OpenTab>, active: Option<OpenTab>, tab: &OpenTab) -> (r: (
    Vec<OpenTab>,
    Option<OpenTab>,
    bool,
))
    ensures
        (tabs_view(r.0@), opt_view(r.1), r.2) == close_of(tabs_view(tabs@), opt_view(active), tab@),
{
    let idx = tab_position(&tabs, tab);
    let mut remaining: Vec<OpenTab> = Vec::new();
    let mut i: usize = 0;
    while i < tabs.len()
        invariant
            i <= tabs@.len(),
            tabs_view(remaining@) == without(tabs_view(tabs@).take(i as int), tab@),
        decreases tabs.len() - i,
    {
        assert(tabs_view(tabs@).take(i + 1).drop_last() =~= tabs_view(tabs@).take(i as int));
        if !same_tab(&tabs[i], tab) {
            remaining.push(tabs[i].duplicate());
            assert(tabs_view(remaining@) =~= without(tabs_view(tabs@).take(i + 1), tab@));
        }
        i = i + 1;
    }
    assert(tabs_view(tabs@).take(i as int) =~= tabs_view(tabs@));
    let was_active = match &active {
        Some(a) => same_tab(a, tab),
        None => false,
    };
    if !was_active {
        return (remaining, active, false);
    }
    let next = match idx {
        None => None,
        Some(i) => if i < remaining.len() {
            Some(remaining[i].duplicate())
        } else if remaining.len() > 0 {
            Some(remaining[remaining.len() - 1].duplicate())
        } else {
            None
        },
    };
    (remaining, next, true)
}

/// Drop tabs whose path is the deleted entry or lies below it.
pub fn forget_tabs(tabs: Vec<OpenTab>, active: Option<OpenTab>, deleted: &str) -> (r: (
    Vec<OpenTab>,
    Option<OpenTab>,
))
    ensures
        (tabs_view(r.0@), opt_view(r.1)) == forget_of(tabs_view(tabs@), opt_view(active), deleted@),
{
    let gone = chars_of(deleted);
    let closing_active = match &active {
        Some(t) => at_or_below_chars(&chars_of(t.path.as_str()), &gone),
        None => false,
    };
    let idx = match &active {
        Some(t) => tab_position(&tabs, t),
        None => None,
    };
    let mut remaining: Vec<OpenTab> = Vec::new();
    let mut i: usize = 0;
    while i < tabs.len()
        invariant
            i <= tabs@.len(),
            gone@ == deleted@,
            tabs_view(remaining@) == not_below(tabs_view(tabs@).take(i as int), deleted@),
        decreases tabs.len() - i,
    {
        assert(tabs_view(tabs@).take(i + 1).drop_last() =~= tabs_view(tabs@).take(i as int));
        if !at_or_below_chars(&chars_of(tabs[i].path.as_str()), &gone) {
            remaining.push(tabs[i].duplicate());
            assert(tabs_view(remaining@) =~= not_below(tabs_view(tabs@).take(i + 1), deleted@));
        }
        i = i + 1;
    }
    assert(tabs_view(tabs@).take(i as int) =~= tabs_view(tabs@));
    let next = if closing_active {
        match idx {
            None => None,
            Some(i) => if remaining.len() == 0 {
                None
            } else if i < remaining.len() {
                Some(remaining[i].duplicate())
            } else {
                Some(remaining[remaining.len() - 1].duplicate())
            },
        }
    } else {
        match active {
            Some(t) => if tabs_contain(remaining.as_slice(), &t) {
                Some(t)
            } else {
                None
            },
            None => None,
        }
    };
    (remaining, next)
}

/// Splitting a tab bar and merging it back keeps exactly the same tabs, and
/// keeps a bar without repeats free of repeats.
pub proof fn split_then_merge_keeps_tabs(tabs: Seq<TabView>)
    ensures
        forall|t: TabView| merge_of(of_kind(tabs, TabKind::Edit), of_kind(tabs, TabKind::Preview)).contains(t) <==> tabs.contains(t),
        tabs.no_duplicates() ==> merge_of(of_kind(tabs, TabKind::Edit), of_kind(tabs, TabKind::Preview)).no_duplicates(),
{
    lemma_of_kind(tabs, TabKind::Edit);
    lemma_of_kind(tabs, TabKind::Preview);
    lemma_merge(of_kind(tabs, TabKind::Edit), of_kind(tabs, TabKind::Preview));
    assert forall|t: TabView| merge_of(of_kind(tabs, TabKind::Edit), of_kind(tabs, TabKind::Preview)).contains(t) <==> tabs.contains(t) by {
        assert(of_kind(tabs, TabKind::Edit).contains(t) <==> (tabs.contains(t) && t.1 == TabKind::Edit));
        assert(of_kind(tabs, TabKind::Preview).contains(t) <==> (tabs.contains(t) && t.1 == TabKind::Preview));
    }
    if tabs.no_duplicates() {
        lemma_of_kind_no_dup(tabs, TabKind::Edit);
    }
}

proof fn lemma_of_kind_no_dup(s: Seq<TabView>, k: TabKind)
    requires
        s.no_duplicates(),
    ensures
        of_kind(s, k).no_duplicates(),
    decreases s.len(),
{
    if s.len() > 0 {
        let t = s.drop_last();
        assert(t.no_duplicates()) by {
            assert forall|i: int, j: int| 0 <= i < j < t.len() implies t[i] != t[j] by {
                assert(s[i] != s[j]);
            }
        }
        lemma_of_kind_no_dup(t, k);
        lemma_of_kind(t, k);
        if s.last().1 == k {
            let o = of_kind(t, k);
            assert(!t.contains(s.last())) by {
                if t.contains(s.last()) {
                    let i = choose|i: int| 0 <= i < t.len() && t[i] == s.last();
                    assert(s[i] == s[s.len() - 1]);
                }
            }
            assert forall|i: int, j: int| 0 <= i < j < o.push(s.last()).len() implies o.push(s.last())[i] != o.push(s.last())[j] by {
                if j == o.len() {
                    assert(o.contains(o[i]));
                }
            }
        }
    }
}

/// Closing a tab removes it from the bar; when it was the active tab, the new
/// active tab is one of the remaining tabs, and there is one whenever any tab
/// remains.
pub proof fn close_keeps_active_in_bar(tabs: Seq<TabView>, active: Option<TabView>, tab: TabView)
    requires
        tabs.contains(tab),
    ensures
        !close_of(tabs, active, tab).0.contains(tab),
        close_of(tabs, active, tab).2 ==> match close_of(tabs, active, tab).1 {
            Some(n) => close_of(tabs, active, tab).0.contains(n),
            None => close_of(tabs, active, tab).0.len() == 0,
        },
        forall|a: TabView| active == Some(a) && tabs.contains(a) && a != tab ==> close_of(tabs, active, tab).0.contains(a),
{
    broadcast use vstd::seq_lib::group_seq_properties;
    lemma_without(tabs, tab);
    lemma_first_index(tabs, tab);
    let r = without(tabs, tab);
    if active == Some(tab) {
        let i = first_index(tabs, tab)->0;
        if 0 <= i < r.len() {
            assert(r.contains(r[i]));
        } else if r.len() > 0 {
            assert(r[r.len() - 1] == r.last());
            assert(r.contains(r[r.len() - 1]));
        }
    }
}

/// Merging tabs none of which is already there, and none twice, appends them.
proof fn lemma_merge_fresh(acc: Seq<TabView>, xs: Seq<TabView>)
    requires
        xs.no_duplicates(),
        forall|t: TabView| #[trigger] xs.contains(t) ==> !acc.contains(t),
    ensures
        merge_of(acc, xs) == acc + xs,
    decreases xs.len(),
{
    if xs.len() == 0 {
        assert(acc + xs =~= acc);
    } else {
        let d = xs.drop_last();
        let x = xs.last();
        assert(d.no_duplicates()) by {
            assert forall|i: int, j: int| 0 <= i < j < d.len() implies d[i] != d[j] by {
                assert(xs[i] != xs[j]);
            }
        }
        assert forall|t: TabView| #[trigger] d.contains(t) implies !acc.contains(t) by {
            let i = choose|i: int| 0 <= i < d.len() && d[i] == t;
            assert(xs[i] == t);
            assert(xs.contains(t));
        }
        lemma_merge_fresh(acc, d);
        assert(xs.contains(x)) by {
            assert(xs[xs.len() - 1] == x);
        }
        assert(!(acc + d).contains(x)) by {
            if (acc + d).contains(x) {
                let i = choose|i: int| 0 <= i < (acc + d).len() && (acc + d)[i] == x;
                if i < acc.len() {
                    assert(acc[i] == x);
                } else {
                    assert(d[i - acc.len()] == x);
                    assert(xs[i - acc.len()] == xs[xs.len() - 1]);
                }
            }
        }
        assert((acc + d).push(x) =~= acc + xs);
    }
}

/// Splitting a tab bar without repeats and merging it back gives its edit
/// tabs followed by its preview tabs, each group in its order in the bar.
pub proof fn split_then_merge_orders_edit_before_preview(tabs: Seq<TabView>)
    requires
        tabs.no_duplicates(),
    ensures
        merge_of(of_kind(tabs, TabKind::Edit), of_kind(tabs, TabKind::Preview))
            == of_kind(tabs, TabKind::Edit) + of_kind(tabs, TabKind::Preview),
{
    let e = of_kind(tabs, TabKind::Edit);
    let p = of_kind(tabs, TabKind::Preview);
    lemma_of_kind(tabs, TabKind::Edit);
    lemma_of_kind(tabs, TabKind::Preview);
    lemma_of_kind_no_dup(tabs, TabKind::Preview);
    assert forall|t: TabView| #[trigger] p.contains(t) implies !e.contains(t) by {
        assert(p.contains(t) ==> t.1 == TabKind::Preview);
    }
    lemma_merge_fresh(e, p);
}

/// The tabs left after a delete are the tabs of the bar that are not at or
/// below the deleted entry, in their order in the bar.
proof fn lemma_not_below_is_filter(s: Seq<TabView>, deleted: Seq<char>)
    ensures
        not_below(s, deleted) == s.filter(|t: TabView| !is_at_or_below(t.0, deleted)),
    decreases s.len(),
{
    reveal(Seq::filter);
    if s.len() > 0 {
        lemma_not_below_is_filter(s.drop_last(), deleted);
    }
}

/// Deleting an entry closes exactly the tabs at or below it and keeps the
/// others in order. When the active tab, first found at index `i` of the bar,
/// closes, the tab now at index `i` of what remains becomes active (the last
/// one when fewer remain), and none when nothing remains; an active tab that
/// is not at or below the entry stays active.
pub proof fn deleting_hands_the_active_tab_to_its_place(
    tabs: Seq<TabView>,
    active: TabView,
    deleted: Seq<char>,
    i: int,
)
    requires
        0 <= i < tabs.len(),
        tabs[i] == active,
        forall|j: int| 0 <= j < i ==> tabs[j] != active,
    ensures
        forget_of(tabs, Some(active), deleted).0 == tabs.filter(|t: TabView| !is_at_or_below(t.0, deleted)),
        forall|t: TabView| #[trigger] forget_of(tabs, Some(active), deleted).0.contains(t)
            <==> tabs.contains(t) && !is_at_or_below(t.0, deleted),
        is_at_or_below(active.0, deleted) ==> ({
            let rest = forget_of(tabs, Some(active), deleted).0;
            forget_of(tabs, Some(active), deleted).1 == if rest.len() == 0 {
                None
            } else if i < rest.len() {
                Some(rest[i])
            } else {
                Some(rest[rest.len() - 1])
            }
        }),
        !is_at_or_below(active.0, deleted) ==> forget_of(tabs, Some(active), deleted).1 == Some(active),
{
    lemma_not_below_is_filter(tabs, deleted);
    lemma_not_below(tabs, deleted);
    lemma_first_index(tabs, active);
    match first_index(tabs, active) {
        Some(k) => {
            if k < i {
                assert(tabs[k] != active);
            }
            if i < k {
                assert(tabs[i] != active);
            }
            assert(k == i);
        },
        None => {
            assert(tabs.contains(active)) by {
                assert(tabs[i] == active);
            }
        },
    }
    assert(tabs.contains(active)) by {
        assert(tabs[i] == active);
    }
}

} // verus!
