use deck_gen_wasm::split::{
    active_after_merge, active_after_split, close_tab_in, forget_tabs, is_previewable,
    merge_split_tabs, partition_tabs, should_auto_open_preview, OpenTab, TabKind,
};

fn edit(path: &str) -> OpenTab {
    OpenTab {
        path: path.to_string(),
        kind: TabKind::Edit,
    }
}

fn preview(path: &str) -> OpenTab {
    OpenTab {
        path: path.to_string(),
        kind: TabKind::Preview,
    }
}

#[test]
fn previewable_html_md_pdf_images_only() {
    assert!(is_previewable("a/preview.html"));
    assert!(is_previewable("help.MD"));
    assert!(is_previewable("doc.markdown"));
    assert!(is_previewable("a/face.pdf"));
    assert!(is_previewable("a/logo.png"));
    assert!(is_previewable("a/mark.JPG"));
    assert!(is_previewable("a/app.icon"));
    assert!(!is_previewable("a/data.json5"));
    assert!(!is_previewable("a/style.scss"));
}

#[test]
fn partition_keeps_order_in_each_pane() {
    let tabs = vec![
        edit("a.md"),
        preview("a.md"),
        edit("b.json5"),
        preview("c.html"),
    ];
    let (left, right) = partition_tabs(tabs);
    assert_eq!(left, vec![edit("a.md"), edit("b.json5")]);
    assert_eq!(right, vec![preview("a.md"), preview("c.html")]);
}

#[test]
fn merge_puts_left_first_then_right() {
    let merged = merge_split_tabs(
        vec![edit("a.md"), edit("b.json5")],
        vec![preview("a.md"), preview("c.html")],
    );
    assert_eq!(
        merged,
        vec![
            edit("a.md"),
            edit("b.json5"),
            preview("a.md"),
            preview("c.html"),
        ]
    );
}

#[test]
fn merge_skips_duplicate_tabs() {
    let tab = edit("a.md");
    let merged = merge_split_tabs(vec![tab.clone()], vec![tab.clone(), preview("a.md")]);
    assert_eq!(merged, vec![edit("a.md"), preview("a.md")]);
}

#[test]
fn split_keeps_edit_active_on_left() {
    let edit_a = edit("a.md");
    let preview_a = preview("a.md");
    let (left, right) =
        active_after_split(Some(&edit_a), &[edit_a.clone()], &[preview_a.clone()]);
    assert_eq!(left, Some(edit_a));
    assert_eq!(right, Some(preview_a));
}

#[test]
fn split_keeps_preview_active_on_right() {
    let edit_a = edit("a.md");
    let preview_a = preview("a.md");
    let (left, right) =
        active_after_split(Some(&preview_a), &[edit_a.clone()], &[preview_a.clone()]);
    assert_eq!(left, Some(edit_a));
    assert_eq!(right, Some(preview_a));
}

#[test]
fn split_empty_preview_pane_when_none_open() {
    let edit_a = edit("a.md");
    let (left, right) = active_after_split(Some(&edit_a), &[edit_a.clone()], &[]);
    assert_eq!(left, Some(edit_a));
    assert_eq!(right, None);
}

#[test]
fn merge_keeps_left_active() {
    let left_active = edit("b.json5");
    let merged = vec![edit("a.md"), left_active.clone(), preview("a.md")];
    assert_eq!(
        active_after_merge(Some(&left_active), &merged),
        Some(left_active)
    );
}

#[test]
fn auto_open_only_when_previewable_and_missing() {
    assert!(should_auto_open_preview("a.md", &[]));
    assert!(!should_auto_open_preview("a.json5", &[]));
    assert!(!should_auto_open_preview("a.md", &[preview("a.md")]));
    assert!(should_auto_open_preview("a.md", &[edit("a.md")]));
}

#[test]
fn close_active_picks_right_neighbor_then_left() {
    let a = edit("a");
    let b = edit("b");
    let c = edit("c");
    let tabs = vec![a.clone(), b.clone(), c.clone()];
    let (rest, next, was_active) = close_tab_in(tabs.clone(), Some(b.clone()), &b);
    assert!(was_active);
    assert_eq!(rest, vec![a.clone(), c.clone()]);
    assert_eq!(next, Some(c.clone()));

    let (rest, next, _) = close_tab_in(vec![a.clone(), b.clone()], Some(b.clone()), &b);
    assert_eq!(rest, vec![a.clone()]);
    assert_eq!(next, Some(a));

    let (rest, next, was_active) = close_tab_in(tabs, Some(c.clone()), &edit("a"));
    assert!(!was_active);
    assert_eq!(next, Some(c));
    assert_eq!(rest.len(), 2);
}

#[test]
fn forget_drops_path_and_children() {
    let tabs = vec![
        edit("games/a.md"),
        preview("games/a.md"),
        edit("games/b/c.html"),
        edit("other.md"),
    ];
    let (rest, next) = forget_tabs(tabs, Some(edit("games/a.md")), "games");
    assert_eq!(rest, vec![edit("other.md")]);
    assert_eq!(next, Some(edit("other.md")));
}

#[test]
fn forget_keeps_active_tab_outside_deleted_folder() {
    let tabs = vec![edit("games/a.md"), edit("other.md")];
    let (rest, next) = forget_tabs(tabs, Some(edit("other.md")), "games");
    assert_eq!(rest, vec![edit("other.md")]);
    assert_eq!(next, Some(edit("other.md")));
}

#[test]
fn forget_does_not_touch_sibling_with_common_prefix() {
    let tabs = vec![edit("games2/a.md"), edit("games/a.md")];
    let (rest, next) = forget_tabs(tabs, None, "games");
    assert_eq!(rest, vec![edit("games2/a.md")]);
    assert_eq!(next, None);
}

#[test]
fn close_last_tab_leaves_no_active() {
    let a = edit("a");
    let (rest, next, was_active) = close_tab_in(vec![a.clone()], Some(a.clone()), &a);
    assert!(was_active);
    assert!(rest.is_empty());
    assert_eq!(next, None);
}

#[test]
fn merge_without_left_active_takes_first_tab() {
    let merged = vec![edit("a.md"), preview("a.md")];
    assert_eq!(active_after_merge(Some(&edit("gone.md")), &merged), Some(edit("a.md")));
    assert_eq!(active_after_merge(None, &[]), None);
}
