use deck_gen_wasm::highlight::{can_highlight, highlight_html, syntax_name_for_ext};
use deck_gen_wasm::icons::{icon_kind, IconKind};
use deck_gen_wasm::menus::{commands_for, EntryKind};
use deck_gen_wasm::preview::{html_escape, image_mime, markdown_to_html, pane_body, preview_kind, tab_label, PaneBody, PreviewKind};
use deck_gen_wasm::split::{OpenTab, TabKind};

#[test]
fn highlights_json_and_skips_pdf() {
    assert!(can_highlight("decks/data.json5"));
    assert!(can_highlight("readme.md"));
    assert!(!can_highlight("notes.txt"));
    assert!(!can_highlight("print.pdf"));
    let html = highlight_html("x.json", r#"{ "a": 1 }"#).expect("json highlight");
    assert!(html.contains("string") || html.contains("constant") || html.contains("span"));
}

#[test]
fn highlight_without_extension_is_none() {
    assert_eq!(highlight_html("LICENSE", "text"), None);
    assert_eq!(syntax_name_for_ext("txt"), None);
}

#[test]
fn image_names_get_image_kind() {
    assert_eq!(icon_kind("logo.png"), Some(IconKind::Image));
    assert_eq!(icon_kind("photo.JPG"), Some(IconKind::Image));
    assert_eq!(icon_kind("photo.jpeg"), Some(IconKind::Image));
    assert_eq!(icon_kind("app.icon"), Some(IconKind::Image));
    assert_eq!(icon_kind("app.ico"), Some(IconKind::Image));
    assert_eq!(icon_kind("help.md"), Some(IconKind::Md));
    assert_eq!(icon_kind("face.pdf"), Some(IconKind::Pdf));
    assert_eq!(icon_kind("notes.txt"), None);
    assert_eq!(icon_kind("LICENSE"), None);
}

#[test]
fn preview_menu_for_html_md_pdf_and_images() {
    assert_eq!(
        commands_for(EntryKind::File, "games/a/preview.html")[0].id,
        "preview"
    );
    assert_eq!(commands_for(EntryKind::File, "help.MD")[0].id, "preview");
    assert_eq!(
        commands_for(EntryKind::File, "games/a/face.pdf")[0].id,
        "preview"
    );
    assert_eq!(
        commands_for(EntryKind::File, "games/a/data.json5")[0].id,
        "rename"
    );
    assert_eq!(
        commands_for(EntryKind::File, "games/a/logo.png")[0].id,
        "preview"
    );
    assert_eq!(
        commands_for(EntryKind::File, "games/a/mark.JPG")[0].id,
        "preview"
    );
    assert_eq!(
        commands_for(EntryKind::File, "games/a/app.icon")[0].id,
        "preview"
    );
    assert_eq!(
        commands_for(EntryKind::Folder, "games/a")[0].id,
        "load_files"
    );
    assert_eq!(
        commands_for(EntryKind::Folder, "games/a")[0].label,
        "load file(s)"
    );
    let file_ids: Vec<_> = commands_for(EntryKind::File, "games/a/data.json5")
        .iter()
        .map(|c| c.id)
        .collect();
    assert!(file_ids.contains(&"copy"));
    assert!(!file_ids.contains(&"past"));
    let folder_ids: Vec<_> = commands_for(EntryKind::Folder, "games/a")
        .iter()
        .map(|c| c.id)
        .collect();
    assert!(folder_ids.contains(&"copy"));
    assert!(folder_ids.contains(&"past"));
    assert_eq!(
        commands_for(EntryKind::File, "games/a/data.json5")
            .iter()
            .find(|c| c.id == "copy")
            .map(|c| c.label),
        Some("copy")
    );
    assert_eq!(
        commands_for(EntryKind::Folder, "games/a")
            .iter()
            .find(|c| c.id == "past")
            .map(|c| c.label),
        Some("past")
    );
}

#[test]
fn markdown_renders_headings_and_tables() {
    let html = markdown_to_html("# Title\n\n| a | b |\n|---|---|\n| 1 | 2 |\n\n~~old~~\n");
    assert!(html.contains("<h1>Title</h1>"));
    assert!(html.contains("<table>"));
    assert!(html.contains("<del>old</del>"));
}

#[test]
fn escapes_html_special_characters() {
    assert_eq!(html_escape("<a href=\"x\">&</a>"), "&lt;a href=\"x\"&gt;&amp;&lt;/a&gt;");
}

#[test]
fn preview_kinds_and_mimes() {
    assert_eq!(preview_kind("a/b.HTML"), PreviewKind::Html);
    assert_eq!(preview_kind("a/b.md"), PreviewKind::Markdown);
    assert_eq!(preview_kind("a/b.pdf"), PreviewKind::Pdf);
    assert_eq!(preview_kind("a/b.png"), PreviewKind::Image);
    assert_eq!(image_mime("a/b.png"), "image/png");
}

#[test]
fn tab_labels_and_pane_bodies() {
    let tab = OpenTab { path: "games/a/help.md".to_string(), kind: TabKind::Preview };
    let label = tab_label(&tab);
    assert!(label.contains("help.md"));
    assert_eq!(pane_body(None, false), PaneBody::Empty);
}
