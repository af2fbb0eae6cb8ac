use deck_gen_wasm::pathset::PathSet;
use deck_gen_wasm::split::{OpenTab, TabKind};
use deck_gen_wasm::template::InstalledGame;
use deck_gen_wasm::vfs::Vfs;
use deck_gen_wasm::workspace::{initial_tabs, EntryRequest, LoadStart, Workspace};

fn edit(path: &str) -> OpenTab {
    OpenTab { path: path.to_string(), kind: TabKind::Edit }
}

fn preview(path: &str) -> OpenTab {
    OpenTab { path: path.to_string(), kind: TabKind::Preview }
}

fn sample_vfs() -> Vfs {
    let mut vfs = Vfs::default();
    vfs.put_file("games/a/help.md", "# a".into()).unwrap();
    vfs.put_file("games/a/data.json5", "{}".into()).unwrap();
    vfs.put_file("games/b/face.html", "<p>b</p>".into()).unwrap();
    vfs.put_file("notes.txt", "n".into()).unwrap();
    vfs
}

fn fresh() -> Workspace {
    Workspace::from_session(sample_vfs(), None, PathSet::new())
}

#[test]
fn session_with_selected_file_opens_it() {
    let w = Workspace::from_session(sample_vfs(), Some("notes.txt".into()), PathSet::new());
    assert_eq!(w.tabs, vec![edit("notes.txt")]);
    assert_eq!(w.active_tab, Some(edit("notes.txt")));
    assert_eq!(w.selected.as_deref(), Some("notes.txt"));
    assert!(!w.loading);
    let (tabs, active) = initial_tabs(&sample_vfs(), &Some("games/a".to_string()));
    assert!(tabs.is_empty());
    assert_eq!(active, None);
}

#[test]
fn select_file_opens_edit_tab_and_folder_toggles() {
    let mut w = fresh();
    w.select("games/a/help.md".into(), false);
    assert_eq!(w.tabs, vec![edit("games/a/help.md")]);
    assert_eq!(w.active_tab, Some(edit("games/a/help.md")));
    w.select("games/a".into(), true);
    assert!(w.expanded.contains("games/a"));
    w.select("games/a".into(), true);
    assert!(!w.expanded.contains("games/a"));
    assert_eq!(w.selected.as_deref(), Some("games/a"));
    assert!(w.multi_selected.contains("games/a"));
    assert_eq!(w.multi_selected.len(), 1);
}

#[test]
fn opening_a_tab_twice_keeps_one_copy() {
    let mut w = fresh();
    w.open_tab(edit("notes.txt"));
    w.open_tab(edit("notes.txt"));
    assert_eq!(w.tabs, vec![edit("notes.txt")]);
}

#[test]
fn split_routes_previews_right_and_auto_opens() {
    let mut w = fresh();
    w.open_tab(edit("games/a/help.md"));
    w.open_tab(preview("games/b/face.html"));
    w.toggle_split_preview();
    assert!(w.split_preview);
    assert_eq!(w.tabs, vec![edit("games/a/help.md")]);
    assert_eq!(w.preview_tabs, vec![preview("games/b/face.html")]);
    assert_eq!(w.active_tab, Some(edit("games/a/help.md")));
    assert_eq!(w.active_preview_tab, Some(preview("games/b/face.html")));

    w.open_tab(edit("games/b/face.html"));
    assert_eq!(w.preview_tabs, vec![preview("games/b/face.html")]);
    w.open_tab(edit("games/a/help.md"));
    assert_eq!(w.preview_tabs, vec![preview("games/b/face.html"), preview("games/a/help.md")]);
    assert_eq!(w.active_preview_tab, Some(preview("games/a/help.md")));
    w.open_tab(edit("notes.txt"));
    assert_eq!(w.preview_tabs.len(), 2);

    w.toggle_split_preview();
    assert!(!w.split_preview);
    assert!(w.preview_tabs.is_empty());
    assert_eq!(w.active_preview_tab, None);
    assert_eq!(
        w.tabs,
        vec![
            edit("games/a/help.md"),
            edit("games/b/face.html"),
            edit("notes.txt"),
            preview("games/b/face.html"),
            preview("games/a/help.md"),
        ]
    );
    assert_eq!(w.active_tab, Some(edit("notes.txt")));
    assert_eq!(w.selected.as_deref(), Some("notes.txt"));
}

#[test]
fn close_active_tab_selects_neighbour() {
    let mut w = fresh();
    w.open_tab(edit("a"));
    w.open_tab(edit("b"));
    w.open_tab(edit("c"));
    w.activate_tab(edit("b"));
    assert_eq!(w.selected.as_deref(), Some("b"));
    w.close_tab(edit("b"));
    assert_eq!(w.tabs, vec![edit("a"), edit("c")]);
    assert_eq!(w.active_tab, Some(edit("c")));
    assert_eq!(w.selected.as_deref(), Some("c"));
    w.close_tab(edit("a"));
    assert_eq!(w.active_tab, Some(edit("c")));
    w.close_tab(edit("c"));
    assert_eq!(w.active_tab, None);
    assert_eq!(w.selected, None);
}

#[test]
fn delete_forgets_tabs_selection_and_expansion() {
    let mut w = fresh();
    w.select("games/a".into(), true);
    w.select("games/a/help.md".into(), false);
    w.open_tab(edit("notes.txt"));
    w.open_tab(edit("games/a/data.json5"));
    let r = w.run_entry_command("delete", "games/a");
    assert!(matches!(r, EntryRequest::Done));
    assert_eq!(w.status, "Deleted games/a");
    assert_eq!(w.tabs, vec![edit("notes.txt")]);
    assert_eq!(w.active_tab, Some(edit("notes.txt")));
    assert_eq!(w.selected.as_deref(), Some("notes.txt"));
    assert!(!w.expanded.contains("games/a"));
    assert!(!w.vfs.is_dir("games/a"));
    assert!(w.vfs.is_file("games/b/face.html"));

    w.run_entry_command("delete", "games/a");
    assert_eq!(w.status, "nothing at games/a");
}

#[test]
fn rename_follows_tabs_and_selection() {
    let mut w = fresh();
    w.select("games/a/help.md".into(), false);
    w.expand_ancestors("games/a/help.md");
    w.rewrite_paths("games/a", "games/z");
    assert_eq!(w.tabs, vec![edit("games/z/help.md")]);
    assert_eq!(w.active_tab, Some(edit("games/z/help.md")));
    assert_eq!(w.selected.as_deref(), Some("games/z/help.md"));
    assert!(w.expanded.contains("games/z"));
    assert!(w.expanded.contains("games"));
    assert!(!w.expanded.contains("games/a"));
    w.rewrite_paths("games/z", "games/a");
    assert_eq!(w.tabs, vec![edit("games/a/help.md")]);
}

#[test]
fn expand_ancestors_adds_every_folder() {
    let mut w = fresh();
    w.expand_ancestors("games/a/decks");
    assert!(w.expanded.contains("games"));
    assert!(w.expanded.contains("games/a"));
    assert!(w.expanded.contains("games/a/decks"));
    assert_eq!(w.expanded.len(), 3);
}

#[test]
fn create_file_goes_into_selected_folder() {
    let mut w = fresh();
    w.select("games/a".into(), true);
    assert_eq!(w.creation_parent(), "games/a");
    w.create_file("new.md");
    assert!(w.vfs.is_file("games/a/new.md"));
    assert_eq!(w.active_tab, Some(edit("games/a/new.md")));
    w.select("games/a/new.md".into(), false);
    assert_eq!(w.creation_parent(), "games/a");
    w.create_file("new.md");
    assert_eq!(w.status, "games/a/new.md already exists");
}

#[test]
fn copy_then_paste_reports_and_clears_plan() {
    let mut w = fresh();
    assert!(w.paste_sources().is_none());
    assert_eq!(w.status, "Nothing to paste");
    w.run_entry_command("copy", "games/a");
    w.run_entry_command("copy", "games/a/help.md");
    assert_eq!(w.paste_sources(), Some(vec!["games/a".to_string()]));
    let r = w.run_entry_command("past", "games/b");
    assert!(matches!(r, EntryRequest::Done));
    assert!(w.copy_planned.is_empty());
    assert_eq!(w.status, "Pasted 1 item(s) into games/b");
    assert!(w.expanded.contains("games/b"));
    assert_eq!(w.vfs.read_file("games/b/a/help.md"), Some("# a"));
    assert_eq!(w.vfs.read_file("games/a/help.md"), Some("# a"));
}

#[test]
fn paste_into_a_file_is_refused() {
    let mut w = fresh();
    w.run_entry_command("copy", "games/a");
    w.paste_into("notes.txt");
    assert_eq!(w.status, "'notes.txt' is not a folder");
    assert!(w.copy_planned.contains("games/a"));
}

#[test]
fn unknown_and_handed_back_commands() {
    let mut w = fresh();
    assert!(matches!(w.run_entry_command("rename", "notes.txt"), EntryRequest::Rename));
    assert!(matches!(w.run_entry_command("load_files", "games"), EntryRequest::LoadFiles));
    w.run_entry_command("fly", "notes.txt");
    assert_eq!(w.status, "Unknown command fly");
    w.run_entry_command("preview", "games/b/face.html");
    assert_eq!(w.active_tab, Some(preview("games/b/face.html")));
}

#[test]
fn long_actions_do_not_overlap() {
    let mut w = fresh();
    assert!(w.begin_action("Preparing HTML…"));
    assert_eq!(w.status, "Preparing HTML…");
    assert!(!w.begin_action("Preparing PDF…"));
    assert_eq!(w.status, "Preparing HTML…");
    w.prepared("HTML", 12);
    assert_eq!(w.status, "Prepared HTML for 12 decks");
    w.end_action();
    assert!(!w.loading);
}

#[test]
fn help_is_installed_and_previewed_once() {
    let mut w = Workspace::from_session(Vfs::default(), None, PathSet::new());
    w.ensure_user_help("# Help".to_string());
    assert_eq!(w.vfs.read_file("user-help.md"), Some("# Help"));
    assert_eq!(w.tabs, vec![preview("user-help.md")]);
    assert_eq!(w.status, "Opened user-help.md");
    w.ensure_user_help("# Other".to_string());
    assert_eq!(w.vfs.read_file("user-help.md"), Some("# Help"));
    assert_eq!(w.tabs.len(), 1);
}

#[test]
fn installed_game_is_selected_and_reported() {
    let mut w = fresh();
    let installed = InstalledGame { folder: "new-game-1".to_string(), source: "GitHub" };
    w.installed_game(&installed);
    assert_eq!(w.selected.as_deref(), Some("games/new-game-1"));
    assert!(w.expanded.contains("games"));
    assert_eq!(w.status, "Added games/new-game-1 from GitHub");
    w.loaded_files("games/a", 3);
    assert_eq!(w.status, "Loaded 3 file(s) into games/a");
    w.loaded_game_folder("cards");
    assert_eq!(w.status, "Loaded games/cards");
}

#[test]
fn clear_empties_everything() {
    let mut w = fresh();
    w.select("notes.txt".into(), false);
    w.clear();
    assert!(w.tabs.is_empty());
    assert_eq!(w.active_tab, None);
    assert_eq!(w.selected, None);
    assert!(!w.vfs.is_file("notes.txt"));
    assert_eq!(w.status, "Workspace cleared");
}

#[test]
fn rename_entry_moves_files_and_tabs() {
    let mut w = fresh();
    w.select("games/a/help.md".into(), false);
    w.rename_entry("games/a", "z");
    assert_eq!(w.status, "Renamed to games/z");
    assert_eq!(w.tabs, vec![edit("games/z/help.md")]);
    assert!(w.vfs.is_file("games/z/help.md"));
    w.rename_entry("games/z", "b");
    assert_eq!(w.status, "games/b already exists");
    assert_eq!(w.tabs, vec![edit("games/z/help.md")]);
}

#[test]
fn ctrl_click_toggles_multi_selection() {
    let mut w = fresh();
    w.select("games/a".into(), true);
    w.toggle_select("games/b".into());
    assert!(w.multi_selected.contains("games/a"));
    assert!(w.multi_selected.contains("games/b"));
    w.toggle_select("games/a".into());
    assert!(!w.multi_selected.contains("games/a"));
    assert_eq!(w.selected.as_deref(), Some("games/a"));
}

#[test]
fn drafts_are_stored_on_flush() {
    let mut w = fresh();
    w.set_draft("notes.txt".into(), "edited".into());
    assert!(w.draft_is_ahead("notes.txt"));
    assert!(!w.draft_is_ahead("games/a/help.md"));
    w.flush_draft();
    assert_eq!(w.vfs.read_file("notes.txt"), Some("edited"));
    assert!(!w.draft_is_ahead("notes.txt"));
    assert!(w.draft.is_none());
}

#[test]
fn files_load_only_into_folders() {
    let w = fresh();
    assert_eq!(w.load_target_error("games/a"), None);
    assert_eq!(
        w.load_target_error("notes.txt"),
        Some("'notes.txt' is not a folder".to_string())
    );
}

#[test]
fn selecting_a_folder_twice_restores_its_expansion() {
    let mut w = fresh();
    w.expand_ancestors("games/b");
    let before = w.expanded.to_vec();
    w.select("games/a".into(), true);
    w.select("games/a".into(), true);
    let mut after = w.expanded.to_vec();
    let mut expected = before.clone();
    after.sort();
    expected.sort();
    assert_eq!(after, expected);
}

#[test]
fn split_then_merge_keeps_every_tab() {
    let mut w = fresh();
    w.open_tab(edit("a.md"));
    w.open_tab(preview("a.md"));
    w.open_tab(edit("b.json5"));
    w.toggle_split_preview();
    w.toggle_split_preview();
    let mut tabs: Vec<(String, bool)> = w
        .tabs
        .iter()
        .map(|t| (t.path.clone(), t.kind == TabKind::Edit))
        .collect();
    tabs.sort();
    assert_eq!(
        tabs,
        vec![
            ("a.md".to_string(), false),
            ("a.md".to_string(), true),
            ("b.json5".to_string(), true),
        ]
    );
}

#[test]
fn create_folder_in_selected_folder() {
    let mut w = fresh();
    w.select("games".into(), true);
    w.create_folder("c");
    assert!(w.vfs.is_dir("games/c"));
    assert_eq!(w.selected.as_deref(), Some("games/c"));
    assert!(w.expanded.contains("games/c"));
    assert_eq!(w.status, "");
    w.create_folder("d");
    assert!(w.vfs.is_dir("games/c/d"));
    w.select("games".into(), true);
    w.create_folder("c");
    assert_eq!(w.status, "games/c already exists");
}

#[test]
fn draft_survives_tab_and_selection_changes() {
    let mut w = fresh();
    w.set_draft("notes.txt".into(), "typed".into());
    w.open_tab(edit("games/a/help.md"));
    w.select("games/b".into(), true);
    w.toggle_split_preview();
    w.set_status("busy".into());
    assert!(w.draft_is_ahead("notes.txt"));
    assert_eq!(w.draft, Some(("notes.txt".to_string(), "typed".to_string())));
}

#[test]
fn load_files_waits_for_a_running_action_then_checks_the_folder() {
    let mut w = fresh();
    assert!(w.begin_action("Working"));
    assert!(matches!(w.start_load_files("notes.txt"), LoadStart::Busy));
    assert_eq!(w.status, "Working");
    w.end_action();
    match w.start_load_files("notes.txt") {
        LoadStart::NotAFolder(m) => assert_eq!(m, "'notes.txt' is not a folder"),
        other => panic!("unexpected {:?}", other),
    }
    assert!(!w.loading);
    assert_eq!(w.status, "Working");
    assert!(matches!(w.start_load_files("games/a"), LoadStart::Started));
    assert!(w.loading);
    assert_eq!(w.status, "Select file(s)…");
    w.load_files_aborted();
    assert!(!w.loading);
    assert_eq!(w.status, "");
}

#[test]
fn deleting_and_renaming_move_created_folders() {
    let mut w = fresh();
    w.vfs.mkdir("games/a/empty").unwrap();
    w.vfs.mkdir("keep").unwrap();
    w.rename_entry("games/a", "z");
    assert_eq!(w.status, "Renamed to games/z");
    let mut folders = w.vfs.folder_list();
    folders.sort();
    assert_eq!(folders, vec!["games/z/empty".to_string(), "keep".to_string()]);
    w.rename_entry("games/z", "b");
    assert_eq!(w.status, "games/b already exists");
    w.rename_entry("games/z", "x/y");
    assert_eq!(w.status, "invalid name x/y");
    w.rename_entry("nowhere", "x");
    assert_eq!(w.status, "nothing at nowhere");
    w.delete_entry("games/z");
    assert_eq!(w.vfs.folder_list(), vec!["keep".to_string()]);
    w.clear();
    assert!(w.vfs.folder_list().is_empty());
}

#[test]
fn paste_reports_the_first_missing_source() {
    let mut w = fresh();
    w.run_entry_command("copy", "games/a");
    w.vfs.remove("games/a").unwrap();
    w.paste_into("games/b");
    assert_eq!(w.status, "nothing at games/a");
    assert!(w.copy_planned.contains("games/a"));
}

#[test]
fn right_click_keeps_a_multi_selection() {
    let mut w = fresh();
    w.select("notes.txt".into(), false);
    w.toggle_select("games/b".into());
    w.context_select("games/b".into(), true);
    assert!(w.multi_selected.contains("notes.txt"));
    assert!(w.multi_selected.contains("games/b"));
    assert_eq!(w.selected.as_deref(), Some("notes.txt"));
    w.context_select("games/a".into(), true);
    assert_eq!(w.selected.as_deref(), Some("games/a"));
    assert_eq!(w.multi_selected.to_vec(), vec!["games/a".to_string()]);
    assert!(w.expanded.contains("games/a"));
}

#[test]
fn toggling_split_twice_puts_edit_tabs_first() {
    let mut w = fresh();
    w.open_tab(preview("games/b/face.html"));
    w.open_tab(edit("notes.txt"));
    w.open_tab(preview("games/a/help.md"));
    w.open_tab(edit("games/a/data.json5"));
    w.activate_tab(preview("games/a/help.md"));
    w.toggle_split_preview();
    w.toggle_split_preview();
    assert!(!w.split_preview);
    assert!(w.preview_tabs.is_empty());
    assert_eq!(
        w.tabs,
        vec![
            edit("notes.txt"),
            edit("games/a/data.json5"),
            preview("games/b/face.html"),
            preview("games/a/help.md"),
        ]
    );
    assert_eq!(w.active_tab, Some(edit("notes.txt")));
}
