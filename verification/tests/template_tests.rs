use deck_gen_wasm::pathset::PathSet;
use deck_gen_wasm::template::{
    finish_files, finish_game_files, has_both_components, has_game_components,
    install_fetched_game, retarget_game_id, unique_game_folder,
};
use deck_gen_wasm::vfs::Vfs;

fn set_of(paths: &[&str]) -> PathSet {
    PathSet::from_paths(paths.iter().map(|p| p.to_string()).collect())
}

fn file(path: &str, content: &str) -> (String, String) {
    (path.to_string(), content.to_string())
}

#[test]
fn first_folder_is_new_game() {
    assert_eq!(unique_game_folder(&PathSet::new(), "new-game"), "new-game");
}

#[test]
fn suffixes_when_taken() {
    let taken = set_of(&["new-game", "new-game-1"]);
    assert_eq!(unique_game_folder(&taken, "new-game"), "new-game-2");
}

#[test]
fn suffix_counts_past_nine() {
    let names: Vec<String> = std::iter::once("g".to_string())
        .chain((1..=10).map(|n| format!("g-{n}")))
        .collect();
    let taken = PathSet::from_paths(names);
    assert_eq!(unique_game_folder(&taken, "g"), "g-11");
}

#[test]
fn other_names_do_not_block_the_base() {
    let taken = set_of(&["new-game-1", "monopoly-2.0"]);
    assert_eq!(unique_game_folder(&taken, "new-game"), "new-game");
}

#[test]
fn retargets_deck_name() {
    let src = r#""name": "new-game.deck-1st""#;
    assert_eq!(
        retarget_game_id(src, "new-game", "new-game-1"),
        r#""name": "new-game-1.deck-1st""#
    );
}

#[test]
fn retarget_to_same_game_keeps_text() {
    let src = r#""name": "new-game.deck-1st""#;
    assert_eq!(retarget_game_id(src, "new-game", "new-game"), src);
}

#[test]
fn retarget_replaces_every_deck_name_but_not_bare_words() {
    let src = r#"["g.a", "g.b", "g", "xg.c"]"#;
    assert_eq!(
        retarget_game_id(src, "g", "h-1"),
        r#"["h-1.a", "h-1.b", "g", "xg.c"]"#
    );
}

#[test]
fn both_components_are_conf_and_folder() {
    assert!(!has_both_components(&[]));
    assert!(!has_both_components(&[(
        "games/conf.json5".to_string(),
        String::new()
    )]));
    assert!(!has_both_components(&[(
        "games/new-game/help.md".into(),
        String::new()
    )]));
    assert!(has_both_components(&[
        ("games/conf.json5".to_string(), String::new()),
        ("games/new-game/help.md".into(), String::new()),
    ]));
}

#[test]
fn game_components_use_the_game_folder() {
    let files = vec![file("games/conf.json5", ""), file("games/monopoly/decks.json5", "")];
    assert!(has_game_components("monopoly", &files));
    assert!(!has_game_components("new-game", &files));
    assert!(!has_game_components("mono", &files));
}

#[test]
fn finish_game_files_reports_missing_parts() {
    let files = vec![file("games/monopoly/decks.json5", "x")];
    assert_eq!(
        finish_game_files("monopoly", files),
        Err("missing games/monopoly or games/conf.json5".to_string())
    );
    let files = vec![file("games/conf.json5", "c"), file("games/monopoly/decks.json5", "x")];
    assert_eq!(finish_game_files("monopoly", files.clone()), Ok(files));
}

#[test]
fn finish_files_reports_missing_parts() {
    assert_eq!(
        finish_files(vec![file("games/conf.json5", "c")]),
        Err("missing games/new-game or games/conf.json5".to_string())
    );
    let files = vec![file("games/conf.json5", "c"), file("games/new-game/a.md", "x")];
    assert_eq!(finish_files(files.clone()), Ok(files));
}

#[test]
fn install_writes_game_under_free_folder() {
    let mut vfs = Vfs::default();
    vfs.put_file("games/new-game/old.md", "kept".into()).unwrap();
    let files = vec![
        file("games/conf.json5", "shared"),
        file("games/new-game/decks.json5", r#"{"name": "new-game.deck"}"#),
        file("games/new-game/", "skipped"),
        file("other/readme.md", "skipped"),
    ];
    let installed = install_fetched_game(&mut vfs, "new-game", &files, "GitHub");
    assert_eq!(installed.folder, "new-game-1");
    assert_eq!(installed.source, "GitHub");
    assert_eq!(
        vfs.read_file("games/new-game-1/decks.json5"),
        Some(r#"{"name": "new-game-1.deck"}"#)
    );
    assert_eq!(vfs.read_file("games/conf.json5"), Some("shared"));
    assert_eq!(vfs.read_file("games/new-game/old.md"), Some("kept"));
    assert_eq!(vfs.read_file("other/readme.md"), None);
    assert!(!vfs.is_file("games/new-game-1/"));
}

#[test]
fn install_keeps_existing_games_conf() {
    let mut vfs = Vfs::default();
    vfs.put_file("games/conf.json5", "mine".into()).unwrap();
    let files = vec![
        file("games/conf.json5", "theirs"),
        file("games/monopoly/a.md", "a"),
    ];
    let installed = install_fetched_game(&mut vfs, "monopoly", &files, "GitHub");
    assert_eq!(installed.folder, "monopoly");
    assert_eq!(vfs.read_file("games/conf.json5"), Some("mine"));
    assert_eq!(vfs.read_file("games/monopoly/a.md"), Some("a"));
}

#[test]
fn the_first_free_name_does_not_depend_on_the_call() {
    let taken = set_of(&["g", "g-2"]);
    let a = unique_game_folder(&taken, "g");
    let b = unique_game_folder(&taken, "g");
    assert_eq!(a, "g-1");
    assert_eq!(a, b);
}

#[test]
fn retarget_without_deck_names_keeps_text() {
    let src = r#"{"title": "new game", "id": "new-game"}"#;
    assert_eq!(retarget_game_id(src, "new-game", "new-game-3"), src);
}
