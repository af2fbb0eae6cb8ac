use deck_gen_wasm::github::{
    filter_game_folders_from_tree, game_blob_paths, raw_url, tree_url, GithubTree,
    GithubTreeItem,
};

fn make_tree(paths: &[(&str, &str)]) -> GithubTree {
    GithubTree {
        tree: paths
            .iter()
            .map(|(p, k)| GithubTreeItem {
                path: p.to_string(),
                kind: k.to_string(),
            })
            .collect(),
    }
}

#[test]
fn filters_only_top_level_game_trees() {
    let t = make_tree(&[
        ("games/new-game", "tree"),
        ("games/monopoly-2.0", "tree"),
        ("games/new-game/conf.json5", "blob"),
        ("games/monopoly-2.0/decks/foo", "tree"),
        ("other/stuff", "tree"),
        ("games/conf.json5", "blob"),
    ]);
    let folders = filter_game_folders_from_tree(&t);
    assert_eq!(folders, vec!["monopoly-2.0", "new-game"]);
}

#[test]
fn ignores_blobs_and_nested() {
    let t = make_tree(&[("games/foo/bar", "tree"), ("games/foo", "blob")]);
    let folders = filter_game_folders_from_tree(&t);
    assert!(folders.is_empty());
}

#[test]
fn folder_names_are_sorted_and_games_root_is_skipped() {
    let t = make_tree(&[("games/b", "tree"), ("games", "tree"), ("games/", "tree"), ("games/a", "tree")]);
    assert_eq!(filter_game_folders_from_tree(&t), vec!["a", "b"]);
}

#[test]
fn blob_paths_of_one_game_and_the_shared_conf() {
    let t = make_tree(&[
        ("games/conf.json5", "blob"),
        ("games/new-game", "tree"),
        ("games/new-game/decks.json5", "blob"),
        ("games/new-game-2/decks.json5", "blob"),
        ("games/monopoly/decks.json5", "blob"),
        ("README.md", "blob"),
    ]);
    assert_eq!(
        game_blob_paths(&t, "new-game"),
        vec!["games/conf.json5", "games/new-game/decks.json5"]
    );
}

#[test]
fn raw_and_tree_urls() {
    assert_eq!(
        raw_url("owner/repo", "main", "games/conf.json5"),
        "https://raw.githubusercontent.com/owner/repo/main/games/conf.json5"
    );
    assert_eq!(
        tree_url("owner/repo", "main"),
        "https://api.github.com/repos/owner/repo/git/trees/main?recursive=1"
    );
}
