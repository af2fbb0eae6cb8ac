use deck_gen_wasm::debounce::Debounce;
use deck_gen_wasm::explorer::flatten_tree;
use deck_gen_wasm::pathset::PathSet;
use deck_gen_wasm::vfs::Vfs;

fn sample() -> Vfs {
    let mut vfs = Vfs::new();
    vfs.put_file("games/b/face.html", "".into()).unwrap();
    vfs.put_file("games/a/help.md", "".into()).unwrap();
    vfs.put_file("notes.txt", "".into()).unwrap();
    vfs.put_file("games/a/decks/x.json5", "".into()).unwrap();
    vfs
}

fn rows(vfs: &Vfs, open: &[&str]) -> Vec<(String, usize, bool, bool)> {
    let expanded = PathSet::from_paths(open.iter().map(|p| p.to_string()).collect());
    flatten_tree(vfs, &expanded)
        .into_iter()
        .map(|r| (r.path, r.depth, r.is_dir, r.expanded))
        .collect()
}

#[test]
fn collapsed_tree_shows_root_children_in_name_order() {
    assert_eq!(
        rows(&sample(), &[]),
        vec![
            ("games".to_string(), 0, true, false),
            ("notes.txt".to_string(), 0, false, false),
        ]
    );
}

#[test]
fn expanded_folders_show_their_children_below_them() {
    assert_eq!(
        rows(&sample(), &["games", "games/a"]),
        vec![
            ("games".to_string(), 0, true, true),
            ("games/a".to_string(), 1, true, true),
            ("games/a/decks".to_string(), 2, true, false),
            ("games/a/help.md".to_string(), 2, false, false),
            ("games/b".to_string(), 1, true, false),
            ("notes.txt".to_string(), 0, false, false),
        ]
    );
}

#[test]
fn expanded_folder_under_collapsed_one_stays_hidden() {
    assert_eq!(rows(&sample(), &["games/a"]).len(), 2);
}

#[test]
fn children_lists_names_once_with_folder_flag() {
    let vfs = sample();
    let kids = vfs.children("games/a");
    assert_eq!(
        kids,
        vec![("decks".to_string(), true), ("help.md".to_string(), false)]
    );
    assert!(vfs.children("notes.txt").is_empty());
    assert_eq!(vfs.depth_bound_exec(), "games/a/decks/x.json5".len());
}

#[test]
fn rename_moves_a_folder_and_refuses_clashes() {
    let mut vfs = sample();
    assert_eq!(vfs.rename("games/a", "z"), Ok("games/z".to_string()));
    assert_eq!(vfs.read_file("games/z/help.md"), Some(""));
    assert!(vfs.is_file("games/z/decks/x.json5"));
    assert!(!vfs.has_entry("games/a"));
    assert_eq!(vfs.rename("games/z", "b"), Err("games/b already exists".to_string()));
    assert_eq!(vfs.rename("games/q", "b"), Err("nothing at games/q".to_string()));
    assert_eq!(vfs.rename("games/z", "x/y"), Err("invalid name x/y".to_string()));
    assert_eq!(vfs.rename("notes.txt", "notes.txt"), Ok("notes.txt".to_string()));
    assert_eq!(vfs.rename("notes.txt", "readme.md"), Ok("readme.md".to_string()));
    assert!(vfs.is_file("readme.md"));
}

#[test]
fn later_trigger_cancels_earlier_token() {
    let mut d = Debounce::new();
    let first = d.bump();
    assert!(d.is_current(first));
    let second = d.bump();
    assert!(!d.is_current(first));
    assert!(d.is_current(second));
    d.cancel();
    assert!(!d.is_current(second));
    let mut wrap = Debounce { generation: u32::MAX };
    assert_eq!(wrap.bump(), 0);
}

#[test]
fn empty_folders_show_in_the_tree() {
    let mut vfs = sample();
    vfs.mkdir("games/c").unwrap();
    assert_eq!(
        rows(&vfs, &["games"]),
        vec![
            ("games".to_string(), 0, true, true),
            ("games/a".to_string(), 1, true, false),
            ("games/b".to_string(), 1, true, false),
            ("games/c".to_string(), 1, true, false),
            ("notes.txt".to_string(), 0, false, false),
        ]
    );
}
