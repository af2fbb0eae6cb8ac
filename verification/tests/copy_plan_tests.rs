use deck_gen_wasm::copy_plan::{apply_copy_command, row_looks_selected, top_level_paths};
use deck_gen_wasm::pathset::PathSet;

fn set_of(paths: &[&str]) -> PathSet {
    PathSet::from_paths(paths.iter().map(|p| p.to_string()).collect())
}

#[test]
fn folder_selection_covers_children() {
    let selected = set_of(&["games/a"]);
    assert!(row_looks_selected("games/a", &selected));
    assert!(row_looks_selected("games/a/b.txt", &selected));
    assert!(row_looks_selected("games/a/n/c.txt", &selected));
    assert!(!row_looks_selected("games/b", &selected));
    assert!(!row_looks_selected("games", &selected));
}

#[test]
fn toggle_copy_on_single_path() {
    let selected = PathSet::new();
    let planned = PathSet::new();
    let planned = apply_copy_command("a/b", &selected, &planned);
    assert!(planned.contains("a/b"));
    let planned = apply_copy_command("a/b", &selected, &planned);
    assert!(planned.is_empty());
}

#[test]
fn copy_marks_whole_selection() {
    let selected = set_of(&["a", "b"]);
    let planned = apply_copy_command("a", &selected, &PathSet::new());
    assert!(planned.contains("a"));
    assert!(planned.contains("b"));
    let planned = apply_copy_command("a", &selected, &planned);
    assert_eq!(planned.len(), 2);
}

#[test]
fn single_selected_item_still_toggles() {
    let selected = set_of(&["a"]);
    let planned = apply_copy_command("a", &selected, &PathSet::new());
    assert_eq!(planned.len(), 1);
    let planned = apply_copy_command("a", &selected, &planned);
    assert!(planned.is_empty());
}

#[test]
fn top_level_drops_nested() {
    let paths = set_of(&["games/a", "games/a/b", "games/c"]);
    assert_eq!(
        top_level_paths(&paths),
        vec!["games/a".to_string(), "games/c".to_string()]
    );
}

#[test]
fn paste_list_is_stable_and_covers_the_plan() {
    let mut plan = PathSet::new();
    for p in ["games/a", "games/a/x.md", "games/b/c", "games/b/c/d/e", "notes.txt"] {
        plan.insert(p.to_string());
    }
    let top = top_level_paths(&plan);
    assert_eq!(top, vec!["games/a".to_string(), "games/b/c".to_string(), "notes.txt".to_string()]);
    let again = PathSet::from_paths(top.clone());
    assert_eq!(top_level_paths(&again), top);
    for p in plan.to_vec() {
        assert!(row_looks_selected(&p, &again));
    }
}
