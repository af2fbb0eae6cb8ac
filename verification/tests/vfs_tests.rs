use deck_gen_wasm::vfs::Vfs;

#[test]
fn read_after_write_and_overwrite() {
    let mut vfs = Vfs::new();
    assert_eq!(vfs.put_file("", "x".into()), Err("empty path".to_string()));
    vfs.put_file("a/b.txt", "one".into()).unwrap();
    vfs.put_file("a/b.txt", "two".into()).unwrap();
    assert_eq!(vfs.read_file("a/b.txt"), Some("two"));
    assert!(vfs.is_dir("a"));
    assert!(!vfs.is_dir("a/b.txt"));
    assert!(vfs.has_entry("a"));
    assert!(!vfs.has_entry("b"));
}

#[test]
fn names_below_lists_files_and_folders() {
    let mut vfs = Vfs::new();
    vfs.put_file("games/x/y.md", "".into()).unwrap();
    vfs.put_file("games/conf.json5", "".into()).unwrap();
    let names = vfs.names_below("games");
    assert!(names.contains("x"));
    assert!(names.contains("x/y.md"));
    assert!(names.contains("conf.json5"));
    assert_eq!(names.len(), 3);
}

#[test]
fn remove_takes_folder_contents() {
    let mut vfs = Vfs::new();
    vfs.put_file("d/a", "1".into()).unwrap();
    vfs.put_file("d/e/b", "2".into()).unwrap();
    vfs.put_file("dd", "3".into()).unwrap();
    assert!(vfs.remove("d").is_ok());
    assert!(!vfs.has_entry("d"));
    assert_eq!(vfs.read_file("dd"), Some("3"));
    assert_eq!(vfs.remove("d"), Err("nothing at d".to_string()));
}

#[test]
fn create_file_refuses_existing_entries() {
    let mut vfs = Vfs::new();
    assert!(vfs.create_file("x.md").is_ok());
    assert_eq!(vfs.read_file("x.md"), Some(""));
    assert_eq!(vfs.create_file("x.md"), Err("x.md already exists".to_string()));
    assert_eq!(vfs.create_file(""), Err("empty path".to_string()));
}

#[test]
fn copy_entries_into_folder_keeps_names() {
    let mut vfs = Vfs::new();
    vfs.put_file("a/x.md", "x".into()).unwrap();
    vfs.put_file("a/sub/y.md", "y".into()).unwrap();
    vfs.put_file("b/keep.md", "k".into()).unwrap();
    vfs.put_file("top.md", "t".into()).unwrap();
    let sources = vec!["a".to_string(), "top.md".to_string()];
    assert_eq!(vfs.copy_entries_into(&sources, "b"), Ok(2));
    assert_eq!(vfs.read_file("b/a/x.md"), Some("x"));
    assert_eq!(vfs.read_file("b/a/sub/y.md"), Some("y"));
    assert_eq!(vfs.read_file("b/top.md"), Some("t"));
    assert_eq!(vfs.read_file("a/x.md"), Some("x"));
    assert_eq!(vfs.copy_entries_into(&vec!["zz".to_string()], "b"), Err("nothing at zz".to_string()));
    assert_eq!(vfs.copy_entries_into(&sources, "top.md"), Err("'top.md' is not a folder".to_string()));
}

#[test]
fn copying_a_folder_into_itself_copies_the_old_contents_once() {
    let mut vfs = Vfs::new();
    vfs.put_file("a/x.md", "x".into()).unwrap();
    assert_eq!(vfs.copy_entries_into(&vec!["a".to_string()], "a"), Ok(1));
    assert_eq!(vfs.read_file("a/a/x.md"), Some("x"));
    assert!(!vfs.has_entry("a/a/a"));
}

#[test]
fn snapshot_and_restore_round_trip() {
    let mut vfs = Vfs::new();
    vfs.put_file("a.md", "1".into()).unwrap();
    vfs.put_file("b/c.md", "2".into()).unwrap();
    let back = Vfs::from_files(vfs.snapshot());
    assert_eq!(back.read_file("a.md"), Some("1"));
    assert_eq!(back.read_file("b/c.md"), Some("2"));
    assert_eq!(back.read_file("c.md"), None);
}

#[test]
fn created_folders_exist_while_empty() {
    let mut vfs = Vfs::new();
    assert!(vfs.mkdir("games/empty/inner").is_ok());
    assert!(vfs.is_dir("games/empty/inner"));
    assert!(vfs.is_dir("games/empty"));
    assert!(vfs.is_dir("games"));
    assert!(!vfs.is_file("games/empty"));
    assert_eq!(vfs.mkdir("games/empty"), Err("games/empty already exists".to_string()));
    assert_eq!(vfs.mkdir(""), Err("empty path".to_string()));
    assert_eq!(vfs.create_file("games"), Err("games already exists".to_string()));
    assert_eq!(vfs.folder_list(), vec!["games/empty/inner".to_string()]);
    let names = vfs.names_below("games");
    assert!(names.contains("empty"));
    assert!(names.contains("empty/inner"));
    assert_eq!(vfs.children("games/empty"), vec![("inner".to_string(), true)]);
}

#[test]
fn removing_renaming_and_copying_carry_empty_folders() {
    let mut vfs = Vfs::new();
    vfs.mkdir("a/empty").unwrap();
    vfs.put_file("a/x.md", "x".into()).unwrap();
    vfs.mkdir("b").unwrap();
    assert_eq!(vfs.copy_entries_into(&vec!["a".to_string()], "b"), Ok(1));
    assert!(vfs.is_dir("b/a/empty"));
    assert_eq!(vfs.read_file("b/a/x.md"), Some("x"));
    assert_eq!(vfs.rename("a", "c"), Ok("c".to_string()));
    assert!(vfs.is_dir("c/empty"));
    assert!(!vfs.has_entry("a"));
    assert!(vfs.remove("c/empty").is_ok());
    assert!(!vfs.has_entry("c/empty"));
    assert!(vfs.is_file("c/x.md"));
    assert!(vfs.remove("b").is_ok());
    assert!(!vfs.has_entry("b"));
}

#[test]
fn creating_a_file_keeps_created_folders() {
    let mut vfs = Vfs::new();
    vfs.mkdir("empty").unwrap();
    vfs.create_file("a.txt").unwrap();
    assert_eq!(vfs.folder_list(), vec!["empty".to_string()]);
    assert_eq!(vfs.create_file("a.txt"), Err("a.txt already exists".to_string()));
    assert_eq!(vfs.read_file("a.txt"), Some(""));
}
