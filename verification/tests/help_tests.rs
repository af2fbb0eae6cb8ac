use deck_gen_wasm::help::{install_user_help, looks_like_html_document, needs_install, should_open_preview};
use deck_gen_wasm::vfs::Vfs;

const HELP: &str = "# Deck generator (browser)\n\nUse the explorer on the left.\n";

#[test]
fn installs_at_workspace_root() {
    let mut vfs = Vfs::default();
    install_user_help(&mut vfs, HELP.to_string()).unwrap();
    assert!(vfs
        .read_file("user-help.md")
        .is_some_and(|body| body.starts_with('#')));
    assert_eq!(
        vfs.read_file(deck_gen_wasm::help::help_file_path()),
        vfs.read_file("user-help.md")
    );
    assert!(!vfs.is_dir("deck_gen_wasm"));
    assert!(!needs_install(&vfs));
}

#[test]
fn install_when_missing() {
    let vfs = Vfs::default();
    assert!(needs_install(&vfs));
}

#[test]
fn html_shell_is_not_help() {
    assert!(looks_like_html_document(
        "<!DOCTYPE html>\n<html lang=\"en\">"
    ));
    assert!(looks_like_html_document("  <html>"));
    assert!(!looks_like_html_document("# Deck generator (browser)\n"));
    assert!(!looks_like_html_document(HELP));
}

#[test]
fn reinstall_if_stored_help_is_html() {
    let mut vfs = Vfs::default();
    vfs.put_file("user-help.md", "<!DOCTYPE html>\n<html></html>".into())
        .unwrap();
    assert!(needs_install(&vfs));
}

#[test]
fn html_detection_ignores_case_and_leading_space() {
    assert!(looks_like_html_document("\n\t <HTML>"));
    assert!(!looks_like_html_document("<htm"));
    assert!(!looks_like_html_document(""));
}

#[test]
fn preview_opens_only_without_tabs() {
    assert!(should_open_preview(0));
    assert!(!should_open_preview(2));
}
