//! Right-click menu of explorer entries: which commands a file or folder gets.
//!
//! Files that can be rendered (HTML, Markdown, PDF, images) get a Preview row.
//! Folders get `load file(s)` to copy disk files into that folder, plus `copy`
//! and `past` for in-workspace copies; files get `copy` too.
use vstd::prelude::*;
use vstd::string::*;

use crate::split::{is_previewable, previewable};

verus! {

/// Whether the context menu was opened on a file or a folder.
#[derive(Clone, Copy, Debug, PartialEq, Eq, Structural)]
pub enum EntryKind {
    File,
    Folder,
}

/// One menu row: stable `id` (handled by the workspace) and visible label.
#[derive(Clone, Copy, Debug, PartialEq, Eq)]
pub struct MenuCommand {
    /// Command id (`rename`, `delete`, …).
    pub id: &'static str,
    /// Text shown in the menu.
    pub label: &'static str,
}

impl View for MenuCommand {
    type V = (Seq<char>, Seq<char>);

    open spec fn view(&self) -> (Seq<char>, Seq<char>) {
        (self.id@, self.label@)
    }
}

/// Command the user picked, plus the path it applies to.
#[derive(Clone, Debug, PartialEq, Eq)]
pub struct ChosenCommand {
    /// Command id from [`MenuCommand::id`].
    pub id: &'static str,
    /// Path the menu was opened on.
    pub path: String,
}

/// Rows of a file that cannot be previewed.
pub open spec fn file_rows() -> Seq<(Seq<char>, Seq<char>)> {
    seq![("rename"@, "Rename"@), ("delete"@, "Delete"@), ("copy"@, "copy"@)]
}

/// Rows of a file that can be previewed.
pub open spec fn file_preview_rows() -> Seq<(Seq<char>, Seq<char>)> {
    seq![("preview"@, "Preview"@), ("rename"@, "Rename"@), ("delete"@, "Delete"@), ("copy"@, "copy"@)]
}

/// Rows of a folder.
pub open spec fn folder_rows() -> Seq<(Seq<char>, Seq<char>)> {
    seq![
        ("load_files"@, "load file(s)"@),
        ("rename"@, "Rename"@),
        ("delete"@, "Delete"@),
        ("copy"@, "copy"@),
        ("past"@, "past"@),
    ]
}

/// The rows of the menu on an entry of `kind` at `path`.
pub open spec fn rows_for(kind: EntryKind, path: Seq<char>) -> Seq<(Seq<char>, Seq<char>)> {
    match kind {
        EntryKind::File => if previewable(path) {
            file_preview_rows()
        } else {
            file_rows()
        },
        EntryKind::Folder => folder_rows(),
    }
}

fn row(id: &'static str, label: &'static str) -> (c: MenuCommand)
    ensures
        c@ == (id@, label@),
{
    MenuCommand { id, label }
}

/// Command table for `kind` (files with html/md/pdf/images also get Preview).
pub fn commands_for(kind: EntryKind, path: &str) -> (r: Vec<MenuCommand>)
    ensures
        r@.map_values(|c: MenuCommand| c@) == rows_for(kind, path@),
{
    let mut r: Vec<MenuCommand> = Vec::new();
    match kind {
        EntryKind::File => {
            if is_previewable(path) {
                r.push(row("preview", "Preview"));
            }
            r.push(row("rename", "Rename"));
            r.push(row("delete", "Delete"));
            r.push(row("copy", "copy"));
        },
        EntryKind::Folder => {
            r.push(row("load_files", "load file(s)"));
            r.push(row("rename", "Rename"));
            r.push(row("delete", "Delete"));
            r.push(row("copy", "copy"));
            r.push(row("past", "past"));
        },
    }
    assert(r@.map_values(|c: MenuCommand| c@) =~= rows_for(kind, path@));
    r
}

} // verus!
