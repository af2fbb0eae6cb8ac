//! Bundled help Markdown copied into the workspace root.
//!
//! The help lives at `user-help.md`. The UI copies it when the path is missing
//! or when the stored body is an HTML document (a page shell stored by
//! mistake) rather than Markdown help.
use vstd::prelude::*;
use vstd::string::*;

use crate::text::{chars_of, lower, lower_of, starts_with, starts_with_exec, trim_start, trim_start_of};
use crate::vfs::Vfs;

verus! {

/// Workspace path of the help file.
pub open spec fn help_path() -> Seq<char> {
    "user-help.md"@
}

/// The start of `body` (after leading white space, in any letter case) is
/// `<!doctype html` or `<html`.
pub open spec fn looks_like_html_of(body: Seq<char>) -> bool {
    let t = lower(trim_start(body));
    starts_with(t, seq!['<', '!', 'd', 'o', 'c', 't', 'y', 'p', 'e', ' ', 'h', 't', 'm', 'l'])
        || starts_with(t, seq!['<', 'h', 't', 'm', 'l'])
}

/// The help still has to be copied: it is missing, or what is stored is HTML.
pub open spec fn needs_install_of(vfs: Vfs) -> bool {
    match vfs.file(help_path()) {
        Some(body) => looks_like_html_of(body),
        None => true,
    }
}

/// Workspace path of the help file.
pub fn help_file_path() -> (r: &'static str)
    ensures
        r@ == help_path(),
{
    "user-help.md"
}

/// True when the start of `body` is an HTML document, not Markdown help.
pub fn looks_like_html_document(body: &str) -> (r: bool)
    ensures
        r == looks_like_html_of(body@),
{
    let t = lower_of(&trim_start_of(&chars_of(body)));
    let doctype = vec!['<', '!', 'd', 'o', 'c', 't', 'y', 'p', 'e', ' ', 'h', 't', 'm', 'l'];
    assert(doctype@ =~= seq!['<', '!', 'd', 'o', 'c', 't', 'y', 'p', 'e', ' ', 'h', 't', 'm', 'l']);
    let html = vec!['<', 'h', 't', 'm', 'l'];
    assert(html@ =~= seq!['<', 'h', 't', 'm', 'l']);
    starts_with_exec(&t, &doctype) || starts_with_exec(&t, &html)
}

/// Whether the workspace still needs a copy of the bundled help file.
pub fn needs_install(vfs: &Vfs) -> (r: bool)
    ensures
        r == needs_install_of(*vfs),
{
    match vfs.read_file(help_file_path()) {
        Some(body) => looks_like_html_document(body),
        None => true,
    }
}

/// Write `help` (the bundled help text) at the workspace root.
pub fn install_user_help(vfs: &mut Vfs, help: String) -> (r: Result<(), String>)
    ensures
        r is Ok,
        final(vfs).file(help_path()) == Some(help@),
        forall|p: Seq<char>| p != help_path() ==> #[trigger] final(vfs).file(p) == old(vfs).file(p),
        final(vfs).folders() == old(vfs).folders(),
{
    let path = help_file_path();
    proof {
        reveal_strlit("user-help.md");
    }
    vfs.put_file(path, help)
}

/// Whether copying the help should also open its preview: no tab is open yet.
pub fn should_open_preview(open_tabs: usize) -> (r: bool)
    ensures
        r == (open_tabs == 0),
{
    open_tabs == 0
}

/// Once the help is installed from a text that is not an HTML document, the
/// workspace no longer needs it installed.
pub proof fn installed_help_is_not_needed(after: Vfs, help: Seq<char>)
    requires
        after.file(help_path()) == Some(help),
        !looks_like_html_of(help),
    ensures
        !needs_install_of(after),
{
}

} // verus!
