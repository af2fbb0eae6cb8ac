//! Editor pane decisions: how a tab is labelled, how a preview renders a
//! file, and the text conversions the panes show.
use vstd::prelude::*;
use vstd::string::*;

use pulldown_cmark::{html, Options, Parser};

use crate::highlight::{can_highlight, path_syntax_of};
use crate::paths::{file_ext_chars, file_ext_of, file_name_chars, file_name_of, is_image_ext, is_image_ext_exec};
use crate::split::{OpenTab, TabKind, TabView};
use crate::text::{chars_of, lower, lower_of, push_all, same_chars, string_of};

verus! {

/// How a preview tab renders its file.
#[derive(Clone, Copy, Debug, PartialEq, Eq, Structural)]
pub enum PreviewKind {
    /// HTML in a `srcdoc` iframe.
    Html,
    /// PDF through a blob-URL iframe.
    Pdf,
    /// An image through a blob-URL `<img>`.
    Image,
    /// Markdown rendered as HTML (also every other file).
    Markdown,
}

/// What one editor pane shows.
#[derive(Clone, Copy, Debug, PartialEq, Eq, Structural)]
pub enum PaneBody {
    /// No tab is active.
    Empty,
    /// The active tab is a preview.
    Preview,
    /// A binary file: only its size.
    Binary,
    /// Source with syntax highlighting.
    Highlighted,
    /// Plain source.
    Plain,
}

/// The preview renderer for a lower-case extension.
pub open spec fn preview_for_ext(e: Seq<char>) -> PreviewKind {
    if e == seq!['h', 't', 'm', 'l'] || e == seq!['h', 't', 'm'] {
        PreviewKind::Html
    } else if e == seq!['p', 'd', 'f'] {
        PreviewKind::Pdf
    } else if is_image_ext(e) {
        PreviewKind::Image
    } else {
        PreviewKind::Markdown
    }
}

/// The preview renderer for the file at `path` (no extension counts as Markdown).
pub open spec fn preview_of(path: Seq<char>) -> PreviewKind {
    match file_ext_of(path) {
        Some(e) => preview_for_ext(lower(e)),
        None => PreviewKind::Markdown,
    }
}

/// MIME type of an image file, by lower-case extension.
pub open spec fn mime_for_ext(e: Seq<char>) -> Seq<char> {
    if e == seq!['j', 'p', 'g'] || e == seq!['j', 'p', 'e', 'g'] {
        "image/jpeg"@
    } else if e == seq!['p', 'n', 'g'] {
        "image/png"@
    } else if e == seq!['i', 'c', 'o'] || e == seq!['i', 'c', 'o', 'n'] {
        "image/x-icon"@
    } else {
        "application/octet-stream"@
    }
}

/// MIME type of the image at `path`.
pub open spec fn mime_of(path: Seq<char>) -> Seq<char> {
    match file_ext_of(path) {
        Some(e) => mime_for_ext(lower(e)),
        None => mime_for_ext(Seq::empty()),
    }
}

/// One character escaped for HTML text.
pub open spec fn html_char(c: char) -> Seq<char> {
    if c == '&' {
        seq!['&', 'a', 'm', 'p', ';']
    } else if c == '<' {
        seq!['&', 'l', 't', ';']
    } else if c == '>' {
        seq!['&', 'g', 't', ';']
    } else {
        seq![c]
    }
}

/// `text` with `&`, `<` and `>` replaced by `&amp;`, `&lt;` and `&gt;`.
pub open spec fn html_escape_of(text: Seq<char>) -> Seq<char>
    decreases text.len(),
{
    if text.len() == 0 {
        Seq::empty()
    } else {
        html_escape_of(text.drop_last()) + html_char(text.last())
    }
}

/// The label of a tab: the file name, prefixed by `Preview ` for a preview tab.
pub open spec fn label_of(tab: TabView) -> Seq<char> {
    match tab.1 {
        TabKind::Edit => file_name_of(tab.0),
        TabKind::Preview => "Preview "@ + file_name_of(tab.0),
    }
}

/// What a pane shows for its active tab.
pub open spec fn pane_body_of(active: Option<TabView>, is_binary: bool) -> PaneBody {
    match active {
        None => PaneBody::Empty,
        Some(t) => if t.1 == TabKind::Preview {
            PaneBody::Preview
        } else if is_binary {
            PaneBody::Binary
        } else if path_syntax_of(t.0) is Some {
            PaneBody::Highlighted
        } else {
            PaneBody::Plain
        },
    }
}

/// The HTML that pulldown-cmark renders for the Markdown `src`, with tables
/// and strikethrough enabled.
pub uninterp spec fn markdown_html(src: Seq<char>) -> Seq<char>;

/// Active-tab preview renderer, chosen by file extension.
pub fn preview_kind(path: &str) -> (r: PreviewKind)
    ensures
        r == preview_of(path@),
{
    let ext = match file_ext_chars(&chars_of(path)) {
        Some(e) => lower_of(&e),
        None => {
            return PreviewKind::Markdown;
        },
    };
    let html = vec!['h', 't', 'm', 'l'];
    assert(html@ =~= seq!['h', 't', 'm', 'l']);
    let htm = vec!['h', 't', 'm'];
    assert(htm@ =~= seq!['h', 't', 'm']);
    let pdf = vec!['p', 'd', 'f'];
    assert(pdf@ =~= seq!['p', 'd', 'f']);
    if same_chars(&ext, &html) || same_chars(&ext, &htm) {
        PreviewKind::Html
    } else if same_chars(&ext, &pdf) {
        PreviewKind::Pdf
    } else if is_image_ext_exec(&ext) {
        PreviewKind::Image
    } else {
        PreviewKind::Markdown
    }
}

/// MIME type for an image preview.
pub fn image_mime(path: &str) -> (r: &'static str)
    ensures
        r@ == mime_of(path@),
{
    let ext = match file_ext_chars(&chars_of(path)) {
        Some(e) => lower_of(&e),
        None => Vec::new(),
    };
    assert(ext@.len() == 0 ==> ext@ =~= Seq::<char>::empty());
    let jpg = vec!['j', 'p', 'g'];
    assert(jpg@ =~= seq!['j', 'p', 'g']);
    let jpeg = vec!['j', 'p', 'e', 'g'];
    assert(jpeg@ =~= seq!['j', 'p', 'e', 'g']);
    let png = vec!['p', 'n', 'g'];
    assert(png@ =~= seq!['p', 'n', 'g']);
    let ico = vec!['i', 'c', 'o'];
    assert(ico@ =~= seq!['i', 'c', 'o']);
    let icon = vec!['i', 'c', 'o', 'n'];
    assert(icon@ =~= seq!['i', 'c', 'o', 'n']);
    if same_chars(&ext, &jpg) || same_chars(&ext, &jpeg) {
        "image/jpeg"
    } else if same_chars(&ext, &png) {
        "image/png"
    } else if same_chars(&ext, &ico) || same_chars(&ext, &icon) {
        "image/x-icon"
    } else {
        "application/octet-stream"
    }
}

/// `text` escaped for the highlight overlay.
pub fn html_escape(text: &str) -> (r: String)
    ensures
        r@ == html_escape_of(text@),
{
    let src = chars_of(text);
    let mut r: Vec<char> = Vec::new();
    let mut i: usize = 0;
    while i < src.len()
        invariant
            i <= src@.len(),
            r@ == html_escape_of(src@.take(i as int)),
        decreases src.len() - i,
    {
        let c = src[i];
        let ghost before = r@;
        if c == '&' {
            r.push('&');
            r.push('a');
            r.push('m');
            r.push('p');
            r.push(';');
        } else if c == '<' {
            r.push('&');
            r.push('l');
            r.push('t');
            r.push(';');
        } else if c == '>' {
            r.push('&');
            r.push('g');
            r.push('t');
            r.push(';');
        } else {
            r.push(c);
        }
        assert(r@ =~= before + html_char(c));
        assert(src@.take(i + 1).drop_last() =~= src@.take(i as int));
        i = i + 1;
    }
    assert(src@.take(src@.len() as int) =~= src@);
    string_of(&r)
}

/// Text of an editor tab's label.
pub fn tab_label(tab: &OpenTab) -> (r: String)
    ensures
        r@ == label_of(tab@),
{
    let name = file_name_chars(&chars_of(tab.path.as_str()));
    match tab.kind {
        TabKind::Edit => string_of(&name),
        TabKind::Preview => {
            let prefix = "Preview ";
            let mut r: Vec<char> = chars_of(prefix);
            push_all(&mut r, &name);
            string_of(&r)
        },
    }
}

/// What a pane shows for its active tab (`is_binary`: the file holds bytes, not text).
pub fn pane_body(active: Option<&OpenTab>, is_binary: bool) -> (r: PaneBody)
    ensures
        r == pane_body_of(
            match active {
                Some(t) => Some(t@),
                None => None,
            },
            is_binary,
        ),
{
    match active {
        None => PaneBody::Empty,
        Some(tab) => if tab.kind == TabKind::Preview {
            PaneBody::Preview
        } else if is_binary {
            PaneBody::Binary
        } else if can_highlight(tab.path.as_str()) {
            PaneBody::Highlighted
        } else {
            PaneBody::Plain
        },
    }
}

/// Renders Markdown to HTML with pulldown-cmark (tables and strikethrough on).
#[verifier::external_body]
fn pulldown_markdown_html(src: &str) -> (r: String)
    ensures
        r@ == markdown_html(src@),
{
    let mut options = Options::empty();
    options.insert(Options::ENABLE_TABLES);
    options.insert(Options::ENABLE_STRIKETHROUGH);
    let parser = Parser::new_ext(src, options);
    let mut out = String::new();
    html::push_html(&mut out, parser);
    out
}

/// Markdown preview body: `src` rendered as HTML.
pub fn markdown_to_html(src: &str) -> (r: String)
    ensures
        r@ == markdown_html(src@),
{
    pulldown_markdown_html(src)
}

} // verus!
