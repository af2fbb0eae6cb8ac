//! Which files the source editor highlights, and the highlighting itself
//! (TextMate grammars through `syntect`, as classed HTML).
use vstd::prelude::*;
use vstd::string::*;

use syntect::html::{ClassStyle, ClassedHTMLGenerator};
use syntect::parsing::SyntaxSet;
use syntect::util::LinesWithEndings;

use crate::paths::{file_ext_chars, file_ext_of};
use crate::text::{chars_of, lower, lower_of, same_chars};

verus! {

/// The grammar (named by its extension) for a lower-case file extension:
/// Markdown, JSON (also JSON5), HTML and CSS (also SCSS and Sass).
pub open spec fn syntax_of(ext: Seq<char>) -> Option<Seq<char>> {
    let e = lower(ext);
    if e == seq!['m', 'd'] || e == seq!['m', 'a', 'r', 'k', 'd', 'o', 'w', 'n'] {
        Some("md"@)
    } else if e == seq!['j', 's', 'o', 'n'] || e == seq!['j', 's', 'o', 'n', '5'] {
        Some("json"@)
    } else if e == seq!['h', 't', 'm', 'l'] || e == seq!['h', 't', 'm'] {
        Some("html"@)
    } else if e == seq!['s', 'c', 's', 's'] || e == seq!['s', 'a', 's', 's'] || e == seq!['c', 's', 's'] {
        Some("css"@)
    } else {
        None
    }
}

/// The grammar for the file at `path`, if it has one.
pub open spec fn path_syntax_of(path: Seq<char>) -> Option<Seq<char>> {
    match file_ext_of(path) {
        Some(e) => syntax_of(e),
        None => None,
    }
}

/// The classed HTML that syntect's bundled grammar for the extension
/// `syntax_ext` produces for `code`, or nothing when the grammar is missing or
/// a line fails to parse.
pub uninterp spec fn classed_html(syntax_ext: Seq<char>, code: Seq<char>) -> Option<Seq<char>>;

/// Grammar name for a file extension (any letter case).
pub fn syntax_name_for_ext(ext: &str) -> (r: Option<&'static str>)
    ensures
        match r {
            Some(n) => syntax_of(ext@) == Some(n@),
            None => syntax_of(ext@) is None,
        },
{
    syntax_name_for_chars(&chars_of(ext))
}

fn syntax_name_for_chars(ext: &Vec<char>) -> (r: Option<&'static str>)
    ensures
        match r {
            Some(n) => syntax_of(ext@) == Some(n@),
            None => syntax_of(ext@) is None,
        },
{
    let e = lower_of(ext);
    let md = vec!['m', 'd'];
    assert(md@ =~= seq!['m', 'd']);
    let markdown = vec!['m', 'a', 'r', 'k', 'd', 'o', 'w', 'n'];
    assert(markdown@ =~= seq!['m', 'a', 'r', 'k', 'd', 'o', 'w', 'n']);
    let json = vec!['j', 's', 'o', 'n'];
    assert(json@ =~= seq!['j', 's', 'o', 'n']);
    let json5 = vec!['j', 's', 'o', 'n', '5'];
    assert(json5@ =~= seq!['j', 's', 'o', 'n', '5']);
    let html = vec!['h', 't', 'm', 'l'];
    assert(html@ =~= seq!['h', 't', 'm', 'l']);
    let htm = vec!['h', 't', 'm'];
    assert(htm@ =~= seq!['h', 't', 'm']);
    let scss = vec!['s', 'c', 's', 's'];
    assert(scss@ =~= seq!['s', 'c', 's', 's']);
    let sass = vec!['s', 'a', 's', 's'];
    assert(sass@ =~= seq!['s', 'a', 's', 's']);
    let css = vec!['c', 's', 's'];
    assert(css@ =~= seq!['c', 's', 's']);
    if same_chars(&e, &md) || same_chars(&e, &markdown) {
        Some("md")
    } else if same_chars(&e, &json) || same_chars(&e, &json5) {
        Some("json")
    } else if same_chars(&e, &html) || same_chars(&e, &htm) {
        Some("html")
    } else if same_chars(&e, &scss) || same_chars(&e, &sass) || same_chars(&e, &css) {
        Some("css")
    } else {
        None
    }
}

/// Whether `path` has a grammar this module will highlight.
pub fn can_highlight(path: &str) -> (r: bool)
    ensures
        r == path_syntax_of(path@) is Some,
{
    match file_ext_chars(&chars_of(path)) {
        Some(e) => syntax_name_for_chars(&e).is_some(),
        None => false,
    }
}

/// Runs syntect on `code` with its bundled grammar for the extension
/// `syntax_ext`, producing classed HTML (`ClassStyle::Spaced`); nothing when
/// no grammar has that extension or a line fails to parse.
#[verifier::external_body]
fn syntect_classed_html(syntax_ext: &str, code: &str) -> (r: Option<String>)
    ensures
        match r {
            Some(h) => classed_html(syntax_ext@, code@) == Some(h@),
            None => classed_html(syntax_ext@, code@) is None,
        },
{
    let set = SyntaxSet::load_defaults_newlines();
    let syntax = set.find_syntax_by_extension(syntax_ext)?;
    let mut generator = ClassedHTMLGenerator::new_with_class_style(syntax, &set, ClassStyle::Spaced);
    for line in LinesWithEndings::from(code) {
        generator.parse_html_for_line_which_includes_newline(line).ok()?;
    }
    Some(generator.finalize())
}

/// Classed HTML for `code`, or `None` if the extension is unknown or parsing fails.
pub fn highlight_html(path: &str, code: &str) -> (r: Option<String>)
    ensures
        match path_syntax_of(path@) {
            None => r is None,
            Some(name) => match classed_html(name, code@) {
                Some(h) => r matches Some(s) && s@ == h,
                None => r is None,
            },
        },
{
    let ext = match file_ext_chars(&chars_of(path)) {
        Some(e) => e,
        None => {
            return None;
        },
    };
    let name = match syntax_name_for_chars(&ext) {
        Some(n) => n,
        None => {
            return None;
        },
    };
    syntect_classed_html(name, code)
}

} // verus!
