//! Explorer glyph choice by file-name extension.
use vstd::prelude::*;
use vstd::string::*;

use crate::paths::{file_ext_chars, file_ext_of, is_image_ext, is_image_ext_exec};
use crate::text::{chars_of, lower, lower_of, same_chars};

verus! {

/// Explorer glyph chosen from a file name's extension.
#[derive(Clone, Copy, Debug, PartialEq, Eq, Structural)]
pub enum IconKind {
    Md,
    Json,
    Json5,
    Html,
    Scss,
    Pdf,
    Image,
}

/// The glyph for a lower-case extension.
pub open spec fn icon_for_ext(e: Seq<char>) -> Option<IconKind> {
    if e == seq!['m', 'd'] {
        Some(IconKind::Md)
    } else if e == seq!['j', 's', 'o', 'n'] {
        Some(IconKind::Json)
    } else if e == seq!['j', 's', 'o', 'n', '5'] {
        Some(IconKind::Json5)
    } else if e == seq!['h', 't', 'm', 'l'] {
        Some(IconKind::Html)
    } else if e == seq!['s', 'c', 's', 's'] {
        Some(IconKind::Scss)
    } else if e == seq!['p', 'd', 'f'] {
        Some(IconKind::Pdf)
    } else if is_image_ext(e) {
        Some(IconKind::Image)
    } else {
        None
    }
}

/// Which explorer glyph `name` should use (`None` = empty slot).
pub open spec fn icon_of(name: Seq<char>) -> Option<IconKind> {
    match file_ext_of(name) {
        Some(e) => icon_for_ext(lower(e)),
        None => None,
    }
}

/// Which explorer glyph `name` should use (`None` = empty slot).
pub fn icon_kind(name: &str) -> (r: Option<IconKind>)
    ensures
        r == icon_of(name@),
{
    let ext = match file_ext_chars(&chars_of(name)) {
        Some(e) => lower_of(&e),
        None => {
            return None;
        },
    };
    let md = vec!['m', 'd'];
    assert(md@ =~= seq!['m', 'd']);
    let json = vec!['j', 's', 'o', 'n'];
    assert(json@ =~= seq!['j', 's', 'o', 'n']);
    let json5 = vec!['j', 's', 'o', 'n', '5'];
    assert(json5@ =~= seq!['j', 's', 'o', 'n', '5']);
    let html = vec!['h', 't', 'm', 'l'];
    assert(html@ =~= seq!['h', 't', 'm', 'l']);
    let scss = vec!['s', 'c', 's', 's'];
    assert(scss@ =~= seq!['s', 'c', 's', 's']);
    let pdf = vec!['p', 'd', 'f'];
    assert(pdf@ =~= seq!['p', 'd', 'f']);
    if same_chars(&ext, &md) {
        Some(IconKind::Md)
    } else if same_chars(&ext, &json) {
        Some(IconKind::Json)
    } else if same_chars(&ext, &json5) {
        Some(IconKind::Json5)
    } else if same_chars(&ext, &html) {
        Some(IconKind::Html)
    } else if same_chars(&ext, &scss) {
        Some(IconKind::Scss)
    } else if same_chars(&ext, &pdf) {
        Some(IconKind::Pdf)
    } else if is_image_ext_exec(&ext) {
        Some(IconKind::Image)
    } else {
        None
    }
}

} // verus!
