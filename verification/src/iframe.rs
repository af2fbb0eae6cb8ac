//! Inline workspace-relative `<iframe src>` into `srcdoc` for the HTML preview.
//!
//! A nested `<iframe src="face.html">` inside a `srcdoc` document resolves
//! against the editor page, not against the workspace. So each iframe whose
//! `src` names a sibling file of the previewed page gets that file's content
//! inlined as an escaped `srcdoc` attribute instead.
use vstd::prelude::*;
use vstd::string::*;

use crate::paths::{join_chars, join_of, parent_chars, parent_of};
use crate::text::{
    chars_of, contains_exec, contains_text, find_exec, find_from, is_ascii_space,
    is_ascii_space_exec, lemma_find_from, lower, lower_of, occurs_at, push_all, push_range,
    slice_of, starts_with, starts_with_exec, string_of, trim, trim_of,
};
use crate::vfs::Vfs;

verus! {

/// The text `<iframe`.
pub open spec fn iframe_open() -> Seq<char> {
    seq!['<', 'i', 'f', 'r', 'a', 'm', 'e']
}

/// Where the attribute `name` stands in `tag`, searching from `from`: the quote
/// that opens its value, the position where `name=` starts, and the position of
/// the closing quote. An occurrence of `name=` counts only at the start of the
/// tag or after ASCII white space, and only with a quoted value; an unclosed
/// quote ends the search with nothing.
pub open spec fn attr_span_from(tag: Seq<char>, name: Seq<char>, from: int) -> Option<(char, int, int)>
    decreases tag.len() + 1 - from,
{
    if from < 0 {
        None
    } else {
        let needle = name + seq!['='];
        match find_from(lower(tag), needle, from) {
            None => None,
            Some(start) => {
                proof {
                    lemma_find_from(lower(tag), needle, from);
                }
                if start > 0 && !is_ascii_space(tag[start - 1]) {
                    attr_span_from(tag, name, start + 1)
                } else {
                    let val_at = start + needle.len();
                    if val_at >= tag.len() {
                        None
                    } else {
                        let q = tag[val_at];
                        if q != '"' && q != '\'' {
                            attr_span_from(tag, name, start + 1)
                        } else {
                            match find_from(tag, seq![q], val_at + 1) {
                                None => None,
                                Some(close) => Some((q, start, close)),
                            }
                        }
                    }
                }
            },
        }
    }
}

/// Where the attribute `name` stands in `tag` (see `attr_span_from`).
pub open spec fn attr_span_of(tag: Seq<char>, name: Seq<char>) -> Option<(char, int, int)> {
    attr_span_from(tag, name, 0)
}

/// The value of the attribute found by `attr_span_of`.
pub open spec fn attr_value_of(tag: Seq<char>, name: Seq<char>) -> Option<Seq<char>> {
    match attr_span_of(tag, name) {
        Some((q, start, close)) => Some(tag.subrange(start + name.len() + 2, close)),
        None => None,
    }
}

/// `src` points outside the workspace: protocol-relative, a fragment, any
/// `scheme://` URL, or a `data:`, `blob:`, `about:` or `javascript:` URL.
pub open spec fn is_external(src: Seq<char>) -> bool {
    ||| starts_with(src, seq!['/', '/'])
    ||| starts_with(src, seq!['#'])
    ||| contains_text(src, seq![':', '/', '/'])
    ||| starts_with(src, seq!['d', 'a', 't', 'a', ':'])
    ||| starts_with(src, seq!['b', 'l', 'o', 'b', ':'])
    ||| starts_with(src, seq!['a', 'b', 'o', 'u', 't', ':'])
    ||| starts_with(src, seq!['j', 'a', 'v', 'a', 's', 'c', 'r', 'i', 'p', 't', ':'])
}

/// A `/`-separated component of `h` starts at `i`.
pub open spec fn segment_start(h: Seq<char>, i: int) -> bool {
    0 <= i <= h.len() && (i == 0 || h[i - 1] == '/')
}

/// The component starting at `i` is empty.
pub open spec fn empty_segment(h: Seq<char>, i: int) -> bool {
    i == h.len() || h[i] == '/'
}

/// The component starting at `i` is `.` or `..`.
pub open spec fn dot_segment(h: Seq<char>, i: int) -> bool {
    ||| (i < h.len() && h[i] == '.' && empty_segment(h, i + 1))
    ||| (i + 1 < h.len() && h[i] == '.' && h[i + 1] == '.' && empty_segment(h, i + 2))
}

/// Every `/`-separated component of `h` is non-empty and neither `.` nor `..`.
pub open spec fn plain_segments(h: Seq<char>) -> bool {
    forall|i: int| #[trigger] segment_start(h, i) ==> !empty_segment(h, i) && !dot_segment(h, i)
}

/// The workspace path that `href` names, relative to the file `from_file`:
/// surrounding white space and one leading `./` are dropped; external URLs,
/// absolute paths and paths with empty, `.` or `..` components name nothing.
pub open spec fn resolve_of(from_file: Seq<char>, href: Seq<char>) -> Option<Seq<char>> {
    let h = trim(href);
    if h.len() == 0 || is_external(h) {
        None
    } else {
        let h2 = if starts_with(h, seq!['.', '/']) {
            h.skip(2)
        } else {
            h
        };
        if starts_with(h2, seq!['/']) || !plain_segments(h2) {
            None
        } else {
            Some(join_of(parent_of(from_file), h2))
        }
    }
}

/// One character escaped for a double-quoted `srcdoc` value.
pub open spec fn srcdoc_char(c: char) -> Seq<char> {
    if c == '&' {
        seq!['&', 'a', 'm', 'p', ';']
    } else if c == '"' {
        seq!['&', 'q', 'u', 'o', 't', ';']
    } else if c == '<' {
        seq!['&', 'l', 't', ';']
    } else {
        seq![c]
    }
}

/// `html` with `&`, `"` and `<` replaced by `&amp;`, `&quot;` and `&lt;`.
pub open spec fn escape_srcdoc_of(html: Seq<char>) -> Seq<char>
    decreases html.len(),
{
    if html.len() == 0 {
        Seq::empty()
    } else {
        escape_srcdoc_of(html.drop_last()) + srcdoc_char(html.last())
    }
}

/// The tag text (without its closing `>`) after inlining: a tag that already
/// has `srcdoc`, has no quoted `src`, names no workspace path, or names a path
/// with no file stays as it is; otherwise its `src="…"` becomes
/// `srcdoc="…"` holding the escaped file content, with the same quote.
pub open spec fn rewrite_tag_of(vfs: Vfs, html_path: Seq<char>, tag: Seq<char>) -> Seq<char> {
    let srcdoc = seq!['s', 'r', 'c', 'd', 'o', 'c'];
    let src = seq!['s', 'r', 'c'];
    if attr_span_of(tag, srcdoc) is Some {
        tag
    } else {
        match attr_span_of(tag, src) {
            None => tag,
            Some((q, start, close)) => {
                let url = tag.subrange(start + 5, close);
                match resolve_of(html_path, url) {
                    None => tag,
                    Some(path) => match vfs.file(path) {
                        None => tag,
                        Some(content) => tag.take(start) + srcdoc + seq!['=', q]
                            + escape_srcdoc_of(content) + seq![q] + tag.skip(close + 1),
                    },
                }
            },
        }
    }
}

/// `html` from position `i` on, after inlining: each `<iframe` (found in any
/// letter case) up to the next `>` is rewritten by `rewrite_tag_of`; an
/// `<iframe` with no `>` after it, and everything outside iframe tags, is kept.
pub open spec fn inline_from(vfs: Vfs, html_path: Seq<char>, html: Seq<char>, i: int) -> Seq<char>
    decreases html.len() + 1 - i,
{
    if i < 0 || i > html.len() {
        Seq::empty()
    } else {
        match find_from(lower(html), iframe_open(), i) {
            None => html.skip(i),
            Some(start) => match find_from(html, seq!['>'], start) {
                None => html.skip(i),
                Some(end) => {
                    proof {
                        lemma_find_from(lower(html), iframe_open(), i);
                        lemma_find_from(html, seq!['>'], start);
                    }
                    html.subrange(i, start) + rewrite_tag_of(
                        vfs,
                        html_path,
                        html.subrange(start, end),
                    ) + seq!['>'] + inline_from(vfs, html_path, html, end + 1)
                },
            },
        }
    }
}

/// The whole of `html` after inlining.
pub open spec fn inline_of(vfs: Vfs, html_path: Seq<char>, html: Seq<char>) -> Seq<char> {
    inline_from(vfs, html_path, html, 0)
}

/// Where the attribute `name` stands in `tag`: its quote, the start of `name=`
/// and the position of the closing quote.
pub fn attr_span(tag: &Vec<char>, name: &Vec<char>) -> (r: Option<(char, usize, usize)>)
    ensures
        match r {
            Some((q, start, close)) => attr_span_of(tag@, name@) == Some((q, start as int, close as int)),
            None => attr_span_of(tag@, name@) is None,
        },
{
    let lowered = lower_of(tag);
    let mut needle: Vec<char> = Vec::new();
    push_all(&mut needle, name);
    needle.push('=');
    assert(needle@ =~= name@ + seq!['=']);
    let n = tag.len();
    let mut from: usize = 0;
    while from <= n
        invariant
            from <= n + 1,
            n == tag@.len(),
            lowered@ == lower(tag@),
            needle@ == name@ + seq!['='],
            attr_span_from(tag@, name@, 0) == attr_span_from(tag@, name@, from as int),
        decreases n + 1 - from,
    {
        proof {
            lemma_find_from(lower(tag@), needle@, from as int);
        }
        match find_exec(&lowered, &needle, from) {
            None => {
                return None;
            },
            Some(start) => {
                assert(occurs_at(lower(tag@), needle@, start as int));
                if start > 0 && !is_ascii_space_exec(tag[start - 1]) {
                    from = start + 1;
                } else {
                    let val_at = start + needle.len();
                    if val_at >= n {
                        return None;
                    }
                    let q = tag[val_at];
                    if q != '"' && q != '\'' {
                        from = start + 1;
                    } else {
                        let quote = vec![q];
                        assert(quote@ =~= seq![q]);
                        match find_exec(tag, &quote, val_at + 1) {
                            None => {
                                return None;
                            },
                            Some(close) => {
                                return Some((q, start, close));
                            },
                        }
                    }
                }
            },
        }
    }
    None
}

/// The value of the attribute `name` in `tag`.
pub fn attr_value(tag: &Vec<char>, name: &Vec<char>) -> (r: Option<Vec<char>>)
    ensures
        match r {
            Some(v) => attr_value_of(tag@, name@) == Some(v@),
            None => attr_value_of(tag@, name@) is None,
        },
{
    match attr_span(tag, name) {
        Some((q, start, close)) => {
            proof {
                lemma_attr_span(tag@, name@, 0);
            }
            Some(slice_of(tag, start + name.len() + 2, close))
        },
        None => None,
    }
}

/// What `attr_span_from` finds lies inside the tag, after `name="`.
pub proof fn lemma_attr_span(tag: Seq<char>, name: Seq<char>, from: int)
    ensures
        match attr_span_from(tag, name, from) {
            Some((q, start, close)) => 0 <= start && start + name.len() + 2 <= close < tag.len()
                && tag[start + name.len() + 1] == q && tag[close] == q,
            None => true,
        },
    decreases tag.len() + 1 - from,
{
    if from >= 0 {
        let needle = name + seq!['='];
        lemma_find_from(lower(tag), needle, from);
        match find_from(lower(tag), needle, from) {
            None => {},
            Some(start) => {
                if start > 0 && !is_ascii_space(tag[start - 1]) {
                    lemma_attr_span(tag, name, start + 1);
                } else {
                    let val_at = start + needle.len();
                    if val_at < tag.len() {
                        let q = tag[val_at];
                        if q != '"' && q != '\'' {
                            lemma_attr_span(tag, name, start + 1);
                        } else {
                            lemma_find_from(tag, seq![q], val_at + 1);
                            match find_from(tag, seq![q], val_at + 1) {
                                None => {},
                                Some(close) => {
                                    assert(tag.subrange(close, close + 1)[0] == q);
                                },
                            }
                        }
                    }
                }
            },
        }
    }
}

/// Whether `src` points outside the workspace.
pub fn is_external_src(src: &Vec<char>) -> (r: bool)
    ensures
        r == is_external(src@),
{
    let p1 = vec!['/', '/'];
    assert(p1@ =~= seq!['/', '/']);
    let p2 = vec!['#'];
    assert(p2@ =~= seq!['#']);
    let p3 = vec![':', '/', '/'];
    assert(p3@ =~= seq![':', '/', '/']);
    let p4 = vec!['d', 'a', 't', 'a', ':'];
    assert(p4@ =~= seq!['d', 'a', 't', 'a', ':']);
    let p5 = vec!['b', 'l', 'o', 'b', ':'];
    assert(p5@ =~= seq!['b', 'l', 'o', 'b', ':']);
    let p6 = vec!['a', 'b', 'o', 'u', 't', ':'];
    assert(p6@ =~= seq!['a', 'b', 'o', 'u', 't', ':']);
    let p7 = vec!['j', 'a', 'v', 'a', 's', 'c', 'r', 'i', 'p', 't', ':'];
    assert(p7@ =~= seq!['j', 'a', 'v', 'a', 's', 'c', 'r', 'i', 'p', 't', ':']);
    starts_with_exec(src, &p1) || starts_with_exec(src, &p2) || contains_exec(src, &p3)
        || starts_with_exec(src, &p4) || starts_with_exec(src, &p5) || starts_with_exec(src, &p6)
        || starts_with_exec(src, &p7)
}

/// Whether every `/`-separated component of `h` is non-empty and neither `.` nor `..`.
pub fn plain_segments_exec(h: &Vec<char>) -> (r: bool)
    ensures
        r == plain_segments(h@),
{
    let n = h.len();
    if n == 0 || h[n - 1] == '/' {
        assert(segment_start(h@, n as int));
        return false;
    }
    let mut i: usize = 0;
    while i < n
        invariant
            n == h@.len(),
            n > 0,
            h@[n - 1] != '/',
            i <= n,
            forall|j: int| 0 <= j < i ==> #[trigger] segment_start(h@, j) ==> !empty_segment(h@, j)
                && !dot_segment(h@, j),
        decreases n - i,
    {
        let starts = i == 0 || h[i - 1] == '/';
        if starts {
            let empty = h[i] == '/';
            let one_dot = h[i] == '.' && (n - i == 1 || h[i + 1] == '/');
            let two_dots = n - i >= 2 && h[i] == '.' && h[i + 1] == '.' && (n - i == 2 || h[i + 2]
                == '/');
            if empty || one_dot || two_dots {
                assert(segment_start(h@, i as int));
                return false;
            }
        }
        i = i + 1;
    }
    assert forall|j: int| #[trigger] segment_start(h@, j) implies !empty_segment(h@, j) && !dot_segment(h@, j) by {
        if j < n {
            assert(0 <= j < i);
        }
    }
    true
}

/// The workspace path that `href` names relative to the file `from_file`.
pub fn resolve_relative(from_file: &Vec<char>, href: &Vec<char>) -> (r: Option<Vec<char>>)
    ensures
        match r {
            Some(p) => resolve_of(from_file@, href@) == Some(p@),
            None => resolve_of(from_file@, href@) is None,
        },
{
    let h = trim_of(href);
    if h.len() == 0 || is_external_src(&h) {
        return None;
    }
    let dot_slash = vec!['.', '/'];
    assert(dot_slash@ =~= seq!['.', '/']);
    let h2 = if starts_with_exec(&h, &dot_slash) {
        assert(h@.subrange(2, h@.len() as int) =~= h@.skip(2));
        slice_of(&h, 2, h.len())
    } else {
        assert(h@.subrange(0, h@.len() as int) =~= h@);
        slice_of(&h, 0, h.len())
    };
    let slash = vec!['/'];
    assert(slash@ =~= seq!['/']);
    if starts_with_exec(&h2, &slash) || !plain_segments_exec(&h2) {
        return None;
    }
    Some(join_chars(&parent_chars(from_file), &h2))
}

/// `html` escaped for a double-quoted `srcdoc` value.
pub fn escape_srcdoc(html: &Vec<char>) -> (r: Vec<char>)
    ensures
        r@ == escape_srcdoc_of(html@),
{
    let mut r: Vec<char> = Vec::new();
    let mut i: usize = 0;
    while i < html.len()
        invariant
            i <= html@.len(),
            r@ == escape_srcdoc_of(html@.take(i as int)),
        decreases html.len() - i,
    {
        let c = html[i];
        let ghost before = r@;
        if c == '&' {
            r.push('&');
            r.push('a');
            r.push('m');
            r.push('p');
            r.push(';');
        } else if c == '"' {
            r.push('&');
            r.push('q');
            r.push('u');
            r.push('o');
            r.push('t');
            r.push(';');
        } else if c == '<' {
            r.push('&');
            r.push('l');
            r.push('t');
            r.push(';');
        } else {
            r.push(c);
        }
        assert(r@ =~= before + srcdoc_char(c));
        assert(html@.take(i + 1).drop_last() =~= html@.take(i as int));
        i = i + 1;
    }
    assert(html@.take(html@.len() as int) =~= html@);
    r
}

/// One iframe tag (without its closing `>`) with a sibling `src` inlined.
pub fn rewrite_iframe_tag(vfs: &Vfs, html_path: &Vec<char>, tag: &Vec<char>) -> (r: Vec<char>)
    ensures
        r@ == rewrite_tag_of(*vfs, html_path@, tag@),
{
    let srcdoc = vec!['s', 'r', 'c', 'd', 'o', 'c'];
    assert(srcdoc@ =~= seq!['s', 'r', 'c', 'd', 'o', 'c']);
    let src = vec!['s', 'r', 'c'];
    assert(src@ =~= seq!['s', 'r', 'c']);
    let keep = slice_of(tag, 0, tag.len());
    assert(tag@.subrange(0, tag@.len() as int) =~= tag@);
    if attr_span(tag, &srcdoc).is_some() {
        return keep;
    }
    let (q, start, close) = match attr_span(tag, &src) {
        None => {
            return keep;
        },
        Some(found) => found,
    };
    proof {
        lemma_attr_span(tag@, src@, 0);
    }
    let url = slice_of(tag, start + 5, close);
    let resolved = match resolve_relative(html_path, &url) {
        None => {
            return keep;
        },
        Some(p) => p,
    };
    let content = match vfs.read_chars(&resolved) {
        None => {
            return keep;
        },
        Some(c) => c,
    };
    let mut out: Vec<char> = Vec::new();
    push_range(&mut out, tag, 0, start);
    push_all(&mut out, &srcdoc);
    out.push('=');
    out.push(q);
    push_all(&mut out, &escape_srcdoc(&chars_of(content)));
    out.push(q);
    push_range(&mut out, tag, close + 1, tag.len());
    assert(out@ =~= tag@.take(start as int) + srcdoc@ + seq!['=', q] + escape_srcdoc_of(content@)
        + seq![q] + tag@.skip(close + 1));
    out
}

/// Rewrite every relative iframe `src` in `html` into an inline `srcdoc`,
/// reading sibling files of `html_path` from `vfs`.
pub fn inline_relative_iframes(vfs: &Vfs, html_path: &str, html: &str) -> (r: String)
    ensures
        r@ == inline_of(*vfs, html_path@, html@),
{
    let path = chars_of(html_path);
    let text = chars_of(html);
    let lowered = lower_of(&text);
    let open = vec!['<', 'i', 'f', 'r', 'a', 'm', 'e'];
    assert(open@ =~= iframe_open());
    let close = vec!['>'];
    assert(close@ =~= seq!['>']);
    let n = text.len();
    let mut out: Vec<char> = Vec::new();
    let mut i: usize = 0;
    while i <= n
        invariant
            n == text@.len(),
            text@ == html@,
            path@ == html_path@,
            i <= n + 1,
            lowered@ == lower(text@),
            open@ == iframe_open(),
            close@ == seq!['>'],
            out@ + inline_from(*vfs, path@, text@, i as int) == inline_of(*vfs, path@, text@),
        decreases n + 1 - i,
    {
        proof {
            lemma_find_from(lower(text@), iframe_open(), i as int);
        }
        let start = match find_exec(&lowered, &open, i) {
            None => {
                let ghost before = out@;
                push_range(&mut out, &text, i, n);
                assert(text@.subrange(i as int, n as int) =~= text@.skip(i as int));
                assert(inline_from(*vfs, path@, text@, i as int) == text@.skip(i as int));
                assert(out@ == before + inline_from(*vfs, path@, text@, i as int));
                return string_of(&out);
            },
            Some(s) => s,
        };
        proof {
            lemma_find_from(text@, seq!['>'], start as int);
        }
        let end = match find_exec(&text, &close, start) {
            None => {
                let ghost before = out@;
                push_range(&mut out, &text, i, n);
                assert(text@.subrange(i as int, n as int) =~= text@.skip(i as int));
                assert(inline_from(*vfs, path@, text@, i as int) == text@.skip(i as int));
                assert(out@ == before + inline_from(*vfs, path@, text@, i as int));
                return string_of(&out);
            },
            Some(e) => e,
        };
        assert(occurs_at(text@, seq!['>'], end as int));
        let ghost prev = out@;
        push_range(&mut out, &text, i, start);
        let tag = slice_of(&text, start, end);
        push_all(&mut out, &rewrite_iframe_tag(vfs, &path, &tag));
        out.push('>');
        assert(out@ + inline_from(*vfs, path@, text@, end + 1) =~= prev + inline_from(
            *vfs,
            path@,
            text@,
            i as int,
        ));
        i = end + 1;
    }
    assert(inline_from(*vfs, path@, text@, i as int) == Seq::<char>::empty());
    assert(out@ =~= inline_of(*vfs, path@, text@));
    string_of(&out)
}

/// Searching from `from` in `s` finds what searching from `from - k` finds in
/// `s` without its first `k` characters, shifted by `k`.
proof fn lemma_find_shift(s: Seq<char>, pat: Seq<char>, k: int, from: int)
    requires
        0 <= k <= s.len(),
        k <= from,
    ensures
        find_from(s, pat, from) == match find_from(s.skip(k), pat, from - k) {
            Some(j) => Some(j + k),
            None => None,
        },
    decreases s.len() + 1 - from,
{
    if from + pat.len() <= s.len() {
        assert(s.skip(k).subrange(from - k, from - k + pat.len()) =~= s.subrange(from, from + pat.len()));
        if !occurs_at(s, pat, from) {
            lemma_find_shift(s, pat, k, from + 1);
        }
    }
}

/// Inlining from position `i` depends only on the text from `k <= i` on.
proof fn lemma_inline_shift(vfs: Vfs, html_path: Seq<char>, html: Seq<char>, k: int, i: int)
    requires
        0 <= k <= i <= html.len(),
    ensures
        inline_from(vfs, html_path, html, i) == inline_from(vfs, html_path, html.skip(k), i - k),
    decreases html.len() + 1 - i,
{
    let h2 = html.skip(k);
    assert(lower(h2) =~= lower(html).skip(k));
    lemma_find_shift(lower(html), iframe_open(), k, i);
    lemma_find_from(lower(html), iframe_open(), i);
    match find_from(lower(html), iframe_open(), i) {
        None => {
            assert(h2.skip(i - k) =~= html.skip(i));
        },
        Some(start) => {
            lemma_find_shift(html, seq!['>'], k, start);
            lemma_find_from(html, seq!['>'], start);
            match find_from(html, seq!['>'], start) {
                None => {
                    assert(h2.skip(i - k) =~= html.skip(i));
                },
                Some(end) => {
                    lemma_inline_shift(vfs, html_path, html, k, end + 1);
                    assert(h2.subrange(i - k, start - k) =~= html.subrange(i, start));
                    assert(h2.subrange(start - k, end - k) =~= html.subrange(start, end));
                },
            }
        },
    }
}

/// Inlining treats every iframe tag, not only the first: for a text that
/// begins with one complete iframe tag (`<iframe` in any letter case, up to
/// its first `>`), the result is that tag rewritten, then `>`, then the result
/// of inlining the rest of the text.
pub proof fn inlining_treats_every_iframe(vfs: Vfs, html_path: Seq<char>, tag: Seq<char>, rest: Seq<char>)
    requires
        starts_with(lower(tag), iframe_open()),
        !tag.contains('>'),
    ensures
        inline_of(vfs, html_path, tag + seq!['>'] + rest) == rewrite_tag_of(vfs, html_path, tag) + seq!['>']
            + inline_of(vfs, html_path, rest),
{
    let h = tag + seq!['>'] + rest;
    let n = tag.len() as int;
    assert(lower(h).subrange(0, 7) =~= lower(tag).subrange(0, 7));
    assert(occurs_at(lower(h), iframe_open(), 0));
    lemma_find_from(lower(h), iframe_open(), 0);
    assert(h.subrange(n, n + 1) =~= seq!['>']);
    assert(occurs_at(h, seq!['>'], n));
    lemma_find_from(h, seq!['>'], 0);
    match find_from(h, seq!['>'], 0) {
        Some(e) => {
            if e < n {
                assert(h.subrange(e, e + 1)[0] == h[e]);
                assert(h[e] == tag[e]);
                assert(tag.contains(tag[e]));
            }
        },
        None => {},
    }
    assert(find_from(h, seq!['>'], 0) == Some(n));
    assert(h.subrange(0, n) =~= tag);
    assert(h.subrange(0, 0) =~= Seq::<char>::empty());
    lemma_inline_shift(vfs, html_path, h, n + 1, n + 1);
    assert(h.skip(n + 1) =~= rest);
}

/// A text with no `<iframe` in any letter case comes out unchanged.
pub proof fn inlining_keeps_text_without_iframes(vfs: Vfs, html_path: Seq<char>, html: Seq<char>)
    requires
        !contains_text(lower(html), iframe_open()),
    ensures
        inline_of(vfs, html_path, html) == html,
{
    lemma_find_from(lower(html), iframe_open(), 0);
    match find_from(lower(html), iframe_open(), 0) {
        Some(start) => {
            assert(occurs_at(lower(html), iframe_open(), start));
        },
        None => {},
    }
    assert(html.skip(0) =~= html);
}

} // verus!
