use deck_gen_wasm::iframe::{
    attr_span, attr_value, escape_srcdoc, is_external_src, resolve_relative, rewrite_iframe_tag,
};
use deck_gen_wasm::paths::{file_ext, file_name, is_image, join_path, parent_path, rewrite_prefix};
use deck_gen_wasm::vfs::Vfs;

fn chars(s: &str) -> Vec<char> {
    s.chars().collect()
}

fn text(v: &[char]) -> String {
    v.iter().collect()
}

#[test]
fn path_parts() {
    assert_eq!(parent_path("games/a/help.md"), "games/a");
    assert_eq!(parent_path("help.md"), "");
    assert_eq!(file_name("games/a/help.md"), "help.md");
    assert_eq!(file_name("help.md"), "help.md");
    assert_eq!(file_ext("games/a.b/help.MD"), Some("MD".to_string()));
    assert_eq!(file_ext("games/a.b/LICENSE"), None);
    assert_eq!(join_path("", "a.md"), "a.md");
    assert_eq!(join_path("games", "a.md"), "games/a.md");
    assert_eq!(parent_path(&join_path("games/x", "a.md")), "games/x");
}

#[test]
fn rename_prefix_only_moves_paths_inside() {
    assert_eq!(rewrite_prefix("games/a/x.md", "games/a", "games/b"), "games/b/x.md");
    assert_eq!(rewrite_prefix("games/a", "games/a", "games/b"), "games/b");
    assert_eq!(rewrite_prefix("games/ab/x.md", "games/a", "games/b"), "games/ab/x.md");
    let moved = rewrite_prefix("games/a/x.md", "games/a", "games/b");
    assert_eq!(rewrite_prefix(&moved, "games/b", "games/a"), "games/a/x.md");
}

#[test]
fn image_paths_by_extension() {
    assert!(is_image("a/logo.PNG"));
    assert!(is_image("a/app.icon"));
    assert!(!is_image("a/data.json5"));
    assert!(!is_image("png"));
}

#[test]
fn attribute_values_and_spans() {
    let tag = chars(r#"<iframe class="faces" src='face.html' title="Face""#);
    assert_eq!(attr_value(&tag, &chars("src")).map(|v| text(&v)), Some("face.html".to_string()));
    assert_eq!(attr_value(&tag, &chars("class")).map(|v| text(&v)), Some("faces".to_string()));
    assert_eq!(attr_value(&tag, &chars("srcdoc")), None);
    let (quote, start, close) = attr_span(&tag, &chars("src")).unwrap();
    assert_eq!(quote, '\'');
    assert_eq!(text(&tag[start..=close]), "src='face.html'");
    assert_eq!(attr_value(&chars(r#"<iframe datasrc="x""#), &chars("src")), None);
    assert_eq!(attr_value(&chars("<iframe src=face.html"), &chars("src")), None);
}

#[test]
fn relative_sources_resolve_next_to_the_page() {
    let resolve = |from: &str, href: &str| resolve_relative(&chars(from), &chars(href)).map(|v| text(&v));
    assert_eq!(resolve("d/preview.html", "face.html"), Some("d/face.html".to_string()));
    assert_eq!(resolve("d/preview.html", "./cards/back.html"), Some("d/cards/back.html".to_string()));
    assert_eq!(resolve("preview.html", "face.html"), Some("face.html".to_string()));
    assert_eq!(resolve("d/preview.html", "../face.html"), None);
    assert_eq!(resolve("d/preview.html", "/face.html"), None);
    assert_eq!(resolve("d/preview.html", "https://example.com"), None);
    assert_eq!(resolve("d/preview.html", "  "), None);
}

#[test]
fn external_sources() {
    for src in ["//cdn/x", "#top", "https://a", "data:text/html,x", "blob:x", "about:blank", "javascript:x"] {
        assert!(is_external_src(&chars(src)), "{src}");
    }
    assert!(!is_external_src(&chars("face.html")));
}

#[test]
fn srcdoc_escaping() {
    assert_eq!(text(&escape_srcdoc(&chars(r#"<p class="c">a & b</p>"#))), r#"&lt;p class=&quot;c&quot;>a &amp; b&lt;/p>"#);
}

#[test]
fn iframe_tag_rewrite_needs_a_stored_sibling() {
    let mut vfs = Vfs::new();
    vfs.put_file("d/face.html", "<b>f</b>".into()).unwrap();
    let tag = chars(r#"<iframe src="face.html""#);
    assert_eq!(
        text(&rewrite_iframe_tag(&vfs, &chars("d/preview.html"), &tag)),
        r#"<iframe srcdoc="&lt;b>f&lt;/b>""#
    );
    let missing = chars(r#"<iframe src="back.html""#);
    assert_eq!(text(&rewrite_iframe_tag(&vfs, &chars("d/preview.html"), &missing)), text(&missing));
    let kept = chars(r#"<iframe srcdoc="x" src="face.html""#);
    assert_eq!(text(&rewrite_iframe_tag(&vfs, &chars("d/preview.html"), &kept)), text(&kept));
}
