use deck_gen_wasm::iframe::inline_relative_iframes;
use deck_gen_wasm::vfs::Vfs;

#[test]
fn iframe_inlines_sibling_iframe_src() {
    let mut vfs = Vfs::default();
    vfs.put_file("d/face.html", r#"<p class="c">card</p>"#.into())
        .unwrap();
    let preview = r#"<iframe class="faces" src="face.html" title="Face"></iframe>"#;
    let out = inline_relative_iframes(&vfs, "d/preview.html", preview);
    assert!(out.contains(r#"srcdoc="&lt;p class=&quot;c&quot;>card&lt;/p>""#));
    assert!(!out.contains(r#"src="face.html""#));
}

#[test]
fn iframe_leaves_external_iframe_src() {
    let vfs = Vfs::default();
    let preview = r#"<iframe src="https://example.com"></iframe>"#;
    let out = inline_relative_iframes(&vfs, "d/preview.html", preview);
    assert_eq!(out, preview);
}

#[test]
fn editor_inlines_sibling_iframe_src() {
    let mut vfs = Vfs::default();
    vfs.put_file("d/face.html", r#"<p class="c">card</p>"#.into())
        .unwrap();
    let preview = r#"<iframe class="faces" src="face.html" title="Face"></iframe>"#;
    let out = inline_relative_iframes(&vfs, "d/preview.html", preview);
    assert!(out.contains(r#"srcdoc="&lt;p class=&quot;c&quot;>card&lt;/p>""#));
    assert!(!out.contains(r#"src="face.html""#));
}

#[test]
fn editor_leaves_external_iframe_src() {
    let vfs = Vfs::default();
    let preview = r#"<iframe src="https://example.com"></iframe>"#;
    let out = inline_relative_iframes(&vfs, "d/preview.html", preview);
    assert_eq!(out, preview);
}
