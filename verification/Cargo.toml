[package]
name = "deck_gen_wasm"
version = "0.1.0"
edition = "2021"
publish = false

[dependencies]
pulldown-cmark = "=0.13.6"
syntect = { version = "=5.3.0", default-features = false, features = ["default-fancy"] }
serde = { version = "=1.0.229", features = ["derive"] }
serde_json = "=1.0.154"
leptos = { version = "=0.8.23", features = ["csr"] }
web-sys = { version = "=0.3.107", features = ["Window", "Document", "Storage", "Response", "HtmlTextAreaElement", "HtmlPreElement", "Blob", "BlobPropertyBag", "Url", "Element", "HtmlElement", "Event", "MouseEvent", "EventTarget"] }
js-sys = "=0.3.107"
wasm-bindgen = "=0.2.130"
wasm-bindgen-futures = "=0.4.80"
gloo-timers = { version = "=0.3.0", features = ["futures"] }
