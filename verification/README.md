# deck_gen_wasm

The workspace logic of an in-browser editor for card-deck projects, verified
with Verus.

* `src/` is the library. Every function in it carries a contract that Verus
  proves: the file store (`vfs`), paths, the explorer rows, tabs and the
  split preview, the copy plan, the workspace state machine, the help file,
  the sample-game installer and its repository listing, HTML preview helpers.
  Syntax highlighting (`syntect`) and Markdown rendering (`pulldown-cmark`)
  are called through small trusted wrappers whose results are named, not
  re-implemented.
* `tests/` runs the library on concrete values.
* `app/` is the Leptos front end: views, network, local storage. It holds no
  workspace rules of its own.
