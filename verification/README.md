# markdown_viewer

The core of a small, read-only Markdown viewer (a Tauri desktop app), written in
Verus: the library's own functions carry contracts that Verus proves; the calls into
`std` and the outside crates go through the small trusted wrappers described below.

## Layout

- `src/` — the verified library.
  - `text.rs` — characters and strings: trimming, ASCII case, decimal digits, and the
    calls into `std` and `percent-encoding` that the rest builds on.
  - `encoding.rs` — character-set detection (BOM, strict UTF-8, Shift_JIS fallback)
    over `encoding_rs`.
  - `render.rs` — heading anchors (GitHub-style slugs, made unique), neutralisation of
    raw HTML holding `<script`, and rendering through `pulldown-cmark`.
  - `paths.rs` — paths as component sequences and lexical resolution of `.` and `..`.
  - `keyed.rs` — vectors of key/value pairs read as maps.
  - `state.rs` — open documents, the folders from which local files may be served, and
    the hand-over of files given at start-up.
  - `commands.rs` — what the front end's commands compute: documents, link targets,
    external URLs, title-bar colours, command-line files.
  - `protocol.rs` — the decision for a request on the local-file URL scheme.
  - `settings.rs` — colour preset and zoom.
  - `watcher.rs` — which folders to watch, which changes matter, and the debounce of
    change notices.
- `tests/` — tests on concrete values.
- `app/` — the Tauri shell: windows, events, file I/O and the file watcher, calling the
  library for every decision.

## Trust

Calls into `std`, `encoding_rs`, `percent-encoding` and `pulldown-cmark` go through
small wrappers marked `#[verifier::external_body]`; each documents what its contract
claims of the outside function. Where an outside result takes pages to state, it is
given a name (an uninterpreted spec function) and the library's contracts speak of
that name.
