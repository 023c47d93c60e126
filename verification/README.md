# writ

The document logic of a hybrid markdown editor, written in Verus: raw text is edited in
place while the markers of its markdown (`**`, `#`, `-`) are hidden wherever the cursor is
not.

- `src/` is the library. Verus proves its functions against their contracts; calls into
  other crates stand behind small wrappers whose contracts are stated, not proved.
  - Text: `text`, `rope`, `segment_map` (buffer ↔ display positions)
  - Structure: `syntax`, `parser`, `marker`, `table`, `inline`
  - Lines: `line`, `render`, `text_engine`, `highlight`, `tokenize`, `theme`
  - GitHub: `pattern`, `refs`, `validation`, `github_sync`, `overlay`
  - Editing: `keys`, `text_input`, `paste`, `shell`, `pointer`, `frame`
  - Panels and images: `outline`, `status_bar`, `title_bar`, `viewport`, `window`,
    `image_cache`, `mermaid`, `math`, `markdown_view`, `raster`, `demo`
- `tests/` runs the library with the real parser, rope and regex engine.
- `app/` is a viewer around the library: a window (winit, Vello, Parley), one-frame
  snapshots, and diagrams and formulas written to files.

Offsets are bytes of UTF-8 text. Colors are roles of a theme, and font sizes are
percentages of the body text, so that only `app/` deals in pixels.
