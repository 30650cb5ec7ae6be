# Glyphwire

A local Markdown editor with a live preview. The crate's library (`src/`) holds the
editor's logic with Verus contracts and proofs; the program around it (`app/`) holds the
window, the file system and the command-line plumbing.

Library modules:

- `workspace`: the open tabs of a window, the active tab, per-tab autosave state,
  opening, closing, saving and deleting files.
- `save`: the autosave state of one document and the autosave timer.
- `find`: case-insensitive literal search, the current match and the highlighted
  sections of the source text.
- `path`: file names, extensions and the Markdown test on Unix path bytes.
- `browser`: the order of the file browser and how each entry is shown.
- `text`: character copying, decimal numerals and the footer statistics.
- `cli`: help text, argument decisions, path checks and the renderer's surface policy.
- `logo`: the pixel artwork of the logo.
