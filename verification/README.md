# mdr

A Markdown reader's core, with machine-checked proofs of its contracts, and the
Dioxus desktop shell around it.

- `src/text.rs`: substring search, Unicode white space, ASCII case folding and
  string building over character sequences.
- `src/markdown.rs`: front matter stripping, heading slugs, the table of
  contents built from parser events, the code-block wrapper with language label
  and copy button, Markdown file detection, and `render_markdown`.
- `src/tree.rs`: the sidebar's file tree (folders first, case-insensitive name
  order, stable), the search filter, and the folder scan's choice per entry.
- `src/theme.rs`: theme modes, their cycle and labels, and the system theme.
- `src/shortcuts.rs`: the keyboard shortcuts.
- `src/viewer.rs`: what the viewer keeps of a finished file read, and what it
  shows of a file (raw text, or rendered HTML with its table of contents).
- `app/`: the Dioxus user interface, file system scanning and the folder
  dialog; it calls the library for every decision above.
