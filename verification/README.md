# blogawrite

A minimal Markdown editor for tiling window managers: you type Markdown and it renders.
The block with the live cursor is raw Markdown; the others are rendered. Spelling and
style checking are built in.

This crate is the editor's logic as a library verified with Verus:

- `src/text.rs`: UTF-16 positions (the way Qt counts) and byte offsets, and what lies
  between them.
- `src/markdown.rs`: the parser's events, as the rest of the library reads them.
- `src/parse.rs`: splitting a document into blocks and the source between them, so that
  saving writes back every byte.
- `src/block.rs`: what kind a block is, whether it is a lone image, and the Markdown to
  render for it.
- `src/style.rs`: what each character of the block being edited is part of.
- `src/lint.rs`: what the checker's findings become, which one the cursor stands in, and
  the cache of what was found.
- `src/document.rs`: the document being edited, step by step: moving, typing, splitting,
  merging, selecting, undoing, searching.

`app/` is the editor around it: Qt, the files on disk, and the checker's threads.
