# fed

A terminal text editor whose logic is a library proved correct with Verus.

`src/` is the library:

- `piece_table`, `piece`, `history`, `lines`, `slice`: the piece table that
  holds a document, with line starts kept up to date and a commit based
  undo/redo tree.
- `fed_core`: the documents of the editor and the commands on them, a batch
  of commands run in order, and what each command answers.
- `action`, `text_lines`: cursors and edits on a document: moving, typing,
  tabs to tab stops, backspace and delete, transactions.
- `layout`, `cell`, `unicode`: how a line is laid out in columns and cells,
  with tabs, wide graphemes and decorations.
- `screen`, `viewport`, `view_render`, `decorator`, `mode_line`,
  `buffer_render`, `text_format`: drawing views, gutters and mode lines onto
  the screen grid, and the terminal operations that draw what changed.
- `input`, `commands`, `state`, `types`, `scroll`, `mini_buffer`: what keys and
  clicks do, the order handlers are asked in, scrolling, and the mini buffer's
  messages and prompts.
- `tiles`: which window is on top at a position, and which tile lies next
  in a direction.

`app/` is the program around it: the terminal, the event loop, files, the
tile tree with its split ratios, and the core as an asynchronous service.

`tests/` runs the library on concrete inputs.
