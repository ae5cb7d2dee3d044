# czor

A tmux layout manager: split panes by ratio, describe nested layouts in a
small DSL (`v(2,h(1,1))`), build grids (`2x3`), or load layouts from YAML or
JSON files.

The library (`src/`) is written in Verus and verified:

- `layout` — the layout tree, its model, grids, and the conversion of
  weights into tmux's cascading `split-window -p` percentages;
- `text` — characters of a string, Unicode whitespace, decimal numbers;
- `lexer`, `parser` — the DSL, specified down to each error and its byte
  position;
- `grammar` — the DSL grammar as token derivations, with the proof that the
  parser accepts exactly the derived inputs;
- `plan` — the sequence of tmux splits that builds a layout;
- `file` — layout trees as files describe them;
- `args` — the command-line arguments (direction, ratio, grid dimensions).

`app/` is the command-line program: argument handling with clap, reading
layout files with serde, and running tmux.
