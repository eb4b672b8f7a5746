# smudgy_panes

The logic of a MUD client's pane layout, terminal and map tooling, written
in Verus. Every function in `src/` carries a contract that Verus proves,
except a few small trusted wrappers around std, unicode-segmentation,
serde_json and vtparse (grapheme lengths, lossy UTF-8 decoding, building a
string from characters, `char::is_alphanumeric`, `str::to_lowercase`,
parsing a JSON document, running bytes through the ANSI parser, and taking
their results into the library's own types) whose contracts state what
those functions document or name what they return.

- `src/` is the library. Its modules cover the tab-group pane model
  (`pane_groups`, with restore from blueprints), the grid it is built into
  (`grid_build`, `pane_edges`, `pane_drag`, `drag_overlay`, `tab_host`), the
  terminal scrollback (`terminal_buffer`, `word_search`, `terminal_pane`),
  the VT stream processor (`vt_processor`), authored ANSI tooltip copy
  (`ansi`) and OSC 8 link configuration (`link_config`, `json`), the layouts
  modal (`layouts`), remote-state delivery (`remote_interop`), input history
  (`input_history`), and the decisions of map relocation and legacy
  migration (`relocation`, `local_migration`, `presentation`), including the
  order in which a copy-then-delete transfer takes its steps. Laws that span
  several operations are public proof functions beside the operations they
  speak of.
- `app/` is ordinary Rust around the library: file I/O, the stream parser's
  callbacks handed to the processor, serde copies of library types,
  process-wide id minting, and the floating-point geometry of the pane grid.
- `tests/` runs the library on concrete values.

Tables keyed by ids or by case-folded paths (the pane model's groups and
tabs, the remote-state registry's bindings) are kept as vectors whose
invariants say no key occurs twice. Their contents and the order in which
they are walked are then stated exactly; a hash map with string, tuple or
struct keys gives Verus no key model to state either.
