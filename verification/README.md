# diskly

A terminal disk-usage explorer: it scans a directory, shows its entries
largest first with a pie of their shares, and lets the user gather entries
in a bin and delete them for good.

## Layout

- `src/` is the library, verified with Verus.
  - `fs/` holds the file tree: `entry.rs` (one file or directory), `path.rs`
    (paths as an optional drive prefix, a root flag and component names), `tree.rs` (the tree kept in an
    `indextree` arena, with its mathematical model in `model.rs` and the
    arena's trusted interface in `arena.rs`), and `scanner.rs` (building a
    tree from the entries a directory walk found).
  - `app/` holds the interface's state and rules: `state.rs` with the tree
    panel (`state/tree.rs`) and the bin (`state/bin.rs`), `command.rs`
    (reading keys and clicks), `dispatch.rs` (carrying commands out),
    `table.rs` (table selection and screen areas) and `tui.rs` (the texts and
    sizes the screen shows).
  - `config.rs` holds the settings and the remembered state.
- `app/` is the program around it: the event loop, the directory walk on a
  thread, the configuration files, deleting files, and drawing with
  `ratatui`.
- `tests/` exercises the library from outside.
