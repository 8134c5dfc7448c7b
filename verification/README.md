# gitstream

A real-time git diff watcher for the terminal: edits in the working tree show
up as a live, scrolling diff against `HEAD`, most recently modified file first.

## Layout

- `src/` is the verified library. Every function carries a contract that
  Verus proves:
  - `state`: the ordered change list (newest first, one entry per path);
  - `diff`: building hunks with context around the line diff, binary
    detection, the worker's known-path bookkeeping and the HEAD blob cache;
  - `linediff`, `width`: the calls into `imara-diff` and `unicode-width`;
  - `view`: scroll and focus, file offsets, navigation between files;
  - `render`: the rows of the diff pane, the sidebar and the titles;
  - `layout`, `input`, `editor`, `path`, `watcher`, `session`: pane
    geometry, the keymap, the editor command, path handling, watch-event
    classification and the event loop's decisions.
- `app/` is the binary around it: argument parsing, logging, the file
  watcher, the gix-backed diff worker thread and the ratatui front end.
- `tests/` runs the library on concrete values.

## Keys

`q`/`Ctrl-C` quit, `j`/`k` scroll a line, `d`/`u` or `PgDn`/`PgUp` a page,
`g`/`Home` top, `n`/`b` next/previous file, `s` toggles the sidebar,
`e`/`Enter` opens the focused file in `$VISUAL` or `$EDITOR`.
