# maelstrom_desktop

The workspace model of the Maelstrom photo library's desktop front end,
written in Verus.

- `src/` is the verified library: paths as component sequences, small keyed
  maps and sets, the folder index with its direct and total image counts, the
  workspace model with its per-folder preview index, the navigator's state and
  rows, preview ordering, the folder/catalog difference, and the texts of the
  metadata panel. `src/laws.rs` states the properties that span several calls.
- `tests/` runs the library on concrete values.
- `app/` is the iced front end around the library: windows, widgets, file
  dialogs, scans and catalog access.
