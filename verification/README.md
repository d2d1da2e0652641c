# duet_ui

The logic of a two-panel file manager's user interface, verified with Verus:
directory tables with cursor, selection and type-ahead search, tabs with
history and locks, column layouts, the dialogs for file operations, opening
files with their applications, and an icon cache.

- `src/` is the library. Every function states what it returns or changes.
- `tests/` runs it on concrete values.
- `app/` is the ordinary Rust around it: files, background work, drawing,
  processes and the environment.
