# bookmarks

Bookmarks in your filesystem: named urls with aliases, and groups of names,
kept in a TOML file and opened by name, alias or group.

- `src/` is the library, verified with Verus:
  - `name_map.rs` — a map from names to values that keeps the order in which
    names were added; its abstract value is the sequence of entries.
  - `entry.rs` — url entries (a plain url, or a url with aliases).
  - `config.rs` — the configuration, name resolution, and the editing
    operations (rename/delete of urls, aliases and groups), each specified by
    the configuration it produces or the error it reports.
  - `validate.rs` — the consistency warnings of a configuration.
  - `open.rs` — expanding groups and resolving the names to open.
  - `listing.rs` — the printed listing, sorted by name.
  - `cli.rs`, `storage.rs` — the choices the command line makes, and where the
    bookmarks file lives.
  - `laws.rs`, `laws_warnings.rs` — properties that relate the operations,
    proved; among them, that every edit keeps a configuration without
    warnings free of warnings.
- `app/` is the command line program: argument parsing, reading and writing
  the TOML file, opening urls and starting the editor.
- `tests/` exercises the library on concrete configurations.
