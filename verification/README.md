# vat

Versioned Addressable Tasks: a backlog kept in plain markdown
(`backlog/backlog.md`), with item files for notes (`backlog/items/<id>.md`),
a record of every ID ever assigned (`backlog/.used-ids`) and a project
configuration (`backlog/vat.toml`).

The library under `src/` is written in Verus. Every function states what it
returns in its contract, over spec functions on `Seq<char>` and the views of
the library's types, and Verus proves it. The command-line program under
`app/` reads and writes the files and hands their texts to the library.

## Layout

- `text.rs`, `line_endings.rs`: character-level vocabulary and line-ending
  normalization.
- `base32.rs`, `prefix.rs`: the Crockford base32 alphabet, validation and
  random strings.
- `backlog_file.rs`, `region_shape.rs`: frontmatter, parsed and freeform
  regions, task entries; what a written text reads back as.
- `bullet.rs`: the bullet-line grammar, its reader and its canonical writer.
- `item_file.rs`, `strip_laws.rs`: notes stripping and item files.
- `tombstone.rs`, `tombstone_laws.rs`: `.used-ids`.
- `sync_id.rs`, `id_assignment.rs`, `sync.rs`, `sync_laws.rs`: `vat sync`
  and its idempotence.
- `commands.rs`, `commands_laws.rs`: `start`, `block`, `unblock`, `done`.
- `config_cmd.rs`, `project_config.rs`, `user_config.rs`, `toml_doc.rs`:
  configuration files, read and written with the `toml` crate.
- `init.rs`, `readme_template.rs`, `completions.rs`: `vat init` and the
  shells that completion scripts exist for.
