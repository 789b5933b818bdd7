# tickdown

Markdown tickets in a directory (`PREFIX-NUMBER Title.md`, closed ones in
`done/`), read leniently and written back in one canonical form, with a
two-way sync against GitHub issues through the `gh` CLI.

The library in `src/` holds the rules and is verified with Verus:

- `text` — characters, lines, trimming and decimal numbers as `str` treats them
- `timestamp` — comment times and UTC instants (read and printed by `chrono`)
- `ticket` — ids, tickets, comments and their canonical text
- `parser` — file names and the lenient reader of ticket files
- `roundtrip` — reading the canonical text of a ticket gives the ticket back
- `config` — projects and prefixes
- `config_file` — edits of the configuration file's TOML text (read and written by `toml`)
- `store` — file names, which file holds which ticket, the next number, listing order
- `metadata` — sync metadata in frontmatter and the content hash (SHA-256 by `sha2`)
- `remote` — remote issues, sync entries, the GitHub provider's fields
- `orchestrator` — escaping, the plan of a sync run, tickets after pull and push
- `commands` — checks, messages and plans of the command-line commands

`app/` is the `td` program: argument parsing, reading and writing files, the
`gh` CLI and printing. It runs the sync loop and asks the library what to do
and what to write at each step.
