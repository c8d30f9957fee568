# dotpick

Token-minimal field projection over JSON, YAML, TOML and NDJSON: select
fields by dotpath and emit the smallest valid slice. The library is written
in Verus; its behaviour is stated in `requires`/`ensures` contracts over a
mathematical model of documents and proved.

## Layout

- `src/value.rs`: the document type `Node` and its model `Json`.
- `src/text.rs`: characters, Unicode whitespace trimming, decimal text.
- `src/path.rs`: the dotpath grammar (`.key`, `["k"]`, `[0]`, `[]`, `.`),
  stated as a spec function and implemented by a verified scanner.
- `src/project.rs`: structured and flat projection, selection, merging and
  the "nearest existing key" hint (Levenshtein distance).
- `src/input.rs`, `src/output.rs`: format detection, NDJSON lines, and the
  readers and writers of `serde_json`, `serde_norway` and `toml`, called
  through small trusted wrappers whose results are named.
- `src/error.rs`: failures, their messages, kinds and exit codes.
- `src/schema.rs`: the clispec contract printed by `dotpick schema`.
- `src/laws.rs`: properties proved of every document and path.
- `src/containment.rs`: what structured output keeps: every pruned path is
  kept, at its place, in the merged projection.
- `app/main.rs`: the command-line program (argument parsing, I/O, error
  envelopes).
- `tests/`: tests of the library on concrete values.
