# grexa_db

A flat-file database engine: records are plain files with YAML frontmatter in a
directory tree, a directory with a `schema.md` is a collection, and a view is a
directory of symbolic links.

- `src/` is the library. It is written in Verus: what each function returns is
  stated in its contract and proved. It parses, validates, compares, queries,
  indexes and plans, on plain values only.
- `app/` is the program around it: the command line, and everything that reads or
  writes files.
- `tests/` runs the library.

The library relies on `serde_yaml_ng` to parse YAML and on `serde_json` to write
JSON, and to read it for a saved index. What is believed of the two crates stands
in `src/yaml.rs` and `src/sidecar.rs`.
