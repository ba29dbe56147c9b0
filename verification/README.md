# edlint_config

The configuration model of edlint, verified with Verus.

- `src/config_schema.rs` — the configuration as written (abstractions, links, rules).
- `src/config.rs` — the resolved configuration and its mathematical view (a tree of abstractions).
- `src/resolution.rs` — what resolving a schema means, as spec functions: links are followed
  through the table of reusable abstractions, each abstraction is resolved once and cached under
  its name (an empty placeholder breaks cycles), and an abstraction that extends another one
  overrides its children and rules.
- `src/schema_to_config.rs` — the executable resolution, proved to compute exactly that.
- `src/laws.rs` — properties proved for every input (names and key order in the cache, memoisation, overriding, rule kinds).
- `src/config_format.rs` — the choice of YAML or JSON by the file's extension.
- `src/find_config.rs` — the search for the configuration file; the file test is handed in.
- `src/index_map.rs` — the `indexmap` maps the resolution reads and fills, behind trusted wrappers.
- `app/` — reading the file and parsing JSON or YAML with serde, then resolving with the library.
