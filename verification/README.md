# sentrux

Structural analysis of code bases: which file imports which, which function
calls which, which class extends which, and what the command line does with
the answers.

The library under `src/` is verified with Verus. Every function states what it
returns over sequences, sets and maps, and the proof functions named `law_*`
state what holds of several functions together.

- `text`, `lists`, `sorting`, `table`: strings, sequences, a stable merge sort,
  and maps keyed by text.
- `document`, `xml`, `manifest`: reading names and settings out of JSON, TOML,
  YAML, XML and line-based manifests, and writing JSON.
- `profile`, `projects`, `prefixes`, `aliases`, `modules`: what language plugins
  say about imports, which project a file belongs to, module prefixes, path
  aliases and the suffix index.
- `types`, `imports`, `graph`, `parallel`: files and edges, import resolution
  and the dependency graphs.
- `report`, `cli`, `license`, `analytics`, `quality`, `health`, `plugins`,
  `gui`: the decisions and messages of each command.

What the library cannot prove stands behind a few small functions marked
`external_body`, each beside the crate function that it calls: the parsers of
`serde_json`, `toml`, `serde_yaml` and `quick-xml`, the printer of `serde_json`,
and the parallel map of `rayon`. Three functions of the standard library have assumed specifications in
`text`: `char::is_whitespace`, `char::is_alphanumeric` and `String::push`.

`app/` is ordinary Rust around the library: arguments, files, processes and the
window. It stands on an analysis core, described by the trait `Core`.
