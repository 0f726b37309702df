# issen

A linter for Japanese technical writing in Markdown, with the rules of
textlint's ja-technical-writing preset plus three document validators
(`required-headings`, `forbidden`, `terminology`). Every position it reports
is in UTF-16 code units, as textlint and LSP use.

The library under `src/` is verified with Verus: each rule's findings, the
Markdown-to-block mapping, sentence splitting, the fix applier and the lint
driver carry contracts stated over mathematical models of their inputs.

- `utf` — character widths, byte and UTF-16 offsets, small string builders.
- `document` — Markdown events (from pulldown-cmark) to lintable blocks whose
  segments map block text back to source bytes; line and column positions.
- `tokenizer`, `sentence` — tokens from a morphological backend, kept in
  order, and the sentence splitter.
- `rules` — the twenty rules and their registry.
- `config` — option values, matchers (`/regex/flags` or literals), the preset
  and the layering of a user configuration over it, the exit gate.
- `engine` — the lint driver, diagnostics, and fix application.
- `format` — summary counts and the text report.

`app/` is the command line: argument parsing, file I/O, reading `issen.yml`,
the Lindera backend, and the JSON reports.
