# prose

The verified core of `prose`, an opinionated Python formatter and
linter: the text, edit and alignment algorithms its rules share, the
docstring section grammar, import grouping, keyword reshaping of call
arguments, name resolution and the close of binding analysis, the
rule loop and the per-file cache flow as state machines, the
content-addressed cache decisions,
outcome aggregation and the exit-status matrix. The
library's own functions carry contracts that Verus proves; the calls
into outside crates (unicode-width, blake3, similar, fluent-uri,
anstyle, anstyle-query, anyhow) and into a few std functions go through small trusted
wrappers, whose contracts are believed, not proved, and whose doc
comments say what is assumed of them.

Layout:

- `src/` — the library, one module per concern (`edit`, `orderer`,
  `aligner`, `docstring`, `section`, `colon_targets`, `imports`,
  `cache`, `report`, `process`, `exit_status`, `output`, `github`,
  `locator`, `trivia`, `file_uri`, `rule`, `scope`, `binding`,
  `call_keywords`, `pipeline`, ...).
- `tests/` — example-based tests run against the compiled library.
- `app/` — the `prose` command: argument parsing, file and cache I/O,
  configuration files and output rendering around the library. The
  rule implementations and the Python parser they read are not part of
  this program, so as it stands the command drives the rule loop with
  no rule in it: it reads, caches and reports, but formats and lints
  nothing.
