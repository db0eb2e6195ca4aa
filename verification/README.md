# eomi_core

The verified core of an O-MI/O-DF node for small devices: the O-DF object
tree and its value histories, a lite JSON lexer, parser and writer, gzip
streaming for firmware uploads, provisioning and captive-portal logic, mDNS
and DNS message handling, GPIO and peripheral configuration, and the
callback and rate-limiting rules. Every function in `src/` is checked by
Verus against its `requires`/`ensures` contract.

Layout:

- `src/` — the library. `odf/` holds the data model, `json/` the lexer,
  parser (with `odf_spec.rs`, the model of what parsing O-DF JSON gives) and
  writer (with `escape.rs`, the proof that the lexer reads back what the
  writer escapes; `odf_writer.rs` and `omi_writer.rs` write O-DF objects and
  whole O-MI messages), `omi.rs` the O-MI message types, `compress.rs` the
  gzip code built on `miniz_oxide`.
- `tests/` — ordinary Rust tests of the library.
- `app/` — the parts that are not verified: logging, sensors, and the
  floating-point side of numbers (`values.rs`, `omi_io.rs`).

Numbers are held as the bits of IEEE 754 doubles. Turning number text into
a double is floating-point work and stays outside the library: the JSON
parser is handed a table from the end offset of each number token (see
`json::parser::number_literals`) to the bits of its double; `app/values.rs`
builds that table.

The O-MI parser also takes, for each fractional number token that denotes a
whole number, that number (for `ttl`). The writers are handed the other
way round: a table from the bits of each double to its JSON text, which
`app/omi_io.rs` fills with the formatter of doubles.
