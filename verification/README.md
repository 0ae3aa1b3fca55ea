# lib — lossless config trees, structural diff and the checks around them

A verified library for round-tripping YAML and JSON byte for byte, viewing
what a document means, and diffing two documents by meaning rather than by
line.

- `src/cst.rs` — the lossless green tree: every byte of the input sits in a
  token, and a tree's text is its tokens' bytes in order.
- `src/yaml.rs`, `src/json.rs` — lexers, structural checks and tree builders.
  A parse succeeds exactly when the format accepts the input, and the tree's
  text is the input. The YAML tree holds one `LINE` node per source line,
  nested by indentation; the JSON tree nests a node per object and array.
- `src/semantic.rs` — the semantic view: scalars by resolved value, mappings
  in source order, sequences item by item; a format declines what it does not
  model, with a named reason.
- `src/diff.rs` — the structural diff over two views, with JSON Pointer paths,
  kinds and significance; laws: no semantic change exactly when the views mean
  the same, no change at all exactly when they are spelled alike.
- `src/konflux.rs`, `src/cli.rs` — argument routing, the human rendering and
  the exit codes of the `konflux` command.
- `src/spike/` — three tree representations compared on one lexer, each with
  its lossless and edit laws.
- `src/corpus.rs`, `src/conformance.rs`, `src/differential.rs`,
  `src/coverage.rs`, `src/survey.rs` and the other small modules — the logic of
  the repository's checks: corpus manifests, conformance ratchets, the
  differential probe, semantic coverage and the construct survey.
- `app/` — the binaries' I/O: reading files and directories, printing, and the
  floating-point shares of the reports.
- `tests/` — the test suite, run against the compiled library.

Everything under `src/` is written in Verus and carries its contracts and
proofs alongside the code.
