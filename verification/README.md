# nagato_apply

A library that reads unified diffs and git patches (text hunks, hunks without
headers, labels, renames, copies, modes, git binary patches) and applies them
to the contents of files. Its logic is written in Verus and proved against
the specifications that its functions state.

- `src/bytes.rs`, `src/kw.rs`, `src/paths.rs`: byte-string primitives, the
  keywords of the patch format, quoted paths.
- `src/lexer.rs`, `src/parser.rs`: the lexer (one item per line) and the
  parser, each specified by a spec function over the input.
- `src/model.rs`: patches, hunks and lines; reversing and joining patches;
  the plain form that `Patch::write_to` writes.
- `src/binary.rs`: base85 data lines and git binary deltas.
- `src/matcher.rs`, `src/writer.rs`, `src/engine.rs`, `src/stream.rs`: where a
  hunk matches a file, and applying a patch, buffered or while it is read.
- `src/fsplan.rs`: what patching a file does on disk.
- `src/laws.rs`: properties that hold across functions (applying and
  reversing, matching at the start, writing lines).
- `src/outside.rs`: the calls into `bstr`, `flate2` and `sha1`, with the
  contracts that the proofs rely on.
- `app/`: the file system, memory-mapped reads and errors with file names.
