# packtrace

Forensic reading of Git packs, indexes and loose objects, and reconstruction of delta chains.
Bytes that lie, such as a spoofed size, a checksum that does not match or a chain that runs in a
circle, are kept as evidence; no part of a failed reconstruction is ever kept as an object.

The library under `src/` is verified with Verus.

- `model/`: bytes, numbers, texts, tables, deltas and index files as mathematics, and the trusted
  calls into other crates (`model/outside.rs`).
- `git/`, `gitfmt/`, `gitbase.rs`, `gitcore.rs`, `gitenc.rs`, `gitobj.rs`, `formats.rs`,
  `binformat.rs`, `crc.rs`, `delta.rs`, `error.rs`: readers and writers of the formats.
- `builder.rs`, `builder_index.rs`, `fixtures.rs`, `forge.rs`: packs, indexes and loose objects
  that are built.
- `kernel/`: the in-memory engine with budgets, claims, pins and branches.
- `engine/`, `entry/`, `analyze/`, `analyzer.rs`, `analysis.rs`, `attach.rs`, `candidates.rs`,
  `app.rs`, `api.rs`: import, pairing, ranking, settlement, inspection and deletion over tables.

`app/` is the service around it: SQLite, files on disk and an HTTP interface.
`tests/` runs the library with the real decoders and hashers.
