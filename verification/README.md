# rezzy

Building blocks for Matrix room state, written in Rust and verified with Verus.

- `hamt`: a hash array mapped trie with keyed structural hashes. It builds, reads,
  changes, compares and persists tries, descends persisted ones level by level,
  audits which nodes live roots reach and keeps their reference counts.
- `merkle`: hashes and inclusion proofs for event fields, and an authenticated set
  of causal keys with proofs of inclusion and absence, plain or compressed.
- `reconcile`: set reconciliation between servers. Field arithmetic over 64 bits,
  syndrome sketches and their decoding, strata estimates, bucket triage, and the
  decisions of the requesting and the answering side.
- `lattice`, `power`, `room`, `graph`, `resolution`, `merge`, `summary`, `timeline`,
  `output`, `input`, `source`: the rules that take a set of events to a resolved state and
  describe it.
- `events`, `state`, `state_map`, `collections`, `json`, `text`, `bytes`, `calendar`:
  the values those rules work on.
- `primitives`, `bitmaps`: the calls into other crates (hash functions, base64,
  canonical JSON arrays, compressed bitmaps), each with the contract that the rest
  of the library relies on.

Contracts are stated over mathematical values: sequences, sets and maps of bytes,
characters and numbers. What holds of several functions together stands in public
proof functions, most of them in `hamt/laws.rs`, `hamt/build_laws.rs`,
`hamt/delta_laws.rs`, `hamt/gc_laws.rs` and at the end of the modules that they speak
of.

`app/` holds the command line program around the library: reading files and room
exports, and printing results.
