# hellodb

A sovereign, content-addressed, branchable record store, verified with Verus.

Records are immutable, signed and addressed by the BLAKE3 hash of their
canonical JSON encoding. Namespaces isolate applications; access across
namespaces needs a signed consent or delegation. Branches are drafts over
`main` that merge fast-forward. Deltas are sealed with per-namespace keys
and synced to blob stores the user controls.

## Layout

- `src/` — the verified library.
  - `json`, `canonical`: the JSON model and its deterministic encoding.
  - `crypto`: Ed25519 identities, X25519 exchange, ChaCha20-Poly1305
    sealing, BLAKE3 hashing and namespace keys. `crypto/primitives.rs`
    holds every call into the cryptographic and encoding crates, with the
    contract each is trusted to meet.
  - `record`, `schema`, `namespace`, `branch`: the core model.
  - `auth`: consent proofs, delegation credentials and the access gate.
  - `query`: filters, sorting, cursors and the query engine.
  - `storage`: the storage interface, the in-memory engine, and
    visibility over rows stored per branch.
  - `sync`: delta bundles, conflict resolution and the in-memory backend.
- `tests/` — tests of the library.
- `app/` — what stays outside the proofs: the SQLite engine, the
  filesystem sync backend, serde forms of the library's types, delta
  bundles on the wire, and reinforcement metadata (floating point).
