# spartan_sha

Verified building blocks of a Spartan/F2Z proving stack for batched SHA-256
compressions and batched `u128 × u128` multiplications, written in Verus.

Library (`src/`, every item verified):

- `sha256` — native SHA-256 compression and chaining against a FIPS 180-4
  specification, public statements and their canonical word order, the
  circuit's input-bit order, the chained layout's public columns, and the
  BLAKE3 bindings of independent and chained public statements (with proofs
  that the hashed encodings determine the statements).
- `prime` — the batch-dependent interval of the runtime prime, its grinding
  schedule, and the exact 128-bit no-wrap acceptance test.
- `profile` — the statement facts a security profile consumes and the
  128-bit design instantiated from them.
- `u128_mul` — exact 256-bit products, the padded layout, the native witness,
  its slot-major bit packing, and the selector matrices.
- `packed_rows`, `witness_packing` — flat packed Boolean grids and the
  packing of synthesized SHA-256 assignments, including the chained batch's
  local-major product tensor.
- `ternary` — base-3 prefix indexing and the extension of a table over
  `{0,1}^k` to `{∞,0,1}^k`.
- `binding`, `transcript_messages` — little-endian encodings, the BLAKE3
  digest of absorbed bytes, security-parameter binding, and framed
  transcript messages.
- `sha256_checks`, `u128_f2z` — the shape checks run before a transcript is
  touched.

`app/` holds what Verus does not see: displayable error types (with
`thiserror`) converting to and from the library's, and JSON renderings of
transcript messages (with `serde_json`).

`tests/` exercises the library with the real outside crates linked.
