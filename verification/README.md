# byte_search

Find every index at which a one- or two-byte pattern (a sync sequence, for
example) begins in an in-memory `&[u8]`.

- `swar::swar_search` scans a machine word (`usize`) at a time: it XORs the
  word with the first byte broadcast into every lane (`broadcast`), flags the
  lanes that became zero (`zero_byte_mask`), and visits the flags lowest first.
- `simd::simd_search` does the same sixteen bytes at a time, comparing a
  128-bit vector in one instruction through the `wide` crate
  (`simd_match_mask`).

Both return the indices in increasing order, and both are specified by the same
function, `positions::match_positions`; `positions::lemma_match_positions_exact`
shows that it holds every start of the pattern and nothing else.

Layout: `src/lib.rs` (lane constants, `zero_byte_mask`, `broadcast`),
`src/positions.rs` (what a search returns), `src/swar.rs`, `src/simd.rs`;
the tests are under `tests/`.
