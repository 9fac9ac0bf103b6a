# pool_sim

The discrete core of a pool (pocket billiards) simulation project, verified with Verus: the rack
lattice and the seeded rack generator, the SplitMix64 stream, the fact stream and the rail
summary derived from it, the break-legality precedence table, the canonical event order, the
position hash, the indexed-PNG writer, a small JSON reader, and the candidate generator's rail
chains.

Layout:

- `src/` — the verified library.
  - `frame`, `rack`, `rng`: slots, arrangements, the generator and its stream.
  - `ball`, `table`, `facts`, `sim`, `state_hash`, `profile`: ball states (real values held as
    their bit patterns), table parts, facts, the event order, the hash, the provenance record.
  - `physics_core`: fact derivation and classification, the JSON reader, the PNG encoder
    (CRC-32, Adler-32, stored deflate, scanline filters), option lookup and fixed inputs.
  - `ai_spine`: shot kinds, rail chains, the toy simulator's events and hash.
  - `cue_ux`: the cue-input prototype's options.
  - `text`: decimal and hexadecimal text, and the unsigned-integer grammar of `from_str`.
- `tests/` — tests on concrete values, run against the compiled library.
- `app/` — what the library does not hold: files, process arguments, serde records, and the
  floating-point readings of the values the library keeps as bits or text.

Every function in `src/` states its result in `ensures`; the laws that span functions (round
trips, bijections, orderings, invariants of the generator and the reader) are public proof
functions beside the code they speak of.
