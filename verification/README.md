# ksuid

K-Sortable Unique Identifiers: 20-byte identifiers whose first 4 bytes are a
big-endian timestamp (seconds since 2014-05-13 16:53:20 UTC) and whose last
16 bytes are random. Their 27-character base62 strings sort as their bytes
do, and so by time.

The library is written in Verus: its functions state their behaviour in
`requires`/`ensures` clauses over mathematical models (sequences of bytes,
natural numbers), and Verus proves the code meets them. Where a result rests
on the system clock or the operating system's random source, the contracts
say only what holds of every outcome, and the failures of those sources come
back as errors.

Layout:

- `src/lib.rs`: the `Ksuid` type (parts, bytes, strings, hex, next/prev,
  ordering) and the laws that tie them together.
- `src/base62.rs`, `src/positional.rs`: base62 text and big-endian numbers.
- `src/compressed_set.rs`, `src/varint.rs`: the delta-encoded set format.
- `src/sequence.rs`, `src/sort.rs`: ordered generation and sorting.
- `src/civil.rs`, `src/cli.rs`: calendar dates and the command-line tool's
  decisions (arguments, output formats, templates).
- `src/platform.rs`, `src/text.rs`: the few calls whose results the library
  takes on trust (random bytes, the clock, string conversions).
- `app/`: the `ksuid` program (I/O, `Display`, serde support).
- `tests/`: tests run against the compiled library.
