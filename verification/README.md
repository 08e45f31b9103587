# fountain

Luby transform (LT) fountain codes, verified with Verus.

An `Encoder` cuts a byte buffer into blocks of a fixed size and produces an
endless stream of droplets, each the XOR of some blocks (named by a seed for a
random sample, or listed). A `Decoder` catches droplets in any order and peels:
a droplet that names a single unknown block gives that block, which is then
XORed out of every droplet waiting for it.

Layout:

- `src/be_bytes.rs`: big-endian integer encodings.
- `src/droptype.rs`: droplet descriptions and their wire format, with the
  round-trip laws.
- `src/blocks.rs`: the model of padded source blocks and their XOR.
- `src/rng.rs`: the `rand` generators the codec draws on (trusted items).
- `src/encoder.rs`, `src/decoder.rs`: the codec; the decoder's contract states
  that what it learns is right for every source the droplets are consistent
  with, that known blocks keep their bytes, that a block becomes known only
  by peeling, and that nothing is left to peel after each droplet.
- `src/api.rs`: entry points with the packet size chosen by the caller and a
  kept decoder.
- `app/lib.rs`: WebAssembly bindings, and the ideal soliton degree
  distribution and overhead figure, which work in floating point.
