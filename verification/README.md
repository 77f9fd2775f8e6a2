# mumbling

The Mumbling v1 bitmap format, written and proved in Verus.

- `src/bits.rs`: bit streams, most significant bit first, and machine words.
- `src/bit_packing.rs`: bit packing and unpacking for widths 0 to 8.
- `src/pfor.rs`: patched frame-of-reference codec for the descriptor array. It
  prefers the larger bit width on ties (so `[6, 34, 8, 7]` encodes to
  `05 00 06 07 04 10`, not `32 01 06 09 01 E0`; both decode identically) and
  stores raw bytes when `b1 == 8`.
- `src/model.rs`: what a bitmap is: containers, their positions, and the
  canonical form of a set of positions.
- `src/wire.rs`: the serialized layout.
- `src/store.rs`, `src/mumbling.rs`: `MumblingBitmap`, the owning bitmap.
- `src/reader.rs`: `MumblingReader`, the zero-copy read view over serialized
  bytes.
- `src/framing.rs`, `src/page.rs`: pages of serialized bitmaps, Mumbling or
  Roaring, raw and compressed, for comparing the formats.
- `src/laws.rs`: what holds of bitmaps as a whole.
- `src/outside.rs`: everything taken from the standard library and from other
  crates without proof.
- `app/`: the program that measures pages of both formats and prints the results.

Container keys are the positions' high 24 bits, so a bitmap holds any `u32`
positions; one with positions below 2097152 can be serialized.
