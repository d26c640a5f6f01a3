# vortex-lz4

LZ4-backed compression for Vortex arrays, written in Rust and verified with
[Verus](https://github.com/verus-lang/verus).

A column of primitive values or of byte strings is stored as one or more LZ4 blocks ("frames").
Only the rows that hold a value are stored; the validity tells which rows those are. Each frame is
compressed on its own, and frame metadata lets a slice decompress just the frames that it needs.

## Layout

- `src/` is the library. Every function in it is verified against its contract.
- `tests/` runs the library with the real codec.
- `app/` reads and writes files, parses arguments and serializes the visualization's model.

## What is proved

- Every slice of a compressed column decompresses, without an error, to the rows of that slice,
  whatever the number of values per frame and wherever the nulls are (`src/roundtrip.rs`).
- Slicing and decompressing give the same in either order, for any frames whose metadata tells the
  true number of values in them (`src/slicing.rs`).
- A slice decompresses the frames that overlap it, and no others (`src/plan.rs`).
- Columns are equal exactly where they feed a hasher the same, and equal columns do so under any
  other accuracy of comparing frames (`src/data.rs`).
- Serialized metadata is read back as it was (`src/metadata.rs`).
- Splitting a stream of strings into segments loses nothing, and every view describes the value it
  was made for (`src/views.rs`).
- The columns of a visualization are in display order, their segments in a stable order by offset,
  and every name index leads to its name (`src/visualize.rs`, `src/order.rs`, `src/intern.rs`).
- The page holds the model in the place of its one placeholder (`src/template.rs`), and no column
  data influences it (`src/visualize.rs`).

## What is believed

The contracts of functions from other crates are taken on trust. They stand in `src/codec.rs`
(`lz4_flex`), `src/wire.rs` (`prost`), `src/postscript.rs` (`flatbuffers`) and, for `str::replace`,
in `src/text.rs`.

Frames that come from somewhere else may be corrupt. `Lz4::decompress` asks for frames that are
not; `Lz4::checked_decompress` takes any, and returns `None` for those.
