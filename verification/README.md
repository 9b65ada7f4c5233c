# lepcc

Limited Error Point Cloud Compression (LEPCC) for the I3S point cloud formats,
written in Verus: every codec's bytes are stated as spec functions and the
executable encoders and decoders are proved to produce and read exactly them.

## Layout

- `src/` — the verified library
  - `blob.rs`, `common.rs`, `bit_math.rs`: the blob frame (file key, version,
    Fletcher checksum, size) and little-endian numbers
  - `bit_stuffer2.rs`, `bit_mask.rs`, `huffman.rs`: bit stuffing, bit masks,
    canonical Huffman codes and their decoding
  - `cluster_rgb.rs`, `intensity.rs`, `flag_bytes.rs`: the color, intensity and
    flag byte codecs, each with its round-trip law
  - `lepcc_xyz.rs`, `xyz_roundtrip.rs`: the integer grid of quantized points,
    its delta model cut into sections, and the proof that a point blob gives
    back the grid cells it was written from
  - `api.rs`: the high-level entry points and the laws on blob metadata
- `app/` — floating-point points (extent, quantization, reconstruction), the
  XYZ entry points and the `Display` texts, around the library
- `tests/` — executable tests of the library
