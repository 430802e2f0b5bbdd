# rgbcx

BC1, BC3, BC4 and BC5 texture block encoding, decoding and endpoint refinement,
written in Verus: the library in `src/` is verified against its contracts.

## Layout

- `src/` — the verified library.
  - `types.rs`: formats, quality presets, errors and buffer sizes.
  - `bits.rs`: little-endian fields and packed selector words.
  - `image.rs`: input validation and 4x4 block extraction with edge replication.
  - `alpha.rs`: the eight-value ramp encoder used for BC3 alpha and BC4/BC5 channels.
  - `color.rs`: RGB endpoint fitting (single-color match, principal axis by power
    iteration, least squares, bounding box, cluster fit over ordered partitions,
    neighboring-endpoint search), all in exact integer arithmetic.
  - `decode.rs`: block and image decoding.
  - `encode.rs`: block and image encoding, and the laws that relate encoding to
    decoding and to the block structure of the image.
  - `refine.rs`: exhaustive neighboring-endpoint refinement of existing BC1/BC3 blocks.
  - `gpu.rs`: validation, batch packing and write-back for the hardware refiner.
  - `channels.rs`: which pixel channels each format's encoding reads.
  - `wide.rs`: two-limb integers for the exact principal-axis iteration.
- `tests/` — tests run against the compiled library.
- `app/` — the parts that Verus does not see: the Rayon parallel encoder, the wgpu
  refiner (device setup, shader and dispatch), and `Display`/`std::error::Error` for the
  error types.

## Arithmetic

Endpoint quantization, least-squares solving and the principal-axis iteration use
integers and exact rationals, so results are identical on every platform. The
single-color match picks, per channel, the endpoint pair whose interpolant is nearest the
block average, breaking ties toward close endpoints. The cluster fit tries every ordered
partition of the sorted pixels into runs of palette entries.
