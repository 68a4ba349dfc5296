# hayro_jpeg2000

A JPEG 2000 decoder (ISO/IEC 15444-1, with some color spaces of the
extensions) whose parsing and entropy-decoding stages are written in Verus
and carry machine-checked contracts.

## Layout

- `src/` — the verified library.
  - `reader.rs`, `byte_reader.rs`: bit and byte readers, with bit stuffing
    (B.10.1) specified as a function on the bytes.
  - `boxes.rs`, `jp2/`: the JP2 container: boxes, the image header boxes
    (colour specification, channel definitions, palette, component
    mapping) and the color space that the image is decoded into.
  - `j2c/codestream.rs`, `j2c/markers.rs`: the main header of a codestream.
  - `j2c/tile.rs`: tiles, tile-parts, component and resolution tiles,
    precincts (Annex B).
  - `j2c/progression.rs`: the five progression orders (B.12) as state
    machines, each yielding the next packet in the order of a key; a run
    yields every packet once, in order.
  - `j2c/tag_tree.rs`, `j2c/segment.rs`: packet headers and bodies (B.10).
  - `j2c/blocks.rs`: decompositions, sub-bands, precincts and code-blocks.
  - `j2c/arithmetic_decoder.rs`, `j2c/bitplane.rs`: the MQ decoder (Annex C)
    and the three coding passes of the bitplane decoder (Annex D).
  - `j2c/decode.rs`: decoding the code-blocks of a tile into integer
    coefficients.
  - `j2c/idwt.rs`: the index arithmetic of the inverse wavelet transform.
  - `integration.rs`: the color types an image front end reports.
- `app/` — the floating-point stages around the library: dequantization,
  the inverse wavelet transform, the inverse component transform, the
  color conversions and the conversion to 8-bit samples.
- `tests/` — tests of the library.
