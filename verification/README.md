# image_upscaler

The verified core of a desktop AI image upscaler and raster-to-SVG tracer.

- `src/` — the library, checked by Verus:
  - `upscaler/tiling.rs`: seamless tiled processing (tile origins, reflected
    tile extraction, core blitting, stitching) with the proofs that stitching
    replicated tiles gives the replicated source, that the output has the
    scaled size, and that tiles may be upscaled in any order.
  - `upscaler/mod.rs`, `upscaler/image_io.rs`: output formats, extensions and
    output file naming.
  - `upscaler/pipeline.rs`: bringing the model output to the target size and
    re-attaching transparency.
  - `upscaler/download.rs`: the model catalogue, cache paths and byte-count
    formatting.
  - `status.rs`, `vectorize.rs`: status texts, SVG output naming and tracing
    option labels.
- `app/` — the program around it: command line, GUI, file and network I/O,
  ONNX inference, parallel tile processing, target-size arithmetic and
  vector tracing.
- `tests/` — tests of the library on concrete values.
