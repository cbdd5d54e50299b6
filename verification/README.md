# edge_detect

An edge-detection pipeline — greyscale, Sobel gradients, non-maximum
suppression, hysteresis threshold — whose integer stages are verified with
Verus, plus a tool that puts predicted edge maps next to their ground truth.

## Layout

- `src/` — the verified library.
  - `convolution.rs` — 2-D convolution with zero padding; exact integer sums,
    pixels computed in parallel with rayon.
  - `sobel.rs` — the Sobel derivatives `Gx` and `Gy`.
  - `nms.rs` — non-maximum suppression along a quantised gradient axis.
  - `threshold.rs` — hysteresis thresholding (8-connected flood fill) and the
    automatic threshold (85th percentile of the positive magnitudes).
  - `order_key.rs` — integer keys that compare as the `f32` values they
    stand for.
  - `compare.rs`, `font.rs`, `gray.rs` — side-by-side panels with a text
    label, the 5×7 bitmap font, and greyscale buffers of the `image` crate.
  - `grid.rs` — row-major index arithmetic.
- `app/` — the command-line programs: `edge-detect` (the pipeline; it also
  computes the gradient magnitude and direction in `f32`) and, when started
  as `compare-pairs`, the batch comparison tool.
- `tests/` — tests of the library.
