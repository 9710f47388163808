# img_tool

A small command-line image tool — batch resize, sprite-atlas packing and
grid cutting — whose logic is a library verified with Verus.

## Layout

- `src/` — the verified library:
  - `img_resize` — scale modes, 9-way alignment, option parsing (`--stretch`,
    `--align`, `WxH` sizes), the resize layout and its composition onto a
    canvas, output naming and file-name filters;
  - `img_atlas` — uniform-grid and tight atlas packing, 512-rounded atlas
    sizes and stitching;
  - `img_cut` — name templates, file-name validation and grid cutting;
  - `packing` — row arithmetic of tight packing and the tallest-first order;
  - `natord` — natural-order comparison and stable natural sorting;
  - `canvas` — RGBA canvases (fill, paste, crop, Lanczos3 resampling through
    the `image` crate);
  - `options`, `text`, `permutation` — shared option values, text helpers and
    facts about orders of indices.
- `app/` — the command-line front end: argument parsing (`clap`), file
  discovery (`glob`), image decoding and encoding (`image`), the thread pool
  (`rayon`) and the floating-point aspect fit.
- `tests/` — tests of the library on concrete values.
