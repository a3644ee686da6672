# pxa_engine_win32

The document and editing core of a tile-based pixel-art editor, written in
Verus: every function under `src/` carries a contract that the verifier proves.

## Layout

- `src/model` — colours, blend modes, sparse tiled layers, selections, Bézier
  path nodes, symmetry settings, palettes and the pixel store that holds them.
- `src/history` — undoable patches (pixel diffs, region diffs, layer and canvas
  changes), the history manager, and the laws that undo restores what a patch
  changed and redo replays it.
- `src/format` — the PXAD container (header, tagged blocks, padding, CRC-32
  footer), the payload encodings of canvas, symmetry, palette, selection and
  layer blocks, and the hexadecimal palette format, each with a round-trip law.
- `src/render` — per-pixel blending and the composite cache.
- `src/tools` — line rasterisation, brushes, pencil, flood fill and bucket,
  rectangle and ellipse selection, eyedropper, move, pen, and the transform
  tool's lift, commit and cancel, with laws on cancel and undo.
- `app/` — a small command-line front end that reads and writes files and calls
  the library for everything else, plus the parts computed in floating point:
  the viewport mapping of the rendered frame, and the transform tool's pivot,
  offset, scale and rotation fields around the library's `TransformState`
  (lift, commit, cancel). The tool's pointer handling, hit test and preview
  are not part of this project.
- `tests/` — executable tests of the library.

The one outside crate, `crc32fast`, computes the footer checksum behind a single
trusted wrapper in `src/format/stream.rs`.
