# lime_core

The document model of Lime, a layered image editor, verified with Verus.

- `src/state.rs` — `AppState` and `UiCmd`: the command interpreter (`apply`),
  with a contract for every command, and `render_plan`, the list of tiles to
  composite, bottom layer first.
- `src/tiling.rs` — cutting a decoded image into 64x64 tiles.
- `src/compose.rs` — where each tile pixel lands on the canvas, and what it
  means to composite a list of pixel steps with a blend function.
- `src/render.rs` — `recompute_render`: compositing the document onto the
  canvas with a blend function that the caller supplies.
- `src/geometry.rs` — tile coordinates of a canvas position.
- `src/model.rs` — tiles, tile maps, objects, layers, images, renders.
- `src/slots.rs` — layer, object and image handles and the `slotmap` storage.
- `src/decode.rs` — decoding image files with the `image` crate.
- `src/naming.rs` — default layer names.
- `src/laws.rs` — proofs of what the commands keep: the state stays
  consistent and renderable, `apply` never leaves the render stale, hidden
  layers render as if left out, removing a new layer undoes adding it,
  moving a layer permutes the stack, tiling keeps every pixel, blits stay
  inside the canvas.

`app/` is the browser front end (eframe): it draws the panels, reads files,
and supplies the per-pixel blend, which works in floating point.
