# xuan

The verified core of Xuan, a layered image editor: canvas limits, the layer
hierarchy and its structural check, grouping, duplication, merging and
deletion of layers, the undo history, the checks made when a project is
opened, paint-stroke snapshots, blend modes, file-name rules for RAW files and
exports, and the integer pixel work of levels, flattening, selections,
content-aware fill and background removal. Verus proves the functions in
`src/` against their contracts. Random identifiers and image decoding come
from outside crates through small wrappers whose contracts say what is
trusted, and reading a cancel flag promises nothing about what it reads.

Layout:

- `src/document.rs` – documents, layers, selection, the structural check, painting order.
- `src/operations.rs` – group, ungroup, duplicate, copy between documents, merge planning.
- `src/integrity.rs` – proofs that deleting layers and dissolving groups keep a document sound.
- `src/duplication.rs`, `src/grouping.rs`, `src/merging.rs` – the same for duplicating, grouping and merging.
- `src/ids.rs` – fresh random layer and document identifiers.
- `src/history.rs` – undo/redo with one pending transaction and save tracking.
- `src/project.rs`, `src/import.rs`, `src/assets.rs` – the checks made when a project file is opened, decoding imported image files under the size and pixel limits, and the checks on a document's pixel assets.
- `src/stroke.rs` – the pixel snapshot a paint gesture keeps.
- `src/picking.rs`, `src/targets.rs` – the layer under the pointer, the layer a retouching tool works on.
- `src/effects.rs`, `src/grain.rs` – adjustment and filter kinds, the hashes behind noise and grain.
- `src/retouch.rs` – content-aware fill order and sampling, background matte.
- `src/pixels.rs`, `src/buffers.rs` – histograms, levels, premultiplication, buffer padding.
- `src/blend.rs`, `src/paint.rs`, `src/raw.rs`, `src/export.rs`, `src/path.rs` – modes, kinds and file names.
- `src/widgets.rs`, `src/editing.rs`, `src/text.rs` – slider settings, closing the text dialog, name checks.
- `app/` – a small command-line front end that reads and writes image files.
