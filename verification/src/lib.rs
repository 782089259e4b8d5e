//! Verified core of the Xuan layered image editor: canvas limits, the layer
//! hierarchy, undo history, blend modes and integer pixel operations.
pub mod document;
pub mod ids;
pub mod history;
pub mod widgets;
pub mod text;
pub mod operations;
pub mod pixels;
pub mod blend;
pub mod path;
pub mod raw;
pub mod paint;
pub mod export;
pub mod buffers;
pub mod retouch;
pub mod integrity;
pub mod editing;
pub mod duplication;
pub mod merging;
pub mod grouping;
pub mod project;
pub mod stroke;
pub mod grain;
pub mod effects;
pub mod picking;
pub mod targets;
pub mod import;
pub mod assets;
