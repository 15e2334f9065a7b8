//! A raster painting engine: a pixel buffer drawn into with antialiased
//! brush strokes, with damage tracking and an undo/redo snapshot history.

pub mod brush;
pub mod buffer;
pub mod color;
pub mod damage;
pub mod engine;
pub mod history;
pub mod stroke;
