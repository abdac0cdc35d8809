//! Resumable chunked-transfer engine.
//!
//! The crate tracks which byte ranges of a file have been written
//! (`progress`), plans how the remaining ranges are fetched by parallel
//! workers (`engine`), persists that state so an interrupted transfer can
//! resume (`persist`), derives transfer metadata from HTTP response headers
//! (`prefetch`), supervises several transfers as addressable tasks
//! (`manager`), and renders live progress as text (`painter`, `fmt`).

pub mod engine;
pub mod fmt;
pub mod manager;
pub mod painter;
pub mod persist;
pub mod prefetch;
pub mod progress;
