//! The editing core of a terminal text editor: a chunked text store that
//! loads large files lazily, cursors with selections, an invertible edit log
//! for undo and redo, a viewport that maps text to a character grid with or
//! without soft wrapping, and the bookkeeping for background search results.
//!
//! Offsets that lie outside a document are excluded by the contracts of the
//! verified functions; at the boundary where a caller's input is taken as is
//! (`Editor::select`), such offsets are refused and nothing changes.

pub mod bridge;
pub mod buffer;
pub mod chunks;
pub mod config;
pub mod cursor;
pub mod editor;
pub mod event;
pub mod lines;
pub mod search;
pub mod state;
mod text;
pub mod viewport;
