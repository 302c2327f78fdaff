//! A text buffer engine: a rope-backed text store with a multi-unit coordinate
//! system (bytes, grapheme columns, logical lines, view lines), a multi-cursor
//! selection model, a batch edit engine that tracks positional drift, an
//! interval-based style store, a cache of shaped-line glyph tables, and a
//! snapshot-based undo history.

pub mod buffer;
pub mod content;
pub mod movement;
pub mod rope;
pub mod selection;
pub mod shaped;
pub mod style;
pub mod text;
pub mod unit;
