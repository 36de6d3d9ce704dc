//! The endgame engine: board symmetries, tile statistics, the row
//! evaluation, the masking of large tiles, the search cache and the search,
//! the per-move decisions, and the tablebase file format with its lookups.

pub mod symmetry;
pub mod stats;
pub mod moves;
pub mod masks;
pub mod cache;
pub mod eval;
pub mod rules;
pub mod mess;
pub mod player;
pub mod tablebase;
pub mod search;
pub mod step;
pub mod format;
pub mod probe;
