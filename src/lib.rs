//! Rules engine of a grid-based mine-detection puzzle: mine placement,
//! adjacency counts, reveal with cascade, flags and win/loss detection.
pub mod event;
pub mod grid;
pub mod layout;
pub mod map;
