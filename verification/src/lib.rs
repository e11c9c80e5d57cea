//! Core bookkeeping of a fractal-flame renderer: the hit-count histogram,
//! the scheduling of iteration work across sequences, and the state machine
//! that drives computation and merging.

pub mod visualization;
pub mod histogram;
pub mod compute_state;
