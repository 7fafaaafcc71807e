//! Resolver for amidakuji (ghost-leg) puzzles: a fixed set of vertical lanes,
//! each seeded with a labeled entry, is transformed by successive rows of
//! horizontal-rung notation, and the final lane positions are joined to a row
//! of output labels.
//!
//! The crate has two parts: a notation normalizer that rewrites the compact
//! dash-based rung encoding into single-character movement tokens, and a lane
//! index tracker that folds each parsed row into a fresh lane-to-entries
//! mapping and finally pairs every entry with the output at its lane.

pub mod notation;
pub mod solver;
