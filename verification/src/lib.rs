//! Split a single input file into sequentially numbered smaller files,
//! either by a fixed number of lines per part or by a fixed byte count
//! per part (in kilobytes or megabytes).
//!
//! The crate holds the two verified components of the splitter:
//! the config resolver, which turns raw user options into exactly one of
//! two validated split specifications, and the split engine's decision
//! core, which fixes part boundaries, part names and the error taxonomy.
//! The caller performs the actual file reads and writes, driving the
//! engine's rotation state one input unit at a time.

pub mod engine;
pub mod models;
pub mod resolver;
