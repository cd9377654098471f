//! Persistence layer for the Grand Pattern cell graph: a compact binary
//! format, a JSON document format, CSV exports, an append-only tick log and
//! snapshots that carry JEPA state.
//!
//! Every floating-point quantity is held as its IEEE-754 bit pattern (`u64`),
//! so the library moves numbers through its formats without ever computing on
//! them. The text formats carry each number as its decimal text, a byte token
//! that the caller produces and reads with the standard float formatting; on
//! reading, the formats check each such text against the grammar that
//! `str::parse::<f64>` accepts (`float_text`).
use vstd::prelude::*;

pub mod text;
pub mod float_text;
pub mod graph;
pub mod persistence;
pub mod snapshot;
pub mod tick_log;
