//! Line-aligned chunking, record scanning and per-station bookkeeping for
//! streams of `name;value` records.
//!
//! - [`lines`] finds the last line break of a block.
//! - [`dispatch`] turns the blocks of a stream into chunks that end on a line
//!   break, losing and repeating no byte.
//! - [`records`] locates the records of a chunk.
//! - [`order`] orders station names byte by byte.
//! - [`table`] gives each station a slot and counts its records.
//! - [`ingest`] counts the records of a chunk into a table.
//! - [`merger`] combines the tables of several workers.
//! - [`present`] lays out the result line.
//!
//! Every function is verified against a contract over plain sequences of
//! bytes. Measurements are handled as spans of text: the crate holds no
//! arithmetic on them, and a caller keeps their statistics by slot.

pub mod lines;
pub mod dispatch;
pub mod records;
pub mod order;
pub mod table;
pub mod merger;
pub mod ingest;
pub mod present;
