//! Verified core of a small pair-sorting tool.
//!
//! The library reads a text file (handed in as raw bytes) of lines that each
//! hold two whitespace-separated integers, and offers two operations:
//! sorting the pairs lexicographically and rendering them back to bytes, and
//! summing the absolute differences of the two independently sorted columns.

pub mod distance;
pub mod lines;
pub mod pair;
pub mod parse;
pub mod order;
pub mod sort;
