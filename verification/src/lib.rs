//! Overlap-graph construction over sequencing reads.
//!
//! Given a set of reads (byte strings over the alphabet `{A, C, G, T}`) and a
//! target overlap length `L`, the library finds, for every ordered pair of
//! reads `(u, v)`, whether the length-`L` suffix of `u` equals the length-`L`
//! prefix of `v`, and records each such match as a directed edge.  A k-mer
//! index prunes the pairwise search, the assembled graph deduplicates edges
//! and exposes them in a stable order, and an offset locator reports every
//! occurrence of each overlap string inside the reads, flagging internal
//! (non-terminal) occurrences as candidate split points.

pub mod args;
pub mod bytes;
pub mod detect;
pub mod errors;
pub mod graph;
pub mod kmer;
pub mod locate;
pub mod reads;
