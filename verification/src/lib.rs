//! A depth-first traversal engine over an abstract, index-addressed graph.
//!
//! The engine owns a stack frontier of pending vertex indices and a record of
//! vertices already emitted. It is generic over any graph provider that can
//! answer neighbor lookups by index, and offers both a pull-based stepping
//! operation and a push-based run-to-completion operation driven by a
//! caller-supplied visitor.

pub mod dfs;
pub mod graph;
pub mod laws;
pub mod provide;
