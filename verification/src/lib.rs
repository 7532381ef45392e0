//! Associative-memory activation engine.
//!
//! Given a graph of memory nodes connected by weighted, directional
//! associations, this library computes how activation spreads from seed
//! nodes outward through the graph, decaying with distance and splitting
//! across branching connections.  It also ranks whole-graph importance by
//! power iteration and models temporally ordered episodes, where
//! activation spreads asymmetrically forward and backward in time.
//!
//! All quantities are nonnegative fixed-point numbers ([`fixed::Fixed`])
//! so that every computation is exact, deterministic and verified.

pub mod fixed;
pub mod graph;
pub mod spreading;
pub mod analytics;
pub mod temporal;
