//! Reachability in an undirected graph of named nodes.
//!
//! The library keeps a flat, append-only list of undirected edges between
//! named nodes (the edge store), and answers connectivity queries by a
//! depth-first traversal with a per-query visited set. Around that core it
//! offers a line parser for the two-section input format (edges first, then
//! queries), rendering of the report lines, and the two-phase loader that
//! drives both. Every function is specified against a mathematical model of
//! walks through the edge list, and the general connectivity laws (symmetry,
//! transitivity, separation of components, the self-query policy) are proved
//! in `laws`.

pub mod graph;
pub mod laws;
pub mod parse;
pub mod report;
pub mod reach;
pub mod session;
