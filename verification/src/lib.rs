//! A commit-history query engine.
//!
//! Given a snapshot of a repository's commit graph, the engine resolves the
//! revisions to start from and to exclude, walks the graph in a chosen order,
//! filters the commits it meets, pages the survivors, and renders patches as
//! plain text. Every function carries a contract that Verus proves.

pub mod commit;
pub mod error;
pub mod graph;
pub mod reach;
pub mod topo;
pub mod timeline;
pub mod walk;
pub mod text;
pub mod filter;
pub mod page;
pub mod resolve;
pub mod patch;
pub mod load;
pub mod query;
