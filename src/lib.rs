//! A mutable octree over integer-grid boxes: items keyed by identifier are inserted, moved
//! and removed, and the tree divides full nodes into octants and merges them back when they
//! empty. Queries list every item, walk the nodes for diagnostics, or collect the items that a
//! caller's hit test (such as a ray) accepts. Alongside it live the small support pieces of
//! the host application: plugin registries, vertex buffer formats and stream bookkeeping.

pub mod geometry;
pub mod item;
pub mod node;
pub mod tree;
pub use tree::traversal;
pub mod laws;

pub mod buffer;
pub mod bundler;
pub mod error;
pub mod hash;
pub mod plugin;
pub mod plugins;
pub mod registry;
pub mod scene;
pub mod state;
pub mod stream;
pub mod window;
