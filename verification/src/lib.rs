//! A virtual-tree reconciliation engine: a node data model, a memoized
//! renderer backed by a TTL-bounded cache, a diff algorithm producing an
//! ordered patch list, and a patcher that replays such lists on a tree.

pub mod cache;
pub mod cli;
pub mod diff;
pub mod laws;
pub mod node;
pub mod patch;
pub mod render;
pub mod replay;
pub mod serial;

pub use node::VNode;
pub use node::Value;
pub use patch::Patch;
pub use diff::diff_nodes;
pub use diff::diff_nodes_checked;
pub use cli::run_cli;
