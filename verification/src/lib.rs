//! A mutable tree of markup nodes with parent, child and sibling links.
//!
//! The nodes of all the trees that belong together live in one [`Arena`].
//! A [`NodeRef`] is an owning handle to one of them. A node owns its first
//! child and its next sibling, and points weakly at its parent, its
//! previous sibling and its last child; it is destroyed when neither a
//! handle nor another node owns it any more.

pub mod cell;
pub mod children;
pub mod create;
pub mod data;
pub mod detach;
pub mod handle;
pub mod insert;
pub mod laws;
pub mod model;
pub mod navigate;
pub mod node;
pub mod payload;
pub mod shape;
pub mod store;
pub mod teardown;

pub use cell::MoveCell;
pub use data::{Doctype, DocumentData, ElementData, NodeData, QuirksMode};
pub use handle::NodeRef;
pub use model::{Field, NodeId};
pub use node::Node;
pub use store::Arena;
