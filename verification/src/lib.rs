//! An ordered tree whose nodes live in one vector and are named by stable
//! handles, with the records that an application keeps in it.
//!
//! The tree is in `tree`, its nodes in `node`, its handles in `id`, and
//! the walks over it in `iterators`. What the tree is as a mathematical
//! value, and what each operation makes of that value, is in the `model`
//! modules; every operation of `Tree` says in its contract which of these
//! values it leaves. `laws` and `laws_height` hold what follows for the
//! operations taken together. `validate` decides whether a root, slots and
//! a free list describe a well-formed tree, so that a tree can be taken
//! apart and put together again. `format` draws a tree as text, `sort`
//! sorts the children of a node. `types` and `due` hold the groups and
//! tasks that are kept in a tree, `sse` the answers of a server that sends
//! events.

pub mod behaviors;
pub mod due;
pub mod error;
pub mod format;
pub mod id;
pub mod iterators;
pub mod laws;
pub mod laws_height;
pub mod model;
pub mod model_format;
pub mod model_move;
pub mod model_ops;
pub mod model_walk;
pub mod node;
pub mod seqs;
pub mod sort;
pub mod sse;
pub mod tree;
pub mod types;
pub mod validate;

pub use behaviors::{InsertBehavior, MoveBehavior, RemoveBehavior};
pub use due::{DueDateTime, Moment};
pub use error::NodeIdError;
pub use id::NodeId;
pub use iterators::{
    Ancestors, AncestorsIds, Children, ChildrenIds, PreOrderTraversal, PreOrderTraversalIds,
};
pub use model::TreeView;
pub use node::{Node, NodeView};
pub use sse::{SseRequest, SseResponse};
pub use tree::{Tree, TreeBuilder};
pub use types::{CaseNode, CaseTree, Error, Group, Priority, Task};
