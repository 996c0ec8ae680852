use vstd::prelude::*;
use crate::id::NodeId;

verus! {

/// Where `Tree::insert` puts the new node.
pub enum InsertBehavior<'a> {
    /// The node becomes the root. A root that was already there becomes the
    /// only child of the new one.
    AsRoot,
    /// The node becomes the last child of the given node.
    UnderNode(&'a NodeId),
}

/// What `Tree::remove_node` does with the children of the removed node.
pub enum RemoveBehavior {
    /// The whole subtree below the node is removed with it.
    DropChildren,
    /// The children move up to the removed node's parent, after the children
    /// the parent already has and in their own order. Without a parent this
    /// is `OrphanChildren`.
    LiftChildren,
    /// The children stay in the tree without a parent.
    OrphanChildren,
}

/// Where `Tree::move_node` puts the node.
pub enum MoveBehavior<'a> {
    /// The node, with its subtree, becomes the root. A root that was already
    /// there becomes its last child.
    ToRoot,
    /// The node becomes the last child of the given node. If the given node
    /// lies below the moved one, the child of the moved node on the path
    /// between them first takes the moved node's place.
    ToParent(&'a NodeId),
}

} // verus!
