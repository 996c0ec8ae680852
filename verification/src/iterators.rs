use std::collections::VecDeque;
use vstd::prelude::*;
use vstd::std_specs::vecdeque::VecDequeAdditionalSpecFns;
use crate::id::NodeId;
use crate::id::group_node_id;
use crate::model::TreeView;
use crate::node::Node;
use crate::tree::Tree;

verus! {

broadcast use group_node_id;

/// Walks over the children of a node, first to last, and hands out the
/// nodes. The tree must not change while the walk is in use.
pub struct Children<'a, T> {
    tree: &'a Tree<T>,
    child_ids: &'a Vec<NodeId>,
    position: usize,
}

impl<'a, T> Children<'a, T> {
    /// The tree that is walked.
    pub closed spec fn tree(&self) -> TreeView<T> {
        self.tree@
    }

    /// The handles of the nodes still to come, next first.
    pub closed spec fn remaining(&self) -> Seq<NodeId> {
        self.child_ids@.skip(self.position as int)
    }

    /// The walk stands inside a well-formed tree.
    pub closed spec fn wf(&self) -> bool {
        &&& self.tree.wf()
        &&& self.position <= self.child_ids@.len()
        &&& forall|i: int|
            0 <= i < self.child_ids@.len() ==> self.tree@.contains(#[trigger] self.child_ids@[i])
    }

    /// A walk that starts at the node.
    pub(crate) fn new(tree: &'a Tree<T>, node_id: &NodeId) -> (walk: Children<'a, T>)
        requires
            tree.wf(),
            tree@.contains(*node_id),
        ensures
            walk.wf(),
            walk.tree() == tree@,
            walk.remaining() == tree@.children_of(*node_id),
    {
        let child_ids = match tree.get(node_id) {
            Ok(node) => node.children(),
            Err(_) => vstd::pervasive::unreached(),
        };
        proof {
            assert(child_ids@.skip(0) =~= child_ids@);
            assert forall|i: int| 0 <= i < child_ids@.len() implies tree@.contains(
                #[trigger] child_ids@[i],
            ) by {
                tree@.lemma_measures_child(*node_id, i);
            }
        }
        Children { tree, child_ids, position: 0 }
    }

    /// The next child, or `None` when all have been handed out.
    pub fn next(&mut self) -> (r: Option<&'a Node<T>>)
        requires
            old(self).wf(),
        ensures
            final(self).wf(),
            final(self).tree() == old(self).tree(),
            match r {
                Some(node) => {
                    &&& old(self).remaining().len() > 0
                    &&& old(self).tree().contains(old(self).remaining()[0])
                    &&& node@ == old(self).tree().node(old(self).remaining()[0])
                    &&& final(self).remaining() == old(self).remaining().skip(1)
                },
                None => old(self).remaining().len() == 0 && final(self).remaining().len() == 0,
            },
    {
        if self.position < self.child_ids.len() {
            let child_id = &self.child_ids[self.position];
            proof {
                assert(self.child_ids@.skip(self.position as int).skip(1)
                    =~= self.child_ids@.skip(self.position + 1));
            }
            self.position += 1;
            match self.tree.get(child_id) {
                Ok(node) => Some(node),
                Err(_) => vstd::pervasive::unreached(),
            }
        } else {
            None
        }
    }
}

impl<'a, T> Clone for Children<'a, T> {
    /// A second walk that stands where this one stands.
    fn clone(&self) -> (walk: Self)
        ensures
            walk == *self,
    {
        Children { tree: self.tree, child_ids: self.child_ids, position: self.position }
    }
}

/// Walks over the children of a node, first to last, and hands out their
/// handles.
pub struct ChildrenIds<'a> {
    child_ids: &'a Vec<NodeId>,
    position: usize,
}

impl<'a> ChildrenIds<'a> {
    /// The handles still to come, next first.
    pub closed spec fn remaining(&self) -> Seq<NodeId> {
        self.child_ids@.skip(self.position as int)
    }

    /// The walk has not run past the end.
    pub closed spec fn wf(&self) -> bool {
        self.position <= self.child_ids@.len()
    }

    /// A walk that starts at the node.
    pub(crate) fn new<T>(tree: &'a Tree<T>, node_id: &NodeId) -> (walk: ChildrenIds<'a>)
        requires
            tree@.contains(*node_id),
        ensures
            walk.wf(),
            walk.remaining() == tree@.children_of(*node_id),
    {
        let child_ids = match tree.get(node_id) {
            Ok(node) => node.children(),
            Err(_) => vstd::pervasive::unreached(),
        };
        proof {
            assert(child_ids@.skip(0) =~= child_ids@);
        }
        ChildrenIds { child_ids, position: 0 }
    }

    /// The handle of the next child, or `None` when all have been handed
    /// out.
    pub fn next(&mut self) -> (r: Option<&'a NodeId>)
        requires
            old(self).wf(),
        ensures
            final(self).wf(),
            match r {
                Some(id) => {
                    &&& old(self).remaining().len() > 0
                    &&& *id == old(self).remaining()[0]
                    &&& final(self).remaining() == old(self).remaining().skip(1)
                },
                None => old(self).remaining().len() == 0 && final(self).remaining().len() == 0,
            },
    {
        if self.position < self.child_ids.len() {
            let child_id = &self.child_ids[self.position];
            proof {
                assert(self.child_ids@.skip(self.position as int).skip(1)
                    =~= self.child_ids@.skip(self.position + 1));
            }
            self.position += 1;
            Some(child_id)
        } else {
            None
        }
    }
}

/// Walks from a node up to the top of its tree and hands out the nodes on
/// the way, the parent first. The starting node is not handed out.
pub struct Ancestors<'a, T> {
    tree: &'a Tree<T>,
    node_id: Option<NodeId>,
}

impl<'a, T> Ancestors<'a, T> {
    /// The tree that is walked.
    pub closed spec fn tree(&self) -> TreeView<T> {
        self.tree@
    }

    /// The handles of the nodes still to come, next first.
    pub closed spec fn remaining(&self) -> Seq<NodeId> {
        match self.node_id {
            Some(id) => self.tree@.ancestors(id),
            None => Seq::empty(),
        }
    }

    /// The walk stands inside a well-formed tree.
    pub closed spec fn wf(&self) -> bool {
        &&& self.tree.wf()
        &&& self.node_id matches Some(id) ==> self.tree@.contains(id)
    }

    /// A walk that starts at the node.
    pub(crate) fn new(tree: &'a Tree<T>, node_id: NodeId) -> (walk: Ancestors<'a, T>)
        requires
            tree.wf(),
            tree@.contains(node_id),
        ensures
            walk.wf(),
            walk.tree() == tree@,
            walk.remaining() == tree@.ancestors(node_id),
    {
        Ancestors { tree, node_id: Some(node_id) }
    }

    /// The next ancestor, or `None` when the top has been passed.
    pub fn next(&mut self) -> (r: Option<&'a Node<T>>)
        requires
            old(self).wf(),
        ensures
            final(self).wf(),
            final(self).tree() == old(self).tree(),
            match r {
                Some(node) => {
                    &&& old(self).remaining().len() > 0
                    &&& old(self).tree().contains(old(self).remaining()[0])
                    &&& node@ == old(self).tree().node(old(self).remaining()[0])
                    &&& final(self).remaining() == old(self).remaining().skip(1)
                },
                None => old(self).remaining().len() == 0 && final(self).remaining().len() == 0,
            },
    {
        let tree: &'a Tree<T> = self.tree;
        match self.node_id.take() {
            Some(current_id) => {
                let parent = match tree.get(&current_id) {
                    Ok(node) => node.parent(),
                    Err(_) => vstd::pervasive::unreached(),
                };
                match parent {
                    Some(parent_id) => {
                        proof {
                            tree@.lemma_measures(current_id);
                            assert((seq![*parent_id] + tree@.ancestors(*parent_id)).skip(1)
                                =~= tree@.ancestors(*parent_id));
                        }
                        self.node_id = Some(*parent_id);
                        match tree.get(parent_id) {
                            Ok(node) => Some(node),
                            Err(_) => vstd::pervasive::unreached(),
                        }
                    },
                    None => None,
                }
            },
            None => None,
        }
    }
}

impl<'a, T> Clone for Ancestors<'a, T> {
    /// A second walk that stands where this one stands.
    fn clone(&self) -> (walk: Self)
        ensures
            walk == *self,
    {
        Ancestors { tree: self.tree, node_id: self.node_id }
    }
}

/// Walks from a node up to the top of its tree and hands out the handles of
/// the nodes on the way, the parent's first.
pub struct AncestorsIds<'a, T> {
    tree: &'a Tree<T>,
    node_id: Option<NodeId>,
}

impl<'a, T> AncestorsIds<'a, T> {
    /// The tree that is walked.
    pub closed spec fn tree(&self) -> TreeView<T> {
        self.tree@
    }

    /// The handles still to come, next first.
    pub closed spec fn remaining(&self) -> Seq<NodeId> {
        match self.node_id {
            Some(id) => self.tree@.ancestors(id),
            None => Seq::empty(),
        }
    }

    /// The walk stands inside a well-formed tree.
    pub closed spec fn wf(&self) -> bool {
        &&& self.tree.wf()
        &&& self.node_id matches Some(id) ==> self.tree@.contains(id)
    }

    /// A walk that starts at the node.
    pub(crate) fn new(tree: &'a Tree<T>, node_id: NodeId) -> (walk: AncestorsIds<'a, T>)
        requires
            tree.wf(),
            tree@.contains(node_id),
        ensures
            walk.wf(),
            walk.tree() == tree@,
            walk.remaining() == tree@.ancestors(node_id),
    {
        AncestorsIds { tree, node_id: Some(node_id) }
    }

    /// The handle of the next ancestor, or `None` when the top has been
    /// passed.
    pub fn next(&mut self) -> (r: Option<&'a NodeId>)
        requires
            old(self).wf(),
        ensures
            final(self).wf(),
            final(self).tree() == old(self).tree(),
            match r {
                Some(id) => {
                    &&& old(self).remaining().len() > 0
                    &&& *id == old(self).remaining()[0]
                    &&& old(self).tree().contains(*id)
                    &&& final(self).remaining() == old(self).remaining().skip(1)
                },
                None => old(self).remaining().len() == 0 && final(self).remaining().len() == 0,
            },
    {
        let tree: &'a Tree<T> = self.tree;
        match self.node_id.take() {
            Some(current_id) => {
                let parent = match tree.get(&current_id) {
                    Ok(node) => node.parent(),
                    Err(_) => vstd::pervasive::unreached(),
                };
                match parent {
                    Some(parent_id) => {
                        proof {
                            tree@.lemma_measures(current_id);
                            assert((seq![*parent_id] + tree@.ancestors(*parent_id)).skip(1)
                                =~= tree@.ancestors(*parent_id));
                        }
                        self.node_id = Some(*parent_id);
                        Some(parent_id)
                    },
                    None => None,
                }
            },
            None => None,
        }
    }
}

impl<'a, T> Clone for AncestorsIds<'a, T> {
    /// A second walk that stands where this one stands.
    fn clone(&self) -> (walk: Self)
        ensures
            walk == *self,
    {
        AncestorsIds { tree: self.tree, node_id: self.node_id }
    }
}

/// Walks over a subtree in pre-order and hands out the nodes: a node, then
/// the subtrees of its children from first to last. The nodes still to be
/// visited wait in a queue, so that a deep tree needs no deep call stack.
pub struct PreOrderTraversal<'a, T> {
    tree: &'a Tree<T>,
    data: VecDeque<NodeId>,
}

/// Puts the children of a node in front of the queue, in their order.
fn queue_children<T>(tree: &Tree<T>, node: &Node<T>, data: &mut VecDeque<NodeId>)
    ensures
        final(data)@ == node@.children + old(data)@,
{
    let children = node.children();
    let mut j: usize = children.len();
    proof {
        assert(children@.skip(j as int) + data@ =~= data@);
    }
    while j > 0
        invariant
            j <= children@.len(),
            data@ == children@.skip(j as int) + old(data)@,
        decreases j,
    {
        j -= 1;
        data.push_front(children[j]);
        proof {
            assert(seq![children@[j as int]] + (children@.skip(j + 1) + old(data)@)
                =~= children@.skip(j as int) + old(data)@);
        }
    }
    proof {
        assert(children@.skip(0) =~= children@);
    }
}

impl<'a, T> PreOrderTraversal<'a, T> {
    /// The tree that is walked.
    pub closed spec fn tree(&self) -> TreeView<T> {
        self.tree@
    }

    /// The handles of the nodes still to come, next first.
    pub closed spec fn remaining(&self) -> Seq<NodeId> {
        self.tree@.pre_order_all(self.data@)
    }

    /// The walk stands inside a well-formed tree.
    pub closed spec fn wf(&self) -> bool {
        &&& self.tree.wf()
        &&& forall|i: int| 0 <= i < self.data@.len() ==> self.tree@.contains(#[trigger] self.data@[i])
    }

    /// A walk that starts at the node.
    pub(crate) fn new(tree: &'a Tree<T>, node_id: NodeId) -> (walk: PreOrderTraversal<'a, T>)
        requires
            tree.wf(),
            tree@.contains(node_id),
        ensures
            walk.wf(),
            walk.tree() == tree@,
            walk.remaining() == tree@.pre_order(node_id),
    {
        let mut data = VecDeque::with_capacity(tree.capacity());
        data.push_front(node_id);
        proof {
            tree@.lemma_pre_order_all_first(node_id, Seq::empty());
            assert(data@ =~= seq![node_id] + Seq::<NodeId>::empty());
            assert(tree@.children_of(node_id) + Seq::<NodeId>::empty() =~= tree@.children_of(
                node_id,
            ));
        }
        PreOrderTraversal { tree, data }
    }

    /// The next node in pre-order, or `None` when the subtree has been
    /// walked.
    pub fn next(&mut self) -> (r: Option<&'a Node<T>>)
        requires
            old(self).wf(),
        ensures
            final(self).wf(),
            final(self).tree() == old(self).tree(),
            match r {
                Some(node) => {
                    &&& old(self).remaining().len() > 0
                    &&& old(self).tree().contains(old(self).remaining()[0])
                    &&& node@ == old(self).tree().node(old(self).remaining()[0])
                    &&& final(self).remaining() == old(self).remaining().skip(1)
                },
                None => old(self).remaining().len() == 0 && final(self).remaining().len() == 0,
            },
    {
        let tree: &'a Tree<T> = self.tree;
        match self.data.pop_front() {
            Some(node_id) => {
                let ghost rest = self.data@;
                proof {
                    assert(old(self).data@ =~= seq![node_id] + rest);
                    assert(tree@.contains(old(self).data@[0]));
                    tree@.lemma_pre_order_all_first(node_id, rest);
                }
                let node = match tree.get(&node_id) {
                    Ok(node) => node,
                    Err(_) => vstd::pervasive::unreached(),
                };
                queue_children(tree, node, &mut self.data);
                proof {
                    let kids = tree@.children_of(node_id);
                    assert forall|i: int| 0 <= i < self.data@.len() implies tree@.contains(
                        #[trigger] self.data@[i],
                    ) by {
                        if i < kids.len() {
                            tree@.lemma_measures_child(node_id, i);
                        } else {
                            assert(self.data@[i] == old(self).data@[i - kids.len() + 1]);
                        }
                    }
                    assert((seq![node_id] + tree@.pre_order_all(kids + rest)).skip(1)
                        =~= tree@.pre_order_all(kids + rest));
                }
                Some(node)
            },
            None => {
                None
            },
        }
    }
}

impl<'a, T> Clone for PreOrderTraversal<'a, T> {
    /// A second walk that stands where this one stands.
    fn clone(&self) -> (walk: Self)
        ensures
            walk.tree() == self.tree(),
            walk.remaining() == self.remaining(),
            walk.wf() == self.wf(),
    {
        let data = self.data.clone();
        proof {
            assert forall|i: int| 0 <= i < data@.len() implies data@[i] == self.data@[i] by {
                assert(vstd::pervasive::cloned::<NodeId>(self.data[i], data[i]));
            }
            assert(data@ =~= self.data@);
        }
        PreOrderTraversal { tree: self.tree, data }
    }
}

/// Walks over a subtree in pre-order and hands out the handles.
pub struct PreOrderTraversalIds<'a, T> {
    tree: &'a Tree<T>,
    data: VecDeque<NodeId>,
}

impl<'a, T> PreOrderTraversalIds<'a, T> {
    /// The tree that is walked.
    pub closed spec fn tree(&self) -> TreeView<T> {
        self.tree@
    }

    /// The handles still to come, next first.
    pub closed spec fn remaining(&self) -> Seq<NodeId> {
        self.tree@.pre_order_all(self.data@)
    }

    /// The walk stands inside a well-formed tree.
    pub closed spec fn wf(&self) -> bool {
        &&& self.tree.wf()
        &&& forall|i: int| 0 <= i < self.data@.len() ==> self.tree@.contains(#[trigger] self.data@[i])
    }

    /// A walk that starts at the node.
    pub(crate) fn new(tree: &'a Tree<T>, node_id: NodeId) -> (walk: PreOrderTraversalIds<'a, T>)
        requires
            tree.wf(),
            tree@.contains(node_id),
        ensures
            walk.wf(),
            walk.tree() == tree@,
            walk.remaining() == tree@.pre_order(node_id),
    {
        let mut data = VecDeque::with_capacity(tree.capacity());
        data.push_front(node_id);
        proof {
            tree@.lemma_pre_order_all_first(node_id, Seq::empty());
            assert(data@ =~= seq![node_id] + Seq::<NodeId>::empty());
            assert(tree@.children_of(node_id) + Seq::<NodeId>::empty() =~= tree@.children_of(
                node_id,
            ));
        }
        PreOrderTraversalIds { tree, data }
    }

    /// The handle of the next node in pre-order, or `None` when the subtree
    /// has been walked.
    pub fn next(&mut self) -> (r: Option<NodeId>)
        requires
            old(self).wf(),
        ensures
            final(self).wf(),
            final(self).tree() == old(self).tree(),
            match r {
                Some(id) => {
                    &&& old(self).remaining().len() > 0
                    &&& id == old(self).remaining()[0]
                    &&& old(self).tree().contains(id)
                    &&& final(self).remaining() == old(self).remaining().skip(1)
                },
                None => old(self).remaining().len() == 0 && final(self).remaining().len() == 0,
            },
    {
        let tree: &'a Tree<T> = self.tree;
        match self.data.pop_front() {
            Some(node_id) => {
                let ghost rest = self.data@;
                proof {
                    assert(old(self).data@ =~= seq![node_id] + rest);
                    assert(tree@.contains(old(self).data@[0]));
                    tree@.lemma_pre_order_all_first(node_id, rest);
                }
                let node = match tree.get(&node_id) {
                    Ok(node) => node,
                    Err(_) => vstd::pervasive::unreached(),
                };
                queue_children(tree, node, &mut self.data);
                proof {
                    let kids = tree@.children_of(node_id);
                    assert forall|i: int| 0 <= i < self.data@.len() implies tree@.contains(
                        #[trigger] self.data@[i],
                    ) by {
                        if i < kids.len() {
                            tree@.lemma_measures_child(node_id, i);
                        } else {
                            assert(self.data@[i] == old(self).data@[i - kids.len() + 1]);
                        }
                    }
                    assert((seq![node_id] + tree@.pre_order_all(kids + rest)).skip(1)
                        =~= tree@.pre_order_all(kids + rest));
                }
                Some(node_id)
            },
            None => {
                None
            },
        }
    }
}

impl<'a, T> Clone for PreOrderTraversalIds<'a, T> {
    /// A second walk that stands where this one stands.
    fn clone(&self) -> (walk: Self)
        ensures
            walk.tree() == self.tree(),
            walk.remaining() == self.remaining(),
            walk.wf() == self.wf(),
    {
        let data = self.data.clone();
        proof {
            assert forall|i: int| 0 <= i < data@.len() implies data@[i] == self.data@[i] by {
                assert(vstd::pervasive::cloned::<NodeId>(self.data[i], data[i]));
            }
            assert(data@ =~= self.data@);
        }
        PreOrderTraversalIds { tree: self.tree, data }
    }
}

} // verus!
