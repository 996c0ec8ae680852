use vstd::prelude::*;
use vstd::std_specs::cmp::PartialEqSpec;
use vstd::std_specs::cmp::PartialEqSpecImpl;
use crate::id::NodeId;

verus! {

/// What a node is, as a mathematical value: its payload, the handle of its
/// parent if it has one, and the handles of its children in order.
pub struct NodeView<T> {
    pub data: T,
    pub parent: Option<NodeId>,
    pub children: Seq<NodeId>,
}

impl<T> NodeView<T> {
    /// A node that is linked to nothing.
    pub open spec fn fresh(data: T) -> NodeView<T> {
        NodeView { data, parent: None, children: Seq::empty() }
    }

    /// The node has neither a parent nor children.
    pub open spec fn detached(self) -> bool {
        self.parent is None && self.children.len() == 0
    }
}

/// One node of a tree: a payload and the links to its parent and children.
#[derive(Debug, Eq, PartialOrd, Ord)]
pub struct Node<T> {
    data: T,
    parent: Option<NodeId>,
    children: Vec<NodeId>,
}

impl<T> View for Node<T> {
    type V = NodeView<T>;

    closed spec fn view(&self) -> NodeView<T> {
        NodeView { data: self.data, parent: self.parent, children: self.children@ }
    }
}

impl<T: PartialEq> PartialEq for Node<T> {
    /// Two nodes are equal when their payloads are; the links do not count.
    fn eq(&self, other: &Self) -> (r: bool) {
        self.data == other.data
    }
}

impl<T: PartialEq> PartialEqSpecImpl for Node<T> {
    open spec fn obeys_eq_spec() -> bool {
        T::obeys_eq_spec()
    }

    open spec fn eq_spec(&self, other: &Node<T>) -> bool {
        self@.data.eq_spec(&other@.data)
    }
}

impl<T> Node<T> {
    /// A node holding `data`, linked to nothing.
    pub fn new(data: T) -> (node: Node<T>)
        ensures
            node@ == NodeView::fresh(data),
    {
        Node { data, parent: None, children: Vec::new() }
    }

    /// Takes the node apart into its payload, its parent and its children.
    pub fn into_parts(self) -> (parts: (T, Option<NodeId>, Vec<NodeId>))
        ensures
            parts.0 == self@.data,
            parts.1 == self@.parent,
            parts.2@ == self@.children,
    {
        (self.data, self.parent, self.children)
    }

    /// The payload.
    pub fn data(&self) -> (data: &T)
        ensures
            *data == self@.data,
    {
        &self.data
    }

    /// The payload, for writing. The links stay as they are.
    pub fn data_mut(&mut self) -> (data: &mut T)
        ensures
            *data == old(self)@.data,
            final(self)@ == (NodeView { data: *final(data), ..old(self)@ }),
    {
        &mut self.data
    }

    /// Puts `data` in place of the payload and returns the payload that was
    /// there.
    pub fn replace_data(&mut self, data: T) -> (previous: T)
        ensures
            previous == old(self)@.data,
            final(self)@ == (NodeView { data, ..old(self)@ }),
    {
        let mut data = data;
        core::mem::swap(&mut data, &mut self.data);
        data
    }

    /// The handle of the parent, if the node has one.
    pub fn parent(&self) -> (parent: Option<&NodeId>)
        ensures
            match parent {
                Some(p) => self@.parent == Some(*p),
                None => self@.parent is None,
            },
    {
        self.parent.as_ref()
    }

    /// The handles of the children, in order.
    pub fn children(&self) -> (children: &Vec<NodeId>)
        ensures
            children@ == self@.children,
    {
        &self.children
    }

    /// The handles of the children, for writing.
    pub fn children_mut(&mut self) -> (children: &mut Vec<NodeId>)
        ensures
            children@ == old(self)@.children,
            final(self)@ == (NodeView { children: final(children)@, ..old(self)@ }),
    {
        &mut self.children
    }

    /// Records `parent` as the node's parent.
    pub fn set_parent(&mut self, parent: Option<NodeId>)
        ensures
            final(self)@ == (NodeView { parent, ..old(self)@ }),
    {
        self.parent = parent;
    }

    /// Appends `child` to the node's children.
    pub fn add_child(&mut self, child: NodeId)
        ensures
            final(self)@ == (NodeView { children: old(self)@.children.push(child), ..old(self)@ }),
    {
        self.children.push(child);
    }

    /// Puts `children` in place of the node's children.
    pub fn set_children(&mut self, children: Vec<NodeId>)
        ensures
            final(self)@ == (NodeView { children: children@, ..old(self)@ }),
    {
        self.children = children;
    }

    /// Returns the node's children and leaves it with none.
    pub fn take_children(&mut self) -> (children: Vec<NodeId>)
        ensures
            children@ == old(self)@.children,
            final(self)@ == (NodeView { children: Seq::empty(), ..old(self)@ }),
    {
        let mut taken = Vec::with_capacity(0);
        core::mem::swap(&mut self.children, &mut taken);
        taken
    }
}

} // verus!
