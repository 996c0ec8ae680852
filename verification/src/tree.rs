use core::cmp::Ordering;
use vstd::prelude::*;
use vstd::std_specs::cmp::OrdSpec;
use vstd::std_specs::cmp::PartialEqSpec;
use vstd::std_specs::cmp::PartialEqSpecImpl;
use crate::error::NodeIdError;
use crate::id::NodeId;
use crate::iterators::Ancestors;
use crate::iterators::AncestorsIds;
use crate::iterators::Children;
use crate::iterators::ChildrenIds;
use crate::iterators::PreOrderTraversal;
use crate::iterators::PreOrderTraversalIds;
use crate::id::group_node_id;
use crate::model::TreeView;
use crate::model::count_live;
use crate::model::lemma_slots_by_handle;
use crate::seqs::lemma_push_contains;
use crate::seqs::lemma_reverse_members;
use crate::seqs::lemma_without_push;
use crate::seqs::without;
use crate::sort::agrees;
use crate::sort::data_order;
use crate::sort::is_total_order;
use crate::sort::lemma_sorted_stably_elsewhere;
use crate::sort::occupied;
use crate::sort::orders_totally;
use crate::sort::sort_ids_by;
use crate::sort::sorted_stably;
use crate::sort::stored;
use crate::validate::parts_view;
use crate::validate::parts_well_formed;
use crate::behaviors::InsertBehavior;
use crate::behaviors::MoveBehavior;
use crate::behaviors::RemoveBehavior;
use crate::node::Node;
use crate::node::NodeView;

verus! {

broadcast use group_node_id;

/// Settings from which a `Tree` is made: a root node, and how many slots and
/// free-list entries to reserve.
pub struct TreeBuilder<T> {
    pub root: Option<Node<T>>,
    pub node_capacity: usize,
    pub swap_capacity: usize,
}

/// An ordered tree whose nodes live in one vector and are named by handles.
#[derive(Debug)]
pub struct Tree<T> {
    root: Option<NodeId>,
    nodes: Vec<Option<Node<T>>>,
    free_ids: Vec<NodeId>,
}

/// What a storage slot holds, as a mathematical value.
pub open spec fn slot_view<T>(slot: Option<Node<T>>) -> Option<NodeView<T>> {
    match slot {
        Some(node) => Some(node@),
        None => None,
    }
}

/// What the storage holds, slot by slot.
pub open spec fn slots_view<T>(nodes: Seq<Option<Node<T>>>) -> Seq<Option<NodeView<T>>> {
    nodes.map_values(|slot: Option<Node<T>>| slot_view(slot))
}

impl<T> View for Tree<T> {
    type V = TreeView<T>;

    closed spec fn view(&self) -> TreeView<T> {
        TreeView {
            root: self.root,
            slots: slots_view(self.nodes@),
            free: self.free_ids@,
        }
    }
}

/// Std's `Vec::capacity`: the number of elements the vector has room for,
/// which is never less than the number it holds.
#[verifier::external_body]
fn vec_capacity<E>(v: &Vec<E>) -> (c: usize)
    ensures
        c >= v@.len(),
{
    v.capacity()
}

/// Takes every occurrence of `id` out of `v`; the rest keeps its order.
fn remove_id(v: &mut Vec<NodeId>, id: NodeId)
    ensures
        final(v)@ == without(old(v)@, id),
{
    let mut kept: Vec<NodeId> = Vec::with_capacity(v.len());
    let mut i: usize = 0;
    while i < v.len()
        invariant
            i <= v.len(),
            kept@ == without(v@.take(i as int), id),
        decreases v.len() - i,
    {
        proof {
            assert(v@.take(i + 1) =~= v@.take(i as int).push(v@[i as int]));
            lemma_without_push(v@.take(i as int), v@[i as int], id);
        }
        if v[i] != id {
            kept.push(v[i]);
        }
        i += 1;
    }
    assert(v@.take(i as int) =~= v@);
    *v = kept;
}

impl<T> Default for TreeBuilder<T> {
    fn default() -> (b: TreeBuilder<T>)
        ensures
            b.root is None,
            b.node_capacity == 0,
            b.swap_capacity == 0,
    {
        TreeBuilder::new()
    }
}

impl<T> Default for Tree<T> {
    fn default() -> (tree: Tree<T>)
        ensures
            tree@ == TreeView::<T>::empty(),
            tree.wf(),
    {
        Tree::new()
    }
}

impl<T: PartialEq> PartialEq for Tree<T> {
    /// Whether the two trees are equal; see `TreeView::same_as`.
    fn eq(&self, other: &Self) -> (r: bool) {
        if self.live_count() != other.live_count() {
            return false;
        }
        let mut i: usize = 0;
        while i < self.nodes.len()
            invariant
                i <= self.nodes@.len(),
                self@.live_count() == other@.live_count(),
                T::obeys_eq_spec() ==> forall|k: int| 0 <= k < i ==> #[trigger] self@.same_at(other@, k),
            decreases self.nodes@.len() - i,
        {
            match &self.nodes[i] {
                Some(node) => {
                    if i >= other.nodes.len() {
                        assert(!self@.same_at(other@, i as int));
                        return false;
                    }
                    match &other.nodes[i] {
                        Some(other_node) => {
                            if !node.eq(other_node) {
                                assert(T::obeys_eq_spec() ==> !self@.same_at(other@, i as int));
                                return false;
                            }
                            let same_parent = match (
                                self.parent_node(node),
                                other.parent_node(other_node),
                            ) {
                                (None, None) => true,
                                (Some(a), Some(b)) => a.eq(b),
                                _ => false,
                            };
                            if !same_parent {
                                assert(T::obeys_eq_spec() ==> !self@.same_at(other@, i as int));
                                return false;
                            }
                            assert(T::obeys_eq_spec() ==> self@.same_at(other@, i as int));
                        },
                        None => {
                            assert(!self@.same_at(other@, i as int));
                            return false;
                        },
                    }
                },
                None => {},
            }
            i += 1;
        }
        true
    }
}

impl<T: PartialEq> PartialEqSpecImpl for Tree<T> {
    open spec fn obeys_eq_spec() -> bool {
        T::obeys_eq_spec()
    }

    open spec fn eq_spec(&self, other: &Tree<T>) -> bool {
        self@.same_as(other@)
    }
}

impl<T> TreeBuilder<T> {
    /// A builder with no root and nothing reserved.
    pub fn new() -> (b: TreeBuilder<T>)
        ensures
            b.root is None,
            b.node_capacity == 0,
            b.swap_capacity == 0,
    {
        TreeBuilder { root: None, node_capacity: 0, swap_capacity: 0 }
    }

    /// The builder with `root` as the node the tree will start with.
    pub fn with_root(self, root: Node<T>) -> (b: TreeBuilder<T>)
        ensures
            b.root == Some(root),
            b.node_capacity == self.node_capacity,
            b.swap_capacity == self.swap_capacity,
    {
        let mut b = self;
        b.root = Some(root);
        b
    }

    /// The builder with room for `node_capacity` nodes reserved.
    pub fn with_node_capacity(self, node_capacity: usize) -> (b: TreeBuilder<T>)
        ensures
            b.root == self.root,
            b.node_capacity == node_capacity,
            b.swap_capacity == self.swap_capacity,
    {
        let mut b = self;
        b.node_capacity = node_capacity;
        b
    }

    /// The builder with room for `swap_capacity` vacated slots reserved.
    pub fn with_swap_capacity(self, swap_capacity: usize) -> (b: TreeBuilder<T>)
        ensures
            b.root == self.root,
            b.node_capacity == self.node_capacity,
            b.swap_capacity == swap_capacity,
    {
        let mut b = self;
        b.swap_capacity = swap_capacity;
        b
    }

    /// What `build` makes of the builder: the empty tree, or the tree whose
    /// only node is the root, in slot 0.
    pub open spec fn built(self) -> TreeView<T> {
        match self.root {
            Some(root) => TreeView {
                root: Some(NodeId::at(0)),
                slots: seq![Some(root@)],
                free: Seq::empty(),
            },
            None => TreeView::empty(),
        }
    }

    /// The tree that the settings describe.
    pub fn build(self) -> (tree: Tree<T>)
        requires
            self.root matches Some(root) ==> root@.detached(),
        ensures
            tree@ == self.built(),
            tree.wf(),
    {
        let mut b = self;
        let mut tree = Tree {
            root: None,
            nodes: Vec::with_capacity(b.node_capacity),
            free_ids: Vec::with_capacity(b.swap_capacity),
        };
        assert(tree@.slots =~= Seq::empty());
        if b.root.is_some() {
            let node_id = NodeId::new(0);
            tree.nodes.push(b.root.take());
            tree.root = Some(node_id);
            assert(tree@.slots =~= seq![Some(self.root->0@)]);
        }
        proof {
            tree@.lemma_small_wf();
        }
        tree
    }
}

impl<T> Tree<T> {
    /// The invariant of the tree, which every operation keeps.
    pub open spec fn wf(&self) -> bool {
        self@.wf()
    }

    /// The nodes as they are stored, slot by slot. Their views are the slots
    /// of the tree's view.
    pub closed spec fn stored_nodes(&self) -> Seq<Option<Node<T>>> {
        self.nodes@
    }

    /// The stored nodes are what the view shows.
    pub proof fn lemma_stored_nodes(&self)
        ensures
            self@.slots == slots_view(self.stored_nodes()),
            self@.slots.len() == self.stored_nodes().len(),
            forall|id: NodeId| #[trigger]
                self@.contains(id) ==> occupied(self.stored_nodes(), id) && stored(
                    self.stored_nodes(),
                    id,
                )@ == self@.node(id),
    {
    }

    /// A tree with no nodes.
    pub fn new() -> (tree: Tree<T>)
        ensures
            tree@ == TreeView::<T>::empty(),
            tree.wf(),
    {
        TreeBuilder::new().build()
    }

    /// The number of nodes the storage has room for before it must grow.
    pub fn capacity(&self) -> (c: usize)
        ensures
            c >= self@.slots.len(),
    {
        vec_capacity(&self.nodes)
    }

    /// The number of vacated slots the free list has room for before it must
    /// grow.
    pub fn swap_capacity(&self) -> (c: usize)
        ensures
            c >= self@.free.len(),
    {
        vec_capacity(&self.free_ids)
    }

    /// The number of storage slots, occupied or vacant.
    pub fn slot_count(&self) -> (n: usize)
        ensures
            n == self@.slots.len(),
    {
        self.nodes.len()
    }

    /// The number of handles on the free list.
    pub fn free_count(&self) -> (n: usize)
        ensures
            n == self@.free.len(),
    {
        self.free_ids.len()
    }

    /// The handle of the root, if the tree has one.
    pub fn root_node_id(&self) -> (root: Option<&NodeId>)
        ensures
            match root {
                Some(r) => self@.root == Some(*r),
                None => self@.root is None,
            },
    {
        self.root.as_ref()
    }

    /// Tells a handle whose node is in the tree from one whose node has been
    /// removed.
    pub fn is_valid_node_id(&self, node_id: &NodeId) -> (r: Result<(), NodeIdError>)
        requires
            node_id.slot() <= self@.slots.len(),
        ensures
            r is Ok <==> self@.contains(*node_id),
            r is Err ==> r == Err::<(), NodeIdError>(NodeIdError::NodeIdNoLongerValid),
    {
        let idx = node_id.index();
        if idx < self.nodes.len() && self.nodes[idx].is_some() {
            Ok(())
        } else {
            Err(NodeIdError::NodeIdNoLongerValid)
        }
    }

    /// The node that `node_id` names.
    pub fn get(&self, node_id: &NodeId) -> (r: Result<&Node<T>, NodeIdError>)
        requires
            node_id.slot() <= self@.slots.len(),
        ensures
            match r {
                Ok(node) => {
                    &&& self@.contains(*node_id)
                    &&& node@ == self@.node(*node_id)
                    &&& *node == stored(self.stored_nodes(), *node_id)
                },
                Err(e) => !self@.contains(*node_id) && e == NodeIdError::NodeIdNoLongerValid,
            },
    {
        let idx = node_id.index();
        if idx < self.nodes.len() {
            match &self.nodes[idx] {
                Some(node) => Ok(node),
                None => Err(NodeIdError::NodeIdNoLongerValid),
            }
        } else {
            Err(NodeIdError::NodeIdNoLongerValid)
        }
    }

    /// The node that `node_id` names, for writing. Whatever the caller
    /// leaves in it is what the tree then holds in that slot.
    pub fn get_mut(&mut self, node_id: &NodeId) -> (r: Result<&mut Node<T>, NodeIdError>)
        requires
            node_id.slot() <= old(self)@.slots.len(),
        ensures
            match r {
                Ok(node) => {
                    &&& old(self)@.contains(*node_id)
                    &&& node@ == old(self)@.node(*node_id)
                    &&& final(self)@ == old(self)@.with_node(*node_id, final(node)@)
                },
                Err(e) => {
                    &&& !old(self)@.contains(*node_id)
                    &&& e == NodeIdError::NodeIdNoLongerValid
                    &&& final(self)@ == old(self)@
                },
            },
    {
        let idx = node_id.index();
        if idx < self.nodes.len() && self.nodes[idx].is_some() {
            Ok(self.node_mut(*node_id))
        } else {
            Err(NodeIdError::NodeIdNoLongerValid)
        }
    }

    /// The node in an occupied slot, for writing.
    fn node_mut(&mut self, id: NodeId) -> (node: &mut Node<T>)
        requires
            old(self)@.contains(id),
        ensures
            node@ == old(self)@.node(id),
            *node == old(self).stored_nodes()[id.slot()]->0,
            final(self)@ == old(self)@.with_node(id, final(node)@),
            final(self).stored_nodes() == old(self).stored_nodes().update(
                id.slot(),
                Some(*final(node)),
            ),
    {
        let idx = id.index();
        proof {
            assert forall|n: Node<T>|
                #[trigger] slots_view(self.nodes@.update(idx as int, Some(n))) == slots_view(
                    self.nodes@,
                ).update(idx as int, Some(n@)) by {
                assert(slots_view(self.nodes@.update(idx as int, Some(n))) =~= slots_view(
                    self.nodes@,
                ).update(idx as int, Some(n@)));
            }
        }
        match &mut self.nodes[idx] {
            Some(node) => node,
            None => vstd::pervasive::unreached(),
        }
    }

    /// Stores `new_node` in the slot vacated last, or in a new slot at the
    /// end where none is vacant, and returns the slot's handle.
    fn insert_new_node(&mut self, new_node: Node<T>) -> (id: NodeId)
        requires
            old(self).wf(),
            old(self)@.has_room(),
        ensures
            id == old(self)@.next_id(),
            final(self)@ == old(self)@.stored(new_node@),
    {
        proof {
            self@.lemma_next_id();
        }
        if self.free_ids.is_empty() {
            let new_node_idx = self.nodes.len();
            self.nodes.push(Some(new_node));
            assert(self@.slots =~= old(self)@.slots.push(Some(new_node@)));
            NodeId::new(new_node_idx)
        } else {
            let popped = self.free_ids.pop();
            let new_node_id = popped.unwrap();
            assert(self.free_ids@ =~= old(self).free_ids@.drop_last());
            self.nodes.push(Some(new_node));
            let _ = self.nodes.swap_remove(new_node_id.index());
            assert(self@.slots =~= old(self)@.slots.update(
                new_node_id.slot(),
                Some(new_node@),
            ));
            new_node_id
        }
    }

    /// Takes the node out of its slot and puts the slot on the free list.
    /// The links of other nodes to it stay as they are.
    pub fn take_node(&mut self, node_id: NodeId) -> (node: Node<T>)
        requires
            old(self)@.contains(node_id),
        ensures
            node@ == old(self)@.node(node_id),
            final(self)@ == old(self)@.vacate(node_id),
    {
        self.nodes.push(None);
        let taken = self.nodes.swap_remove(node_id.index());
        self.free_ids.push(node_id);
        assert(self@.slots =~= old(self)@.slots.update(node_id.slot(), None));
        taken.unwrap()
    }

    /// Records `parent_id` as the parent of the node.
    fn set_parent(&mut self, node_id: &NodeId, parent_id: Option<NodeId>)
        requires
            old(self)@.contains(*node_id),
        ensures
            final(self)@ == old(self)@.with_parent(*node_id, parent_id),
    {
        self.node_mut(*node_id).set_parent(parent_id);
    }

    /// Leaves the node without a recorded parent.
    fn clear_parent(&mut self, node_id: &NodeId)
        requires
            old(self)@.contains(*node_id),
        ensures
            final(self)@ == old(self)@.with_parent(*node_id, None),
    {
        self.set_parent(node_id, None);
    }

    /// Appends the child to the parent's children and records the parent in
    /// the child.
    fn set_as_parent_and_child(&mut self, parent_id: &NodeId, child_id: &NodeId)
        requires
            old(self)@.contains(*parent_id),
            old(self)@.contains(*child_id),
        ensures
            final(self)@ == old(self)@.attach(*parent_id, *child_id),
    {
        self.node_mut(*parent_id).add_child(*child_id);
        self.node_mut(*child_id).set_parent(Some(*parent_id));
    }

    /// Takes the node out of the parent's children. What the node records as
    /// its parent stays.
    fn detach_from_parent(&mut self, parent_id: &NodeId, node_id: &NodeId)
        requires
            old(self)@.contains(*parent_id),
        ensures
            final(self)@ == old(self)@.detach(*parent_id, *node_id),
    {
        remove_id(self.node_mut(*parent_id).children_mut(), *node_id);
    }

    /// Stores the node as the last child of the parent.
    fn insert_with_parent(&mut self, child: Node<T>, parent_id: &NodeId) -> (id: NodeId)
        requires
            old(self).wf(),
            old(self)@.has_room(),
            old(self)@.contains(*parent_id),
            child@.detached(),
        ensures
            id == old(self)@.next_id(),
            final(self)@ == old(self)@.inserted_under(*parent_id, child@),
            final(self).wf(),
    {
        proof {
            self@.lemma_stored_free_ok(child@);
            self@.lemma_inserted_under_wf(*parent_id, child@);
        }
        let new_child_id = self.insert_new_node(child);
        self.set_as_parent_and_child(parent_id, &new_child_id);
        new_child_id
    }

    /// Stores the node as the root; a root that was there becomes its child.
    fn set_root(&mut self, new_root: Node<T>) -> (id: NodeId)
        requires
            old(self).wf(),
            old(self)@.has_room(),
            new_root@.detached(),
        ensures
            id == old(self)@.next_id(),
            final(self)@ == old(self)@.inserted_as_root(new_root@),
            final(self).wf(),
    {
        proof {
            self@.lemma_stored_free_ok(new_root@);
            self@.lemma_inserted_as_root_wf(new_root@);
        }
        let new_root_id = self.insert_new_node(new_root);
        if let Some(current_root_node_id) = self.root {
            self.set_as_parent_and_child(&new_root_id, &current_root_node_id);
        }
        self.root = Some(new_root_id);
        new_root_id
    }

    /// Stores `node` in the tree, as the root or as the last child of a node
    /// of the tree, and returns its handle. A handle whose node has been
    /// removed is refused and the tree stays as it is.
    pub fn insert(&mut self, node: Node<T>, behavior: InsertBehavior) -> (r: Result<
        NodeId,
        NodeIdError,
    >)
        requires
            old(self).wf(),
            old(self)@.has_room(),
            node@.detached(),
            behavior matches InsertBehavior::UnderNode(p) ==> p.slot() <= old(self)@.slots.len(),
        ensures
            final(self).wf(),
            match behavior {
                InsertBehavior::AsRoot => {
                    &&& r == Ok::<NodeId, NodeIdError>(old(self)@.next_id())
                    &&& final(self)@ == old(self)@.inserted_as_root(node@)
                },
                InsertBehavior::UnderNode(p) => if old(self)@.contains(*p) {
                    &&& r == Ok::<NodeId, NodeIdError>(old(self)@.next_id())
                    &&& final(self)@ == old(self)@.inserted_under(*p, node@)
                } else {
                    &&& r == Err::<NodeId, NodeIdError>(NodeIdError::NodeIdNoLongerValid)
                    &&& final(self)@ == old(self)@
                },
            },
    {
        match behavior {
            InsertBehavior::AsRoot => Ok(self.set_root(node)),
            InsertBehavior::UnderNode(parent_id) => {
                match self.is_valid_node_id(parent_id) {
                    Ok(_) => Ok(self.insert_with_parent(node, parent_id)),
                    Err(e) => Err(e),
                }
            },
        }
    }

    /// Takes the node out of the tree: vacates its slot, takes it out of its
    /// parent's children, and clears the root if it was the root. The node
    /// comes back with its links cleared; its children are not touched.
    fn remove_node_internal(&mut self, node_id: NodeId) -> (node: Node<T>)
        requires
            old(self)@.contains(node_id),
            old(self)@.parent_of(node_id) matches Some(p) ==> old(self)@.contains(p) && p
                != node_id,
        ensures
            node@ == NodeView::fresh(old(self)@.data_of(node_id)),
            final(self)@ == old(self)@.unlinked(node_id),
    {
        if let Some(root_id) = self.root {
            if node_id == root_id {
                self.root = None;
            }
        }
        let mut node = self.take_node(node_id);
        if let Some(parent_id) = node.parent() {
            let parent_id = *parent_id;
            remove_id(self.node_mut(parent_id).children_mut(), node_id);
        }
        node.children_mut().clear();
        node.set_parent(None);
        node
    }

    /// The handle of the child at position `k` of the node.
    pub(crate) fn child_at(&self, node_id: &NodeId, k: usize) -> (child: NodeId)
        requires
            self@.contains(*node_id),
            k < self@.children_of(*node_id).len(),
        ensures
            child == self@.children_of(*node_id)[k as int],
    {
        match &self.nodes[node_id.index()] {
            Some(node) => node.children()[k],
            None => vstd::pervasive::unreached(),
        }
    }

    /// The number of children of the node.
    pub(crate) fn child_count(&self, node_id: &NodeId) -> (n: usize)
        requires
            self@.contains(*node_id),
        ensures
            n == self@.children_of(*node_id).len(),
    {
        match &self.nodes[node_id.index()] {
            Some(node) => node.children().len(),
            None => vstd::pervasive::unreached(),
        }
    }

    /// The parent that the node records.
    fn parent_id(&self, node_id: &NodeId) -> (parent: Option<NodeId>)
        requires
            self@.contains(*node_id),
        ensures
            parent == self@.parent_of(*node_id),
    {
        match &self.nodes[node_id.index()] {
            Some(node) => match node.parent() {
                Some(p) => Some(*p),
                None => None,
            },
            None => vstd::pervasive::unreached(),
        }
    }

    /// Records `new_parent` as the parent of every child of the node.
    fn set_parent_of_children(&mut self, node_id: &NodeId, new_parent: Option<NodeId>)
        requires
            old(self).wf(),
            old(self)@.contains(*node_id),
        ensures
            final(self)@ == old(self)@.with_parents(
                old(self)@.children_of(*node_id),
                new_parent,
            ),
    {
        let ghost kids = self@.children_of(*node_id);
        let n = self.child_count(node_id);
        let mut k: usize = 0;
        assert(self@.slots =~= old(self)@.with_parents(kids.take(0), new_parent).slots);
        while k < n
            invariant
                k <= n,
                n == kids.len(),
                old(self).wf(),
                old(self)@.contains(*node_id),
                kids == old(self)@.children_of(*node_id),
                self@ == old(self)@.with_parents(kids.take(k as int), new_parent),
            decreases n - k,
        {
            proof {
                old(self)@.lemma_measures_child(*node_id, k as int);
                assert(old(self)@.child_links_ok(*node_id));
            }
            let child_id = self.child_at(node_id, k);
            self.set_parent(&child_id, new_parent);
            proof {
                let done = kids.take(k as int);
                let next = old(self)@.with_parents(done.push(child_id), new_parent);
                assert(kids.take(k + 1) =~= done.push(child_id));
                lemma_push_contains(done, child_id);
                lemma_slots_by_handle(self@.slots, next.slots);
            }
            k += 1;
        }
        assert(kids.take(k as int) =~= kids);
    }

    /// Leaves every child of the node without a recorded parent.
    fn clear_parent_of_children(&mut self, node_id: &NodeId)
        requires
            old(self).wf(),
            old(self)@.contains(*node_id),
        ensures
            final(self)@ == old(self)@.with_parents(old(self)@.children_of(*node_id), None),
    {
        self.set_parent_of_children(node_id, None);
    }

    /// Removes the node and leaves its children in the tree without a
    /// parent.
    pub fn remove_node_orphan_children(&mut self, node_id: NodeId) -> (node: Node<T>)
        requires
            old(self).wf(),
            old(self)@.contains(node_id),
        ensures
            node@ == NodeView::fresh(old(self)@.data_of(node_id)),
            final(self)@ == old(self)@.removed_orphaning(node_id),
            final(self).wf(),
    {
        proof {
            self@.lemma_removed_orphaning_wf(node_id);
            self@.lemma_unaffected_by_parents(node_id);
        }
        self.clear_parent_of_children(&node_id);
        self.remove_node_internal(node_id)
    }

    /// Removes the node and appends its children to the children of its
    /// parent. Without a parent the children are left without one.
    fn remove_node_lift_children(&mut self, node_id: NodeId) -> (node: Node<T>)
        requires
            old(self).wf(),
            old(self)@.contains(node_id),
        ensures
            node@ == NodeView::fresh(old(self)@.data_of(node_id)),
            final(self)@ == old(self)@.removed_lifting(node_id),
            final(self).wf(),
    {
        proof {
            self@.lemma_removed_lifting_wf(node_id);
            self@.lemma_unaffected_by_parents(node_id);
        }
        match self.parent_id(&node_id) {
            Some(parent_id) => {
                let ghost kids = self@.children_of(node_id);
                let ghost siblings = self@.children_of(parent_id);
                let n = self.child_count(&node_id);
                let mut k: usize = 0;
                proof {
                    self@.lemma_measures(node_id);
                    assert(siblings + kids.take(0) =~= siblings);
                    assert(self@.slots =~= old(self)@.with_children(
                        parent_id,
                        siblings + kids.take(0),
                    ).with_parents(kids.take(0), Some(parent_id)).slots);
                }
                while k < n
                    invariant
                        k <= n,
                        n == kids.len(),
                        old(self).wf(),
                        old(self)@.contains(node_id),
                        old(self)@.contains(parent_id),
                        old(self)@.parent_of(node_id) == Some(parent_id),
                        parent_id != node_id,
                        kids == old(self)@.children_of(node_id),
                        siblings == old(self)@.children_of(parent_id),
                        self@ == old(self)@.with_children(
                            parent_id,
                            siblings + kids.take(k as int),
                        ).with_parents(kids.take(k as int), Some(parent_id)),
                    decreases n - k,
                {
                    proof {
                        old(self)@.lemma_measures_child(node_id, k as int);
                        old(self)@.lemma_measures(node_id);
                        assert(!kids.take(k as int).contains(parent_id)) by {
                            if kids.take(k as int).contains(parent_id) {
                                let j = choose|j: int|
                                    0 <= j < kids.take(k as int).len() && kids.take(k as int)[j]
                                        == parent_id;
                                old(self)@.lemma_measures_child(node_id, j);
                            }
                        }
                        assert(!kids.take(k as int).contains(node_id)) by {
                            if kids.take(k as int).contains(node_id) {
                                let j = choose|j: int|
                                    0 <= j < kids.take(k as int).len() && kids.take(k as int)[j]
                                        == node_id;
                                old(self)@.lemma_measures_child(node_id, j);
                            }
                        }
                    }
                    let child_id = self.child_at(&node_id, k);
                    self.set_as_parent_and_child(&parent_id, &child_id);
                    proof {
                        let done = kids.take(k as int);
                        let next = old(self)@.with_children(
                            parent_id,
                            siblings + done.push(child_id),
                        ).with_parents(done.push(child_id), Some(parent_id));
                        assert(kids.take(k + 1) =~= done.push(child_id));
                        assert((siblings + done).push(child_id) =~= siblings + done.push(child_id));
                        lemma_push_contains(done, child_id);
                        lemma_slots_by_handle(self@.slots, next.slots);
                    }
                    k += 1;
                }
                assert(kids.take(k as int) =~= kids);
            },
            None => {
                self.clear_parent_of_children(&node_id);
            },
        }
        self.remove_node_internal(node_id)
    }

    /// Where `upper_id` is a proper ancestor of `lower_id`: the child of
    /// `upper_id` on the path down to `lower_id`.
    pub fn find_subtree_root_between_ids<'a>(
        &'a self,
        lower_id: &'a NodeId,
        upper_id: &'a NodeId,
    ) -> (found: Option<&'a NodeId>)
        requires
            self.wf(),
            self@.contains(*lower_id),
        ensures
            match found {
                Some(s) => self@.subtree_root_between(*lower_id, *upper_id) == Some(*s),
                None => self@.subtree_root_between(*lower_id, *upper_id) is None,
            },
    {
        let mut current: &'a NodeId = lower_id;
        loop
            invariant
                self.wf(),
                self@.contains(*current),
                self@.subtree_root_between(*current, *upper_id) == self@.subtree_root_between(
                    *lower_id,
                    *upper_id,
                ),
            decreases self@.up(*current),
        {
            match &self.nodes[current.index()] {
                Some(node) => {
                    match node.parent() {
                        Some(parent) => {
                            if *parent == *upper_id {
                                return Some(current);
                            }
                            proof {
                                self@.lemma_measures(*current);
                            }
                            current = parent;
                        },
                        None => {
                            return None;
                        },
                    }
                },
                None => {
                    return None;
                },
            }
        }
    }

    /// Whether the node of `id` is the node of `top` or lies below it.
    pub fn is_below(&self, top: &NodeId, id: &NodeId) -> (below: bool)
        requires
            self.wf(),
            self@.contains(*id),
        ensures
            below == self@.in_subtree(*top, *id),
    {
        let mut current: NodeId = *id;
        loop
            invariant
                self.wf(),
                self@.contains(current),
                self@.in_subtree(*top, current) == self@.in_subtree(*top, *id),
            decreases self@.up(current),
        {
            if current == *top {
                return true;
            }
            match self.parent_id(&current) {
                Some(parent) => {
                    proof {
                        self@.lemma_measures(current);
                    }
                    current = parent;
                },
                None => {
                    return false;
                },
            }
        }
    }

    /// Whether `move_node` can move the node of `node_id` under the node of
    /// `target`: the two differ, and if the node is the root then the target
    /// lies below it.
    pub fn can_move_under(&self, node_id: &NodeId, target: &NodeId) -> (ok: bool)
        requires
            self.wf(),
            self@.contains(*target),
        ensures
            ok == self@.can_move_under(*node_id, *target),
    {
        if *node_id == *target {
            return false;
        }
        if self.root == Some(*node_id) {
            self.is_below(node_id, target)
        } else {
            true
        }
    }

    /// Makes the node the last child of `parent_id`; see
    /// `TreeView::moved_to_parent`.
    fn move_node_to_parent(&mut self, node_id: &NodeId, parent_id: &NodeId)
        requires
            old(self).wf(),
            old(self)@.contains(*node_id),
            old(self)@.contains(*parent_id),
            old(self)@.can_move_under(*node_id, *parent_id),
        ensures
            final(self)@ == old(self)@.moved_to_parent(*node_id, *parent_id),
            final(self).wf(),
    {
        proof {
            self@.lemma_moved_to_parent_wf(*node_id, *parent_id);
            self@.lemma_subtree_root_between(*parent_id, *node_id);
            assert(self@.parent_link_ok(*node_id));
        }
        let found = match self.find_subtree_root_between_ids(parent_id, node_id) {
            Some(s) => Some(*s),
            None => None,
        };
        if let Some(subtree_root_id) = found {
            if self.root == Some(*node_id) {
                self.detach_from_parent(node_id, &subtree_root_id);
                self.clear_parent(&subtree_root_id);
                self.root = Some(subtree_root_id);
            } else {
                match self.parent_id(node_id) {
                    Some(old_parent) => {
                        self.detach_from_parent(&old_parent, node_id);
                        self.set_as_parent_and_child(&old_parent, &subtree_root_id);
                    },
                    None => {
                        self.clear_parent(&subtree_root_id);
                    },
                }
                self.detach_from_parent(node_id, &subtree_root_id);
            }
        } else {
            match self.parent_id(node_id) {
                Some(old_parent) => {
                    self.detach_from_parent(&old_parent, node_id);
                },
                None => {},
            }
        }
        self.set_as_parent_and_child(parent_id, node_id);
    }

    /// Makes the node, with its subtree, the root; a root that was there
    /// becomes its last child. A node that is the root already stays where
    /// it is, and nothing changes.
    pub fn move_node_to_root(&mut self, node_id: &NodeId)
        requires
            old(self).wf(),
            old(self)@.contains(*node_id),
        ensures
            final(self)@ == (if old(self)@.root == Some(*node_id) {
                old(self)@
            } else {
                old(self)@.moved_to_root(*node_id)
            }),
            final(self).wf(),
    {
        if self.root == Some(*node_id) {
            return ;
        }
        proof {
            self@.lemma_moved_to_root_wf(*node_id);
            assert(self@.parent_link_ok(*node_id));
        }
        let old_root = self.root;
        if let Some(parent_id) = self.parent_id(node_id) {
            self.detach_from_parent(&parent_id, node_id);
        }
        self.clear_parent(node_id);
        self.root = Some(*node_id);
        if let Some(old_root) = old_root {
            self.move_node_to_parent(&old_root, node_id);
        }
    }

    /// Moves the node to the root or under another node of the tree. A
    /// handle whose node has been removed is refused and the tree stays as
    /// it is. Moving the root to the root changes nothing.
    pub fn move_node(&mut self, node_id: &NodeId, behavior: MoveBehavior) -> (r: Result<
        (),
        NodeIdError,
    >)
        requires
            old(self).wf(),
            node_id.slot() <= old(self)@.slots.len(),
            match behavior {
                MoveBehavior::ToRoot => true,
                MoveBehavior::ToParent(p) => {
                    &&& p.slot() <= old(self)@.slots.len()
                    &&& old(self)@.contains(*node_id) && old(self)@.contains(*p) ==> old(
                        self,
                    )@.can_move_under(*node_id, *p)
                },
            },
        ensures
            final(self).wf(),
            match behavior {
                MoveBehavior::ToRoot => if old(self)@.contains(*node_id) {
                    r is Ok && final(self)@ == (if old(self)@.root == Some(*node_id) {
                        old(self)@
                    } else {
                        old(self)@.moved_to_root(*node_id)
                    })
                } else {
                    r == Err::<(), NodeIdError>(NodeIdError::NodeIdNoLongerValid) && final(self)@
                        == old(self)@
                },
                MoveBehavior::ToParent(p) => if old(self)@.contains(*node_id) && old(
                    self,
                )@.contains(*p) {
                    r is Ok && final(self)@ == old(self)@.moved_to_parent(*node_id, *p)
                } else {
                    r == Err::<(), NodeIdError>(NodeIdError::NodeIdNoLongerValid) && final(self)@
                        == old(self)@
                },
            },
    {
        match self.is_valid_node_id(node_id) {
            Ok(_) => {},
            Err(e) => {
                return Err(e);
            },
        }
        match behavior {
            MoveBehavior::ToRoot => {
                self.move_node_to_root(node_id);
                Ok(())
            },
            MoveBehavior::ToParent(parent_id) => {
                match self.is_valid_node_id(parent_id) {
                    Ok(_) => {},
                    Err(e) => {
                        return Err(e);
                    },
                }
                self.move_node_to_parent(node_id, parent_id);
                Ok(())
            },
        }
    }

    /// The handles of the subtree of the node, each node before its
    /// children and the last child's subtree first: the post-order read
    /// backwards. The walk keeps its pending nodes in a list of its own.
    fn reverse_post_order(&self, node_id: &NodeId) -> (order: Vec<NodeId>)
        requires
            self.wf(),
            self@.contains(*node_id),
        ensures
            order@ == self@.post_order(*node_id).reverse(),
    {
        let ghost total = self@.post_order(*node_id).reverse();
        let mut order: Vec<NodeId> = Vec::new();
        let mut pending: Vec<NodeId> = Vec::new();
        pending.push(*node_id);
        proof {
            assert(pending@.drop_last() =~= Seq::<NodeId>::empty());
            assert(pending@.last() == *node_id);
            assert(self@.reverse_post_order_all(Seq::<NodeId>::empty()) =~= Seq::<NodeId>::empty());
            assert(self@.reverse_post_order_all(pending@) =~= total);
        }
        while pending.len() > 0
            invariant
                self.wf(),
                forall|i: int| 0 <= i < pending@.len() ==> self@.contains(#[trigger] pending@[i]),
                order@ + self@.reverse_post_order_all(pending@) == total,
            decreases total.len() - order@.len(),
        {
            let ghost before = pending@;
            let ghost rest = pending@.drop_last();
            let current = pending.pop().unwrap();
            proof {
                assert(current == before.last());
                assert(pending@ =~= rest);
                self@.lemma_post_order(current);
                self@.lemma_reverse_post_order(current);
            }
            order.push(current);
            let n = self.child_count(&current);
            let mut j: usize = 0;
            proof {
                assert(rest + self@.children_of(current).take(0) =~= rest);
            }
            while j < n
                invariant
                    j <= n,
                    n == self@.children_of(current).len(),
                    self.wf(),
                    self@.contains(current),
                    pending@ == rest + self@.children_of(current).take(j as int),
                    forall|i: int|
                        0 <= i < pending@.len() ==> self@.contains(#[trigger] pending@[i]),
                decreases n - j,
            {
                let child = self.child_at(&current, j);
                proof {
                    self@.lemma_measures_child(current, j as int);
                    assert(self@.children_of(current).take(j + 1) =~= self@.children_of(
                        current,
                    ).take(j as int).push(child));
                }
                pending.push(child);
                j += 1;
            }
            proof {
                let kids = self@.children_of(current);
                assert(kids.take(n as int) =~= kids);
                self@.lemma_reverse_post_order_all_concat(rest, kids);
                assert(order@ + self@.reverse_post_order_all(pending@) =~= total);
            }
        }
        assert(order@ + self@.reverse_post_order_all(pending@) =~= order@);
        order
    }

    /// Removes the node together with the whole subtree below it.
    fn remove_node_drop_children(&mut self, node_id: NodeId) -> (node: Node<T>)
        requires
            old(self).wf(),
            old(self)@.contains(node_id),
        ensures
            node@ == NodeView::fresh(old(self)@.data_of(node_id)),
            final(self)@ == old(self)@.removed_dropping(node_id),
            final(self).wf(),
    {
        let order = self.reverse_post_order(&node_id);
        let ghost gone = self@.post_order(node_id);
        proof {
            self@.lemma_removed_dropping_wf(node_id);
            self@.lemma_post_order(node_id);
            lemma_reverse_members(gone);
            self@.lemma_vacate_none();
            assert(gone.take(0) =~= Seq::<NodeId>::empty());
        }
        let mut k: usize = order.len();
        while k > 1
            invariant
                1 <= k <= order@.len(),
                old(self).wf(),
                old(self)@.contains(node_id),
                gone == old(self)@.post_order(node_id),
                gone.no_duplicates(),
                gone.len() > 0,
                gone.last() == node_id,
                forall|x: NodeId| #[trigger]
                    gone.contains(x) <==> old(self)@.contains(x) && old(self)@.in_subtree(
                        node_id,
                        x,
                    ),
                order@ == gone.reverse(),
                self@ == old(self)@.vacate_all(gone.take(order@.len() - k)),
            decreases k,
        {
            k -= 1;
            let id = order[k];
            proof {
                let done = gone.take(order@.len() - k - 1);
                assert(id == gone[order@.len() - 1 - k]);
                assert(gone.contains(id));
                assert(!done.contains(id)) by {
                    if done.contains(id) {
                        let i = choose|i: int| 0 <= i < done.len() && done[i] == id;
                        assert(gone[i] == id);
                    }
                }
                assert(NodeId::at(id.slot()) == id);
            }
            let _ = self.take_node(id);
            proof {
                let done = gone.take(order@.len() - k - 1);
                let next = old(self)@.vacate_all(done.push(id));
                assert(gone.take(order@.len() - k) =~= done.push(id));
                lemma_push_contains(done, id);
                lemma_slots_by_handle(self@.slots, next.slots);
                assert(self@.free =~= next.free);
            }
        }
        proof {
            let done = gone.take(order@.len() - 1);
            assert(done =~= gone.drop_last());
            assert(!done.contains(node_id)) by {
                if done.contains(node_id) {
                    let i = choose|i: int| 0 <= i < done.len() && done[i] == node_id;
                    assert(gone[i] == node_id);
                    assert(gone[gone.len() - 1] == node_id);
                }
            }
            assert(NodeId::at(node_id.slot()) == node_id);
            assert(old(self)@.parent_link_ok(node_id));
            if let Some(p) = old(self)@.parent_of(node_id) {
                old(self)@.lemma_measures(node_id);
                old(self)@.lemma_in_subtree_step(node_id, p);
                old(self)@.lemma_in_subtree_step(node_id, node_id);
                if old(self)@.in_subtree(node_id, p) {
                    old(self)@.lemma_in_subtree_step(p, node_id);
                    old(self)@.lemma_in_subtree_step(p, p);
                    old(self)@.lemma_in_subtree_antisymmetric(node_id, p);
                }
                assert(NodeId::at(p.slot()) == p);
                assert(!gone.contains(p));
                assert(!done.contains(p)) by {
                    if done.contains(p) {
                        let i = choose|i: int| 0 <= i < done.len() && done[i] == p;
                        assert(gone[i] == p);
                    }
                }
            }
        }
        let node = self.remove_node_internal(node_id);
        proof {
            let done = gone.drop_last();
            let goal = old(self)@.removed_dropping(node_id);
            assert(gone =~= done.push(node_id));
            lemma_push_contains(done, node_id);
            lemma_slots_by_handle(self@.slots, goal.slots);
            assert(self@.free =~= goal.free);
        }
        node
    }

    /// Removes the node from the tree and returns it, with its links
    /// cleared. What becomes of its children is for `behavior` to say. A
    /// handle whose node has been removed is refused and the tree stays as
    /// it is.
    pub fn remove_node(&mut self, node_id: NodeId, behavior: RemoveBehavior) -> (r: Result<
        Node<T>,
        NodeIdError,
    >)
        requires
            old(self).wf(),
            node_id.slot() <= old(self)@.slots.len(),
        ensures
            final(self).wf(),
            match r {
                Ok(node) => {
                    &&& old(self)@.contains(node_id)
                    &&& node@ == NodeView::fresh(old(self)@.data_of(node_id))
                    &&& final(self)@ == match behavior {
                        RemoveBehavior::DropChildren => old(self)@.removed_dropping(node_id),
                        RemoveBehavior::LiftChildren => old(self)@.removed_lifting(node_id),
                        RemoveBehavior::OrphanChildren => old(self)@.removed_orphaning(node_id),
                    }
                },
                Err(e) => {
                    &&& !old(self)@.contains(node_id)
                    &&& e == NodeIdError::NodeIdNoLongerValid
                    &&& final(self)@ == old(self)@
                },
            },
    {
        match self.is_valid_node_id(&node_id) {
            Ok(_) => {},
            Err(e) => {
                return Err(e);
            },
        }
        match behavior {
            RemoveBehavior::DropChildren => Ok(self.remove_node_drop_children(node_id)),
            RemoveBehavior::LiftChildren => Ok(self.remove_node_lift_children(node_id)),
            RemoveBehavior::OrphanChildren => Ok(self.remove_node_orphan_children(node_id)),
        }
    }

    /// A walk over the ancestors of the node, the parent first.
    pub fn ancestors(&self, node_id: &NodeId) -> (r: Result<Ancestors<'_, T>, NodeIdError>)
        requires
            self.wf(),
            node_id.slot() <= self@.slots.len(),
        ensures
            match r {
                Ok(walk) => {
                    &&& self@.contains(*node_id)
                    &&& walk.wf()
                    &&& walk.tree() == self@
                    &&& walk.remaining() == self@.ancestors(*node_id)
                },
                Err(e) => !self@.contains(*node_id) && e == NodeIdError::NodeIdNoLongerValid,
            },
    {
        match self.is_valid_node_id(node_id) {
            Ok(_) => Ok(Ancestors::new(self, *node_id)),
            Err(e) => Err(e),
        }
    }

    /// A walk over the handles of the ancestors of the node, the parent's
    /// first.
    pub fn ancestor_ids(&self, node_id: &NodeId) -> (r: Result<AncestorsIds<'_, T>, NodeIdError>)
        requires
            self.wf(),
            node_id.slot() <= self@.slots.len(),
        ensures
            match r {
                Ok(walk) => {
                    &&& self@.contains(*node_id)
                    &&& walk.wf()
                    &&& walk.tree() == self@
                    &&& walk.remaining() == self@.ancestors(*node_id)
                },
                Err(e) => !self@.contains(*node_id) && e == NodeIdError::NodeIdNoLongerValid,
            },
    {
        match self.is_valid_node_id(node_id) {
            Ok(_) => Ok(AncestorsIds::new(self, *node_id)),
            Err(e) => Err(e),
        }
    }

    /// A walk over the children of the node, first to last.
    pub fn children(&self, node_id: &NodeId) -> (r: Result<Children<'_, T>, NodeIdError>)
        requires
            self.wf(),
            node_id.slot() <= self@.slots.len(),
        ensures
            match r {
                Ok(walk) => {
                    &&& self@.contains(*node_id)
                    &&& walk.wf()
                    &&& walk.tree() == self@
                    &&& walk.remaining() == self@.children_of(*node_id)
                },
                Err(e) => !self@.contains(*node_id) && e == NodeIdError::NodeIdNoLongerValid,
            },
    {
        match self.is_valid_node_id(node_id) {
            Ok(_) => Ok(Children::new(self, node_id)),
            Err(e) => Err(e),
        }
    }

    /// A walk over the handles of the children of the node, first to last.
    pub fn children_ids(&self, node_id: &NodeId) -> (r: Result<ChildrenIds<'_>, NodeIdError>)
        requires
            node_id.slot() <= self@.slots.len(),
        ensures
            match r {
                Ok(walk) => {
                    &&& self@.contains(*node_id)
                    &&& walk.wf()
                    &&& walk.remaining() == self@.children_of(*node_id)
                },
                Err(e) => !self@.contains(*node_id) && e == NodeIdError::NodeIdNoLongerValid,
            },
    {
        match self.is_valid_node_id(node_id) {
            Ok(_) => Ok(ChildrenIds::new(self, node_id)),
            Err(e) => Err(e),
        }
    }

    /// A walk over the subtree of the node in pre-order.
    pub fn traverse_pre_order(&self, node_id: &NodeId) -> (r: Result<
        PreOrderTraversal<'_, T>,
        NodeIdError,
    >)
        requires
            self.wf(),
            node_id.slot() <= self@.slots.len(),
        ensures
            match r {
                Ok(walk) => {
                    &&& self@.contains(*node_id)
                    &&& walk.wf()
                    &&& walk.tree() == self@
                    &&& walk.remaining() == self@.pre_order(*node_id)
                },
                Err(e) => !self@.contains(*node_id) && e == NodeIdError::NodeIdNoLongerValid,
            },
    {
        match self.is_valid_node_id(node_id) {
            Ok(_) => Ok(PreOrderTraversal::new(self, *node_id)),
            Err(e) => Err(e),
        }
    }

    /// A walk over the handles of the subtree of the node in pre-order.
    pub fn traverse_pre_order_ids(&self, node_id: &NodeId) -> (r: Result<
        PreOrderTraversalIds<'_, T>,
        NodeIdError,
    >)
        requires
            self.wf(),
            node_id.slot() <= self@.slots.len(),
        ensures
            match r {
                Ok(walk) => {
                    &&& self@.contains(*node_id)
                    &&& walk.wf()
                    &&& walk.tree() == self@
                    &&& walk.remaining() == self@.pre_order(*node_id)
                },
                Err(e) => !self@.contains(*node_id) && e == NodeIdError::NodeIdNoLongerValid,
            },
    {
        match self.is_valid_node_id(node_id) {
            Ok(_) => Ok(PreOrderTraversalIds::new(self, *node_id)),
            Err(e) => Err(e),
        }
    }

    /// The height of the tree: 0 without a root, else the number of nodes
    /// on the longest path from the root down to a node without children.
    pub fn height(&self) -> (h: usize)
        requires
            self.wf(),
        ensures
            h == self@.height(),
    {
        match self.root {
            Some(id) => self.height_of_node(&id),
            None => 0,
        }
    }

    /// The height of the subtree of the node.
    fn height_of_node(&self, node: &NodeId) -> (h: usize)
        requires
            self.wf(),
            self@.contains(*node),
        ensures
            h == self@.height_of(*node),
        decreases self@.down(*node),
    {
        let n = self.child_count(node);
        let mut h: usize = 0;
        let mut k: usize = 0;
        proof {
            self@.lemma_height_bound(*node);
            assert(self@.slots.len() == self.nodes@.len());
            assert(self.nodes@.len() == self.nodes.len());
            assert(self.nodes.len() <= usize::MAX);
        }
        while k < n
            invariant
                k <= n,
                n == self@.children_of(*node).len(),
                self.wf(),
                self@.contains(*node),
                self@.height_of(*node) <= usize::MAX,
                h == self@.max_child_height(*node, k as nat),
            decreases n - k,
        {
            let child = self.child_at(node, k);
            proof {
                self@.lemma_measures_child(*node, k as int);
            }
            let below = self.height_of_node(&child);
            if below > h {
                h = below;
            }
            k += 1;
        }
        h + 1
    }

    /// Sorts the children of the node with `compare`. The sort is stable:
    /// children that `compare` calls equal keep their order. Only the order
    /// of the children changes. A handle whose node has been removed is
    /// refused and the tree stays as it is.
    pub fn sort_children_by<F>(&mut self, node_id: &NodeId, compare: F) -> (r: Result<
        (),
        NodeIdError,
    >) where F: Fn(&Node<T>, &Node<T>) -> Ordering
        requires
            old(self).wf(),
            node_id.slot() <= old(self)@.slots.len(),
            orders_totally(compare),
        ensures
            final(self).wf(),
            if old(self)@.contains(*node_id) {
                &&& r is Ok
                &&& final(self)@ == old(self)@.with_children(
                    *node_id,
                    final(self)@.children_of(*node_id),
                )
                &&& forall|order: spec_fn(Node<T>, Node<T>) -> Ordering| #[trigger]
                    agrees(compare, order) && is_total_order(order) ==> sorted_stably(
                        final(self)@.children_of(*node_id),
                        old(self)@.children_of(*node_id),
                        old(self).stored_nodes(),
                        order,
                    )
            } else {
                &&& r == Err::<(), NodeIdError>(NodeIdError::NodeIdNoLongerValid)
                &&& final(self)@ == old(self)@
            },
    {
        match self.is_valid_node_id(node_id) {
            Ok(_) => {},
            Err(e) => {
                return Err(e);
            },
        }
        let ghost before = self@.children_of(*node_id);
        let mut children = self.node_mut(*node_id).take_children();
        proof {
            assert(old(self)@.child_links_ok(*node_id));
            assert forall|i: int| 0 <= i < children@.len() implies occupied(
                self.nodes@,
                #[trigger] children@[i],
            ) && stored(self.nodes@, children@[i]) == stored(old(self).nodes@, children@[i]) by {
                old(self)@.lemma_children_member(*node_id, children@[i]);
            }
        }
        let ghost mid_nodes = self.nodes@;
        sort_ids_by(&mut children, &self.nodes, &compare);
        proof {
            old(self)@.lemma_reordered_children_wf(*node_id, children@);
            assert forall|order: spec_fn(Node<T>, Node<T>) -> Ordering| #[trigger]
                agrees(compare, order) && is_total_order(order) implies sorted_stably(
                children@,
                before,
                old(self).nodes@,
                order,
            ) by {
                assert(sorted_stably(children@, before, mid_nodes, order));
                lemma_sorted_stably_elsewhere(children@, before, mid_nodes, old(self).nodes@, order);
            }
        }
        self.node_mut(*node_id).set_children(children);
        proof {
            assert(self@.slots =~= old(self)@.with_children(*node_id, children@).slots);
        }
        Ok(())
    }

    /// Sorts the children of the node by the order of their payloads; see
    /// `sort_children_by`.
    pub fn sort_children_by_data(&mut self, node_id: &NodeId) -> (r: Result<
        (),
        NodeIdError,
    >) where T: Ord
        requires
            old(self).wf(),
            node_id.slot() <= old(self)@.slots.len(),
            T::obeys_cmp_spec(),
            is_total_order(data_order::<T>()),
        ensures
            final(self).wf(),
            if old(self)@.contains(*node_id) {
                &&& r is Ok
                &&& final(self)@ == old(self)@.with_children(
                    *node_id,
                    final(self)@.children_of(*node_id),
                )
                &&& sorted_stably(
                    final(self)@.children_of(*node_id),
                    old(self)@.children_of(*node_id),
                    old(self).stored_nodes(),
                    data_order::<T>(),
                )
            } else {
                &&& r == Err::<(), NodeIdError>(NodeIdError::NodeIdNoLongerValid)
                &&& final(self)@ == old(self)@
            },
    {
        let by_data = |a: &Node<T>, b: &Node<T>| -> (o: Ordering)
            ensures
                o == a@.data.cmp_spec(&b@.data),
            { a.data().cmp(b.data()) };
        proof {
            assert(agrees(by_data, data_order::<T>()));
        }
        self.sort_children_by(node_id, by_data)
    }

    /// The number of nodes in the tree.
    pub fn live_count(&self) -> (n: usize)
        ensures
            n == self@.live_count(),
    {
        let mut n: usize = 0;
        let mut i: usize = 0;
        while i < self.nodes.len()
            invariant
                i <= self.nodes@.len(),
                n == count_live(self@.slots.take(i as int)),
                n <= i,
            decreases self.nodes@.len() - i,
        {
            proof {
                assert(self@.slots.take(i + 1).drop_last() =~= self@.slots.take(i as int));
                assert(self@.slots.take(i + 1).last() == self@.slots[i as int]);
            }
            if self.nodes[i].is_some() {
                n += 1;
            }
            i += 1;
        }
        proof {
            assert(self@.slots.take(i as int) =~= self@.slots);
        }
        n
    }

    /// The parent of `node`, where it records one and that one is in the
    /// tree.
    fn parent_node(&self, node: &Node<T>) -> (parent: Option<&Node<T>>)
        ensures
            match node@.parent {
                Some(p) => if self@.contains(p) {
                    parent matches Some(found) && found@ == self@.node(p)
                } else {
                    parent is None
                },
                None => parent is None,
            },
    {
        match node.parent() {
            Some(p) => {
                let idx = p.index();
                if idx < self.nodes.len() {
                    self.nodes[idx].as_ref()
                } else {
                    None
                }
            },
            None => None,
        }
    }

    /// The handles of the vacant slots, in the order in which they were
    /// vacated.
    pub fn free_ids(&self) -> (free: &Vec<NodeId>)
        ensures
            free@ == self@.free,
    {
        &self.free_ids
    }

    /// Whether the invariant of the tree holds.
    pub fn is_well_formed(&self) -> (ok: bool)
        ensures
            ok == self.wf(),
    {
        parts_well_formed(&self.root, &self.nodes, &self.free_ids)
    }

    /// Takes the tree apart into its root, its slots and its free list: a
    /// snapshot from which `from_parts` makes the same tree again.
    pub fn into_parts(self) -> (parts: (Option<NodeId>, Vec<Option<Node<T>>>, Vec<NodeId>))
        ensures
            parts_view(parts.0, parts.1@, parts.2@) == self@,
    {
        (self.root, self.nodes, self.free_ids)
    }

    /// Puts a tree together from a root, slots and a free list, where
    /// these describe a well-formed tree. The handles stay as they are.
    pub fn from_parts(
        root: Option<NodeId>,
        nodes: Vec<Option<Node<T>>>,
        free_ids: Vec<NodeId>,
    ) -> (r: Option<Tree<T>>)
        ensures
            match r {
                Some(tree) => tree@ == parts_view(root, nodes@, free_ids@) && tree.wf(),
                None => !parts_view(root, nodes@, free_ids@).wf(),
            },
    {
        if parts_well_formed(&root, &nodes, &free_ids) {
            Some(Tree { root, nodes, free_ids })
        } else {
            None
        }
    }
}

} // verus!
