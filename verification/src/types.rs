use core::cmp::Ordering;
use vstd::prelude::*;
use vstd::std_specs::cmp::PartialOrdSpecImpl;
use vstd::std_specs::convert::FromSpecImpl;
use crate::behaviors::InsertBehavior;
use crate::due::DueDateTime;
use crate::error::NodeIdError;
use crate::id::NodeId;
use crate::model::TreeView;
use crate::node::Node;
use crate::node::NodeView;
use crate::tree::Tree;

verus! {

/// How urgent a task or a group is. The variants stand in rising order of
/// urgency.
#[derive(Debug, Clone, Copy, PartialEq, Eq, Ord, Hash, Structural)]
pub enum Priority {
    /// Nice to get done at some time: more a goal than a task.
    Far,
    /// Low priority.
    Low,
    /// Medium priority, which is also the default.
    Medium,
    /// High priority, but not immediate.
    High,
    /// To be done as soon as possible.
    Asap,
}

impl Priority {
    /// The weight of the priority as a number: a Fibonacci number that
    /// rises with the urgency.
    pub open spec fn weight(self) -> u8 {
        match self {
            Priority::Far => 2,
            Priority::Low => 3,
            Priority::Medium => 5,
            Priority::High => 8,
            Priority::Asap => 13,
        }
    }

    /// The weight by which tasks are ordered.
    pub fn p_value(&self) -> (p: u8)
        ensures
            p == self.weight(),
    {
        match self {
            Priority::Far => 2,
            Priority::Low => 3,
            Priority::Medium => 5,
            Priority::High => 8,
            Priority::Asap => 13,
        }
    }
}

/// The order of two weights.
pub open spec fn order_of_weights(a: u8, b: u8) -> Ordering {
    if a < b {
        Ordering::Less
    } else if a == b {
        Ordering::Equal
    } else {
        Ordering::Greater
    }
}

/// Compares two weights.
fn compare_weights(a: u8, b: u8) -> (o: Ordering)
    ensures
        o == order_of_weights(a, b),
{
    if a < b {
        Ordering::Less
    } else if a == b {
        Ordering::Equal
    } else {
        Ordering::Greater
    }
}

impl Default for Priority {
    fn default() -> (p: Priority)
        ensures
            p == Priority::Medium,
    {
        Priority::Medium
    }
}

impl PartialOrd for Priority {
    /// Priorities are ordered by their weights.
    fn partial_cmp(&self, other: &Self) -> (r: Option<Ordering>) {
        Some(compare_weights(self.p_value(), other.p_value()))
    }
}

impl PartialOrdSpecImpl for Priority {
    open spec fn obeys_partial_cmp_spec() -> bool {
        true
    }

    open spec fn partial_cmp_spec(&self, other: &Priority) -> Option<Ordering> {
        Some(order_of_weights(self.weight(), other.weight()))
    }
}

/// A named group of tasks.
#[derive(Debug, PartialEq, Eq)]
pub struct Group {
    name: String,
    priority: Priority,
}

impl Group {
    /// The name.
    pub closed spec fn spec_name(&self) -> Seq<char> {
        self.name@
    }

    /// The priority.
    pub closed spec fn spec_priority(&self) -> Priority {
        self.priority
    }

    /// A group with the given name and priority.
    pub fn new(name: String, priority: Priority) -> (g: Group)
        ensures
            g.spec_name() == name@,
            g.spec_priority() == priority,
    {
        Group { name, priority }
    }

    /// The name.
    pub fn name(&self) -> (name: &String)
        ensures
            name@ == self.spec_name(),
    {
        &self.name
    }

    /// The priority.
    pub fn priority(&self) -> (p: Priority)
        ensures
            p == self.spec_priority(),
    {
        self.priority
    }
}

impl PartialOrd for Group {
    /// Groups are ordered by their priorities alone.
    fn partial_cmp(&self, other: &Self) -> (r: Option<Ordering>) {
        Some(compare_weights(self.priority.p_value(), other.priority.p_value()))
    }
}

impl PartialOrdSpecImpl for Group {
    open spec fn obeys_partial_cmp_spec() -> bool {
        true
    }

    open spec fn partial_cmp_spec(&self, other: &Group) -> Option<Ordering> {
        Some(order_of_weights(self.spec_priority().weight(), other.spec_priority().weight()))
    }
}

/// A task.
#[derive(Debug, PartialEq, Eq)]
pub struct Task {
    name: String,
    due: DueDateTime,
    priority: Priority,
    description: String,
    finished: bool,
}

impl Task {
    /// The name.
    pub closed spec fn spec_name(&self) -> Seq<char> {
        self.name@
    }

    /// When the task is due.
    pub closed spec fn spec_due(&self) -> DueDateTime {
        self.due
    }

    /// The priority.
    pub closed spec fn spec_priority(&self) -> Priority {
        self.priority
    }

    /// The description.
    pub closed spec fn spec_description(&self) -> Seq<char> {
        self.description@
    }

    /// Whether the task is done.
    pub closed spec fn spec_finished(&self) -> bool {
        self.finished
    }

    /// A task with the given fields.
    pub fn new(
        name: String,
        due: DueDateTime,
        priority: Priority,
        description: String,
        finished: bool,
    ) -> (t: Task)
        ensures
            t.spec_name() == name@,
            t.spec_due() == due,
            t.spec_priority() == priority,
            t.spec_description() == description@,
            t.spec_finished() == finished,
    {
        Task { name, due, priority, description, finished }
    }

    /// The name.
    pub fn name(&self) -> (name: &String)
        ensures
            name@ == self.spec_name(),
    {
        &self.name
    }

    /// When the task is due.
    pub fn due(&self) -> (due: DueDateTime)
        ensures
            due == self.spec_due(),
    {
        self.due
    }

    /// The priority.
    pub fn priority(&self) -> (p: Priority)
        ensures
            p == self.spec_priority(),
    {
        self.priority
    }

    /// The description.
    pub fn description(&self) -> (description: &String)
        ensures
            description@ == self.spec_description(),
    {
        &self.description
    }

    /// Whether the task is done.
    pub fn finished(&self) -> (finished: bool)
        ensures
            finished == self.spec_finished(),
    {
        self.finished
    }
}

impl PartialOrd for Task {
    /// Tasks are ordered by their priorities alone.
    fn partial_cmp(&self, other: &Self) -> (r: Option<Ordering>) {
        Some(compare_weights(self.priority.p_value(), other.priority.p_value()))
    }
}

impl PartialOrdSpecImpl for Task {
    open spec fn obeys_partial_cmp_spec() -> bool {
        true
    }

    open spec fn partial_cmp_spec(&self, other: &Task) -> Option<Ordering> {
        Some(order_of_weights(self.spec_priority().weight(), other.spec_priority().weight()))
    }
}

/// What a node of the application's tree holds.
#[derive(Debug)]
pub enum CaseNode {
    /// A task.
    Task(Task),
    /// A group of tasks and groups.
    Group(Group),
}

/// What can go wrong in the application's data.
#[derive(Debug, Clone, Copy, PartialEq, Eq, Structural)]
pub enum Error {
    /// A handle was refused by the tree.
    NodeIdError(NodeIdError),
}

impl Error {
    /// The error as it is shown to a user.
    pub fn to_string(&self) -> (s: String)
        ensures
            s@ == "Node Id error! Could be invalid."@,
    {
        "Node Id error! Could be invalid.".to_owned()
    }
}

impl From<NodeIdError> for Error {
    fn from(e: NodeIdError) -> (r: Error) {
        Error::NodeIdError(e)
    }
}

impl FromSpecImpl<NodeIdError> for Error {
    open spec fn obeys_from_spec() -> bool {
        true
    }

    open spec fn from_spec(e: NodeIdError) -> Error {
        Error::NodeIdError(e)
    }
}

/// The tree of groups and tasks that the application keeps.
#[derive(Debug)]
pub struct CaseTree {
    tree: Tree<CaseNode>,
}

impl View for CaseTree {
    type V = TreeView<CaseNode>;

    closed spec fn view(&self) -> TreeView<CaseNode> {
        self.tree@
    }
}

impl CaseTree {
    /// The invariant of the tree.
    pub open spec fn wf(&self) -> bool {
        self@.wf()
    }

    /// A tree of groups and tasks with nothing in it.
    pub fn new() -> (t: CaseTree)
        ensures
            t@ == TreeView::<CaseNode>::empty(),
            t.wf(),
    {
        CaseTree { tree: Tree::new() }
    }

    /// The tree of groups and tasks that `tree` is.
    pub fn from_tree(tree: Tree<CaseNode>) -> (t: CaseTree)
        ensures
            t@ == tree@,
    {
        CaseTree { tree }
    }

    /// The tree itself.
    pub fn into_tree(self) -> (tree: Tree<CaseNode>)
        ensures
            tree@ == self@,
    {
        self.tree
    }

    /// The tree itself, for reading.
    pub fn tree(&self) -> (tree: &Tree<CaseNode>)
        ensures
            tree@ == self@,
    {
        &self.tree
    }

    /// Stores `node` as the last child of `parent`. A parent that has been
    /// removed is refused and the tree stays as it is.
    pub fn insert(&mut self, node: CaseNode, parent: &NodeId) -> (r: Result<NodeId, Error>)
        requires
            old(self).wf(),
            old(self)@.has_room(),
            parent.slot() <= old(self)@.slots.len(),
        ensures
            final(self).wf(),
            if old(self)@.contains(*parent) {
                &&& r == Ok::<NodeId, Error>(old(self)@.next_id())
                &&& final(self)@ == old(self)@.inserted_under(*parent, NodeView::fresh(node))
            } else {
                &&& r == Err::<NodeId, Error>(Error::NodeIdError(NodeIdError::NodeIdNoLongerValid))
                &&& final(self)@ == old(self)@
            },
    {
        let node = Node::new(node);
        match self.tree.insert(node, InsertBehavior::UnderNode(parent)) {
            Ok(id) => Ok(id),
            Err(e) => Err(Error::from(e)),
        }
    }

    /// Stores `node` as the root; a root that was there becomes its child.
    pub fn insert_root(&mut self, node: CaseNode) -> (id: NodeId)
        requires
            old(self).wf(),
            old(self)@.has_room(),
        ensures
            final(self).wf(),
            id == old(self)@.next_id(),
            final(self)@ == old(self)@.inserted_as_root(NodeView::fresh(node)),
    {
        match self.tree.insert(Node::new(node), InsertBehavior::AsRoot) {
            Ok(id) => id,
            Err(_) => vstd::pervasive::unreached(),
        }
    }
}

} // verus!
