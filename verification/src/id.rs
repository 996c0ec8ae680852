use core::cmp::Ordering;
use vstd::prelude::*;
use vstd::std_specs::cmp::PartialOrdSpecImpl;

verus! {

/// A handle naming one storage slot of a tree.
///
/// Handles are plain values: copying one never touches the tree, and two
/// handles are equal exactly when they name the same slot.
#[derive(Debug, Clone, Copy, PartialEq, Eq, Ord, Hash, Structural)]
pub struct NodeId {
    index: u32,
}

impl NodeId {
    /// The number of the slot this handle names.
    pub closed spec fn slot(self) -> int {
        self.index as int
    }

    /// The handle that names slot `i`.
    pub closed spec fn at(i: int) -> NodeId {
        NodeId { index: i as u32 }
    }

    /// A handle for the slot numbered `index`.
    pub fn new(index: usize) -> (id: NodeId)
        requires
            index <= u32::MAX,
        ensures
            id == NodeId::at(index as int),
            id.slot() == index,
    {
        NodeId { index: index as u32 }
    }

    /// The number of the slot this handle names.
    pub fn index(&self) -> (i: usize)
        ensures
            i == self.slot(),
    {
        self.index as usize
    }

    /// Slot numbers fit in 32 bits.
    pub broadcast proof fn lemma_slot_range(self)
        ensures
            0 <= #[trigger] self.slot() <= u32::MAX,
    {
    }

    /// A handle is determined by its slot number.
    pub broadcast proof fn lemma_slot_injective(self, other: NodeId)
        ensures
            #[trigger] self.slot() == #[trigger] other.slot() ==> self == other,
    {
    }

    /// `at` and `slot` are inverse on the 32-bit range.
    pub broadcast proof fn lemma_at_slot(i: int)
        requires
            0 <= i <= u32::MAX,
        ensures
            (#[trigger] NodeId::at(i)).slot() == i,
    {
    }

    /// The handle that names the slot of `self` is `self`.
    pub broadcast proof fn lemma_slot_at(self)
        ensures
            #[trigger] NodeId::at(self.slot()) == self,
    {
    }
}

/// The order of two slot numbers.
pub open spec fn order_of_slots(a: int, b: int) -> Ordering {
    if a < b {
        Ordering::Less
    } else if a == b {
        Ordering::Equal
    } else {
        Ordering::Greater
    }
}

impl PartialOrd for NodeId {
    /// Handles are ordered by their slot numbers.
    fn partial_cmp(&self, other: &Self) -> (r: Option<Ordering>) {
        if self.index < other.index {
            Some(Ordering::Less)
        } else if self.index == other.index {
            Some(Ordering::Equal)
        } else {
            Some(Ordering::Greater)
        }
    }
}

impl PartialOrdSpecImpl for NodeId {
    open spec fn obeys_partial_cmp_spec() -> bool {
        true
    }

    open spec fn partial_cmp_spec(&self, other: &NodeId) -> Option<Ordering> {
        Some(order_of_slots(self.slot(), other.slot()))
    }
}

pub broadcast group group_node_id {
    NodeId::lemma_slot_range,
    NodeId::lemma_slot_injective,
    NodeId::lemma_at_slot,
    NodeId::lemma_slot_at,
}

} // verus!
