use vstd::prelude::*;
use crate::id::NodeId;
use crate::id::group_node_id;
use crate::model::TreeView;

verus! {

broadcast use group_node_id;

/// The columns that stand for the levels above a line's own: four blanks
/// under a node that was the last child, a bar and three blanks under one
/// that was not.
pub open spec fn indentation(flags: Seq<bool>) -> Seq<char>
    decreases flags.len(),
{
    if flags.len() == 0 {
        Seq::empty()
    } else {
        indentation(flags.drop_last()) + (if flags.last() {
            "    "@
        } else {
            "│   "@
        })
    }
}

/// What stands before the label on the line of a node. `flags` says, for
/// each node on the path from below the root down to the node itself,
/// whether it is the last child of its parent. The root's line has no
/// prefix; any other line has the indentation for the levels above it and
/// then the branch that leads to it.
pub open spec fn line_prefix(flags: Seq<bool>) -> Seq<char> {
    if flags.len() == 0 {
        Seq::empty()
    } else {
        indentation(flags.drop_last()) + (if flags.last() {
            "└── "@
        } else {
            "├── "@
        })
    }
}

impl<T> TreeView<T> {
    /// The picture of the subtree of `id`: the line of `id`, then the
    /// pictures of the subtrees of its children, first to last. `labels`
    /// gives the label of each node by the number of its slot.
    pub open spec fn rendered_from(
        self,
        id: NodeId,
        flags: Seq<bool>,
        labels: Seq<Seq<char>>,
    ) -> Seq<char>
        decreases self.down(id), self.children_of(id).len() + 1,
        when self.wf() && self.contains(id)
    {
        line_prefix(flags) + labels[id.slot()] + "\n"@ + self.rendered_children_from(
            id,
            flags,
            labels,
            0,
        )
    }

    /// The pictures of the subtrees of the children of `id` from position
    /// `start` on.
    pub open spec fn rendered_children_from(
        self,
        id: NodeId,
        flags: Seq<bool>,
        labels: Seq<Seq<char>>,
        start: nat,
    ) -> Seq<char>
        decreases self.down(id), self.children_of(id).len() - start,
        when self.wf() && self.contains(id)
    {
        if start >= self.children_of(id).len() {
            Seq::empty()
        } else {
            proof {
                self.lemma_measures_child(id, start as int);
            }
            self.rendered_from(
                self.children_of(id)[start as int],
                flags.push(start + 1 == self.children_of(id).len()),
                labels,
            ) + self.rendered_children_from(id, flags, labels, start + 1)
        }
    }

    /// The picture of the tree: one line for each node below the root, in
    /// pre-order; nothing for a tree without a root.
    pub open spec fn rendered(self, labels: Seq<Seq<char>>) -> Seq<char> {
        match self.root {
            Some(r) => self.rendered_from(r, Seq::empty(), labels),
            None => Seq::empty(),
        }
    }

    /// The pictures of the subtrees that `frames` names, the last one
    /// first.
    pub open spec fn rendered_all(
        self,
        frames: Seq<(NodeId, Seq<bool>)>,
        labels: Seq<Seq<char>>,
    ) -> Seq<char>
        decreases frames.len(),
    {
        if frames.len() == 0 {
            Seq::empty()
        } else {
            self.rendered_from(frames.last().0, frames.last().1, labels) + self.rendered_all(
                frames.drop_last(),
                labels,
            )
        }
    }

    /// A frame added at the end is drawn first.
    pub proof fn lemma_rendered_all_push(
        self,
        frames: Seq<(NodeId, Seq<bool>)>,
        frame: (NodeId, Seq<bool>),
        labels: Seq<Seq<char>>,
    )
        ensures
            self.rendered_all(frames.push(frame), labels) == self.rendered_from(
                frame.0,
                frame.1,
                labels,
            ) + self.rendered_all(frames, labels),
    {
        assert(frames.push(frame).drop_last() =~= frames);
    }
}

} // verus!
