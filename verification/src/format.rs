use std::fmt::Write;
use vstd::prelude::*;
use vstd::string::*;
use crate::id::NodeId;
use crate::id::group_node_id;
use crate::model_format::indentation;
use crate::model_format::line_prefix;
use crate::tree::Tree;

verus! {

broadcast use group_node_id;

/// The text that the `Debug` impl of `T` writes for the value, written
/// with `write!` into a `String`, or the error with which that impl gives
/// up. Nothing is claimed of the text, nor of when the impl gives up.
#[verifier::external_body]
fn debug_text<T: core::fmt::Debug>(value: &T) -> (text: Result<String, core::fmt::Error>) {
    let mut text = String::new();
    match write!(text, "{:?}", value) {
        Ok(()) => Ok(text),
        Err(e) => Err(e),
    }
}

/// The error type of std's formatting, which a writer returns.
#[verifier::external_type_specification]
#[verifier::external_body]
pub struct ExFmtError(core::fmt::Error);

/// The texts of the labels.
pub open spec fn label_texts(labels: Seq<String>) -> Seq<Seq<char>> {
    Seq::new(labels.len(), |i: int| labels[i]@)
}

/// What the frames of a pending walk name.
pub open spec fn frames_view(frames: Seq<(NodeId, Vec<bool>)>) -> Seq<(NodeId, Seq<bool>)> {
    Seq::new(frames.len(), |i: int| (frames[i].0, frames[i].1@))
}

/// A copy of the flags.
fn copy_flags(flags: &Vec<bool>) -> (copy: Vec<bool>)
    ensures
        copy@ == flags@,
{
    let mut copy: Vec<bool> = Vec::with_capacity(flags.len());
    let mut i: usize = 0;
    while i < flags.len()
        invariant
            i <= flags.len(),
            copy@ == flags@.take(i as int),
        decreases flags.len() - i,
    {
        copy.push(flags[i]);
        proof {
            assert(flags@.take(i + 1) =~= flags@.take(i as int).push(flags@[i as int]));
        }
        i += 1;
    }
    proof {
        assert(flags@.take(i as int) =~= flags@);
    }
    copy
}

/// Appends to `w` what stands before the label on a node's line.
fn write_prefix(w: &mut String, flags: &Vec<bool>)
    ensures
        final(w)@ == old(w)@ + line_prefix(flags@),
{
    let n = flags.len();
    if n == 0 {
        assert(w@ + line_prefix(flags@) =~= w@);
        return ;
    }
    let mut i: usize = 0;
    proof {
        assert(flags@.take(0) =~= Seq::<bool>::empty());
        assert(w@ + indentation(flags@.take(0)) =~= w@);
    }
    while i + 1 < n
        invariant
            i + 1 <= n,
            n == flags@.len(),
            w@ == old(w)@ + indentation(flags@.take(i as int)),
        decreases n - i,
    {
        proof {
            assert(flags@.take(i + 1).drop_last() =~= flags@.take(i as int));
            assert(flags@.take(i + 1).last() == flags@[i as int]);
        }
        if flags[i] {
            w.append("    ");
            assert(w@ =~= old(w)@ + indentation(flags@.take(i + 1)));
        } else {
            w.append("│   ");
            assert(w@ =~= old(w)@ + indentation(flags@.take(i + 1)));
        }
        i += 1;
    }
    proof {
        assert(flags@.take(i as int) =~= flags@.drop_last());
    }
    if flags[n - 1] {
        w.append("└── ");
        assert(w@ =~= old(w)@ + line_prefix(flags@));
    } else {
        w.append("├── ");
        assert(w@ =~= old(w)@ + line_prefix(flags@));
    }
}

impl<T> Tree<T> {
    /// Appends the picture of the tree to `w`, with the given labels: one
    /// line for each node below the root, in pre-order, each with the
    /// branches that lead to it. `labels` holds the label of each node at
    /// the number of its slot.
    pub fn write_labeled(&self, w: &mut String, labels: &Vec<String>)
        requires
            self.wf(),
            labels@.len() == self@.slots.len(),
        ensures
            final(w)@ == old(w)@ + self@.rendered(label_texts(labels@)),
    {
        let ghost texts = label_texts(labels@);
        let ghost total = self@.rendered(texts);
        let mut pending: Vec<(NodeId, Vec<bool>)> = Vec::new();
        if let Some(root_id) = self.root_node_id() {
            let root_id = *root_id;
            pending.push((root_id, Vec::new()));
            proof {
                assert(frames_view(pending@) =~= Seq::<(NodeId, Seq<bool>)>::empty().push(
                    (root_id, Seq::<bool>::empty()),
                ));
                self@.lemma_rendered_all_push(
                    Seq::empty(),
                    (root_id, Seq::<bool>::empty()),
                    texts,
                );
                assert(self@.rendered_all(frames_view(pending@), texts) =~= total);
            }
        } else {
            proof {
                assert(frames_view(pending@) =~= Seq::<(NodeId, Seq<bool>)>::empty());
            }
        }
        proof {
            assert(w@ + self@.rendered_all(frames_view(pending@), texts) =~= old(w)@ + total);
        }
        while pending.len() > 0
            invariant
                self.wf(),
                labels@.len() == self@.slots.len(),
                texts == label_texts(labels@),
                forall|i: int|
                    0 <= i < pending@.len() ==> self@.contains((#[trigger] pending@[i]).0),
                w@ + self@.rendered_all(frames_view(pending@), texts) == old(w)@ + total,
            decreases self@.rendered_all(frames_view(pending@), texts).len(),
        {
            let ghost frames = frames_view(pending@);
            let ghost rest = frames.drop_last();
            let ghost start = w@;
            let (id, flags) = pending.pop().unwrap();
            proof {
                assert(frames.last() == (id, flags@));
                assert(frames_view(pending@) =~= rest);
            }
            write_prefix(w, &flags);
            w.append(labels[id.index()].as_str());
            w.append("\n");
            let n = self.child_count(&id);
            let mut j: usize = n;
            let ghost line = line_prefix(flags@) + texts[id.slot()] + "\n"@;
            proof {
                reveal_strlit("\n");
                assert(w@ =~= start + line);
                assert(line.len() > 0);
                assert(self@.rendered_children_from(id, flags@, texts, n as nat) =~= Seq::<
                    char,
                >::empty());
                assert(self@.rendered_all(frames_view(pending@), texts) =~= self@.rendered_children_from(
                    id,
                    flags@,
                    texts,
                    j as nat,
                ) + self@.rendered_all(rest, texts));
            }
            while j > 0
                invariant
                    j <= n,
                    n == self@.children_of(id).len(),
                    self.wf(),
                    self@.contains(id),
                    forall|i: int|
                        0 <= i < pending@.len() ==> self@.contains((#[trigger] pending@[i]).0),
                    self@.rendered_all(frames_view(pending@), texts)
                        == self@.rendered_children_from(id, flags@, texts, j as nat)
                        + self@.rendered_all(rest, texts),
                decreases j,
            {
                j -= 1;
                let child = self.child_at(&id, j);
                let mut child_flags = copy_flags(&flags);
                child_flags.push(j + 1 == n);
                let ghost before = frames_view(pending@);
                pending.push((child, child_flags));
                proof {
                    self@.lemma_measures_child(id, j as int);
                    assert(frames_view(pending@) =~= before.push((child, child_flags@)));
                    self@.lemma_rendered_all_push(before, (child, child_flags@), texts);
                    assert(self@.rendered_all(frames_view(pending@), texts)
                        =~= self@.rendered_children_from(id, flags@, texts, j as nat)
                        + self@.rendered_all(rest, texts));
                }
            }
            proof {
                assert(start + self@.rendered_all(frames, texts) =~= w@ + self@.rendered_all(
                    frames_view(pending@),
                    texts,
                ));
            }
        }
        proof {
            assert(frames_view(pending@) =~= Seq::<(NodeId, Seq<bool>)>::empty());
            assert(w@ + self@.rendered_all(frames_view(pending@), texts) =~= w@);
        }
    }

    /// Appends the picture of the tree to `w`; see `write_labeled`. The
    /// label of a node is what the `Debug` impl of `T` writes for its
    /// payload. Where that impl gives up on a payload, its error is handed
    /// back and nothing is appended. A tree without a root has no payload to
    /// write, so for it the call succeeds.
    pub fn write_formatted(&self, w: &mut String) -> (r: Result<(), core::fmt::Error>) where
        T: core::fmt::Debug,
        requires
            self.wf(),
        ensures
            self@.root is None ==> r is Ok,
            match r {
                Ok(_) => exists|labels: Seq<Seq<char>>|
                    labels.len() == self@.slots.len() && final(w)@ == old(w)@
                        + #[trigger] self@.rendered(labels),
                Err(_) => final(w)@ == old(w)@,
            },
    {
        let n = self.slot_count();
        let mut labels: Vec<String> = Vec::with_capacity(n);
        let mut i: usize = 0;
        while i < n
            invariant
                i <= n,
                labels@.len() == i,
            decreases n - i,
        {
            labels.push(String::new());
            i += 1;
        }
        if let Some(root_id) = self.root_node_id() {
            let mut walk = match self.traverse_pre_order_ids(root_id) {
                Ok(walk) => walk,
                Err(_) => vstd::pervasive::unreached(),
            };
            loop
                invariant
                    walk.wf(),
                    walk.tree() == self@,
                    self.wf(),
                    self@.root is Some,
                    w@ == old(w)@,
                    labels@.len() == self@.slots.len(),
                decreases walk.remaining().len(),
            {
                match walk.next() {
                    Some(id) => {
                        match self.get(&id) {
                            Ok(node) => {
                                match debug_text(node.data()) {
                                    Ok(text) => {
                                        labels.set(id.index(), text);
                                    },
                                    Err(e) => {
                                        return Err(e);
                                    },
                                }
                            },
                            Err(_) => {},
                        }
                    },
                    None => {
                        break ;
                    },
                }
            }
        }
        self.write_labeled(w, &labels);
        proof {
            assert(label_texts(labels@).len() == self@.slots.len());
        }
        Ok(())
    }
}

} // verus!
