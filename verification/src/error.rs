use vstd::prelude::*;
use vstd::string::*;

verus! {

/// What can go wrong when a handle is presented to a tree.
#[derive(Debug, Clone, Copy, PartialEq, Eq, Structural)]
pub enum NodeIdError {
    /// The handle names a slot whose node has been removed.
    NodeIdNoLongerValid,
}

impl NodeIdError {
    /// A sentence describing the error.
    pub fn reason(&self) -> (s: &'static str)
        ensures
            s@ == "The given NodeId is no longer valid. The Node in question has been removed."@,
    {
        match *self {
            NodeIdError::NodeIdNoLongerValid => {
                "The given NodeId is no longer valid. The Node in question has been removed."
            },
        }
    }

    /// The error as it is shown to a user: the type's name, then the reason.
    pub fn to_string(&self) -> (s: String)
        ensures
            s@ == "NodeIdError: "@
                + "The given NodeId is no longer valid. The Node in question has been removed."@,
    {
        let mut s = String::from_str("NodeIdError: ");
        s.append(self.reason());
        s
    }
}

} // verus!
