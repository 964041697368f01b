//! Steering a run: pausing, resuming and killing nodes by their path.
use vstd::prelude::*;

verus! {

/// When a killed node stops.
#[derive(Debug, Clone, Copy, PartialEq, Eq, Structural)]
pub enum KillMode {
    /// At once: its tasks in flight are run again elsewhere.
    Now,
    /// Once the tasks it holds have finished.
    AfterCurrent,
}

/// What a control message asks of a node.
#[derive(Debug, Clone, Copy, PartialEq, Eq, Structural)]
pub enum ControlAction {
    /// Give the node no new tasks.
    Pause,
    /// Give the node tasks again.
    Resume,
    /// Stop the node.
    Kill {
        /// When it stops.
        mode: KillMode,
    },
}

/// A control message addressed to one node of the tree.
#[derive(Debug, Clone, PartialEq, Eq)]
pub struct Control {
    target: String,
    action: ControlAction,
}

impl Control {
    /// The path of the node addressed.
    pub closed spec fn spec_target(&self) -> Seq<char> {
        self.target@
    }

    /// What is asked of it.
    pub closed spec fn spec_action(&self) -> ControlAction {
        self.action
    }

    /// Address `action` to the node at path `target`.
    pub fn new(target: &str, action: ControlAction) -> (r: Control)
        ensures
            r.spec_target() == target@,
            r.spec_action() == action,
    {
        Control { target: target.to_owned(), action }
    }

    /// The path of the node addressed.
    pub fn target(&self) -> (r: &str)
        ensures
            r@ == self.spec_target(),
    {
        self.target.as_str()
    }

    /// What is asked of it.
    pub fn action(&self) -> (r: ControlAction)
        ensures
            r == self.spec_action(),
    {
        self.action
    }
}

} // verus!
