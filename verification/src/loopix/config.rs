use vstd::prelude::*;

verus! {

/// The role of a node in the Loopix mix network.
#[derive(Debug, Clone, Copy, PartialEq, Eq, Structural)]
pub enum LoopixRole {
    Mixnode,
    Provider,
    Client,
}

} // verus!
