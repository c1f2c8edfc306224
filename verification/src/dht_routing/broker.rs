use vstd::prelude::*;

verus! {

/// Statistics of the routing module.
#[derive(Debug, Clone, Copy, PartialEq, Eq, Structural)]
pub struct DHTRoutingStats {
    pub nodes_active: usize,
}

} // verus!
