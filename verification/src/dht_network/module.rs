use vstd::prelude::*;

use crate::nodeid::{NodeID, U256};

verus! {

/// The index of a value stored in the distributed hash table.
pub type DHTIndex = U256;

/// A message of the network module: either coming in or going out.
#[derive(Debug, Clone, PartialEq)]
pub enum DHTNetMessage {
    Input(DHTInput),
    Output(DHTOutput),
}

/// A message from a node.
#[derive(Debug, Clone, PartialEq)]
pub enum DHTInput {
    Node(NodeID, MessageNode),
}

/// A message to a node.
#[derive(Debug, Clone, PartialEq)]
pub enum DHTOutput {
    Node(NodeID, MessageNode),
}

/// The messages between the nodes: one for another module, given by its name and
/// the message itself.
#[derive(Debug, Clone, PartialEq)]
pub enum MessageNode {
    Other(String, String),
}

/// A message of another module, by name.
#[derive(Debug, Clone, PartialEq)]
pub struct OtherMessage {
    pub module: String,
    pub msg: String,
}

} // verus!
