pub mod broker;
pub mod kademlia;
pub mod routing_core;
