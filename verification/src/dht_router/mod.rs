pub mod kademlia;
pub mod messages;
