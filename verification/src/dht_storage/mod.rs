pub mod messages;
pub mod realm_core;
pub mod structs;
pub mod realm_view;
