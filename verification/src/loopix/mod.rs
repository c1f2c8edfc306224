pub mod config;
pub mod storage;
pub mod messages;
pub mod provider;
