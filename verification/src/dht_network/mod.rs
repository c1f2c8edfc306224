pub mod module;
pub mod storage;
