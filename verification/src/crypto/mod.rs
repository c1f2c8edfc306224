pub mod access;
pub mod entity;
pub mod group;
pub mod signer;
pub mod signer_impl;
pub mod test;
