pub mod access;
