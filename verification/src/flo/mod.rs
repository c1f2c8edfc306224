pub mod blob;
pub mod flo;
pub mod flo_entity;
pub mod mana;
pub mod realm;
