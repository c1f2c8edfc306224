pub mod ledger;
pub mod ledger_core;
pub mod messages;
