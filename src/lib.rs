pub mod types;
pub mod ledger;
pub mod laws;
pub mod rewards;
