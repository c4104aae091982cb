//! Accounting core of a cross-chain yield-routing gateway: per-account token
//! balances, per-account vault allocations and a registry of vault rates.
pub mod ledger;
pub mod gateway;
pub mod laws;
