//! Accounting and settlement core: a per-account, per-asset ledger with a
//! minimum-balance (dust sweeping) policy, a fee distributor that feeds a
//! rotating reward pool, and an interpreter for cross-domain messages that
//! deposit assets, buy execution weight, and settle the proceeds.

pub mod assets;
pub mod engine;
pub mod fees;
pub mod ledger;
