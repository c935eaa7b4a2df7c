//! A ledger for a referral-driven forced-matrix reward scheme: sequential
//! public identifiers, referral resolution, spillover placement into ten-slot
//! matrices, fee splitting into time-bucketed pools, pro-rata distribution and
//! claims of accrued balances.

pub mod ident;
pub mod pools;
pub mod matrix;
pub mod laws;
