//! A reward-distribution ledger for a pool of staked value.
//!
//! Participants bond a fungible balance; the pool periodically receives an
//! external reward inflow, and each participant accrues a share of that
//! inflow proportional to their balance. The accounting uses the classic
//! reward-per-share index: a global index advances on each accrual, and a
//! holder is settled against it before any mutation of their balance.
//! Unbonding goes through a time-delayed claim queue.

pub mod claim;
pub mod contract;
pub mod error;
pub mod global;
pub mod math;
pub mod msg;
pub mod state;
pub mod taxation;
pub mod user;
