//! Plain-value messages and query responses.

use crate::claim::Claim;
use crate::math::Decimal;
use vstd::prelude::*;

verus! {

/// What a transfer-notification callback of the staked asset may request.
#[derive(Clone, Copy, Debug, PartialEq, Eq, Structural)]
pub enum ReceiveMsg {
    /// Bond the transferred amount for the sending holder.
    BondStake,
}

/// A migration carries no data.
#[derive(Clone, Copy, Debug, PartialEq, Eq, Structural)]
pub struct MigrateMsg {}

/// A payment instruction emitted by an operation; an external collaborator
/// executes the actual transfer of `amount` units of the asset at
/// `token` to `recipient`.
#[derive(Debug)]
pub struct TransferMsg {
    pub token: Vec<u8>,
    pub recipient: Vec<u8>,
    pub amount: u128,
}

/// The configuration, as reported by a query.
#[derive(Debug)]
pub struct ConfigResponse {
    pub staked_token: Vec<u8>,
    pub reward_token: Vec<u8>,
    pub unbonding_period: u64,
    pub reward_cap: Option<u128>,
    pub accrual_period: Option<u64>,
}

/// The global state, as reported by a query.
#[derive(Clone, Copy, Debug, PartialEq, Eq, Structural)]
pub struct StateResponse {
    pub global_index: Decimal,
    pub total_balance: u128,
    pub prev_reward_balance: u128,
    pub next_accrual_time: Option<u64>,
}

/// Whole reward units a holder could claim right now.
#[derive(Clone, Copy, Debug, PartialEq, Eq, Structural)]
pub struct AccruedRewardsResponse {
    pub rewards: u128,
}

/// One holder record, as reported by a query.
#[derive(Debug)]
pub struct HolderResponse {
    pub address: Vec<u8>,
    pub balance: u128,
    pub index: Decimal,
    pub pending_rewards: Decimal,
}

/// A page of holder records in address order.
#[derive(Debug)]
pub struct HoldersResponse {
    pub holders: Vec<HolderResponse>,
}

/// The claim queue of one holder.
#[derive(Debug)]
pub struct ClaimsResponse {
    pub claims: Vec<Claim>,
}

} // verus!
