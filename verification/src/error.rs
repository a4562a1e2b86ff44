//! The closed set of failures that ledger operations report.

use vstd::prelude::*;

verus! {

/// Every fallible operation returns one of these variants; the contracts of
/// the operations state exactly which inputs produce which variant.
#[derive(Clone, Copy, Debug, PartialEq, Eq, Structural)]
pub enum ContractError {
    /// A bond or unbond of zero amount.
    ZeroAmount,
    /// An unbond larger than the holder's staked balance; carries that
    /// balance for diagnostics.
    InsufficientBalance { balance: u128 },
    /// A rewards claim when no whole unit is payable.
    NothingToClaim,
    /// A withdrawal when no matured claim could be paid out.
    NothingMatured,
    /// An accrual with no staked assets to distribute into.
    NoStakedAssets,
    /// An accrual before the period gate opens.
    TooEarly,
    /// The observed reward-pool balance fell below the recorded baseline:
    /// an external inconsistency, reported rather than silently clamped.
    RewardPoolShrunk,
    /// A holder index ahead of the global index, or a payout beyond the
    /// recorded baseline: state inconsistencies, unreachable while the
    /// ledger invariant holds.
    Underflow,
    /// An arithmetic result does not fit its 128-bit representation.
    Overflow,
}

} // verus!
