//! The accrual engine: folding observed reward inflow into the global index.

use crate::error::ContractError;
use crate::math::{Decimal, DECIMAL_FRACTIONAL};
use crate::state::{holder_of, lemma_sum_ent_shift, sum_entitlements, Ledger, State};
use vstd::arithmetic::div_mod::{lemma_fundamental_div_mod, lemma_mod_bound};
use vstd::prelude::*;

verus! {

/// The recognised reward-pool balance: the observed balance, clamped to at
/// most `cap` above the recorded baseline when a cap is configured.
pub open spec fn clamped_balance(observed: u128, prev: u128, cap: Option<u128>) -> int {
    match cap {
        Option::None => observed as int,
        Option::Some(c) => if observed > prev + c {
            prev + c
        } else {
            observed as int
        },
    }
}

/// Conservation of an accrual step: the growth of the global index, times
/// the total staked balance, recovers the claimed inflow (in atomics) up to
/// less than one atomic unit per unit of stake, the truncation of the
/// fixed-point division. The premise on the new index is exactly what
/// `handle_update_global_index` ensures on success.
pub proof fn lemma_accrual_conservation(
    gi_old: Decimal,
    gi_new: Decimal,
    total: u128,
    claimed: u128,
)
    requires
        total >= 1,
        gi_new.atomics == gi_old.atomics + (claimed * DECIMAL_FRACTIONAL) / (total as int),
    ensures
        (gi_new.atomics - gi_old.atomics) * total <= claimed * DECIMAL_FRACTIONAL < (gi_new.atomics
            - gi_old.atomics) * total + total,
{
    let x = claimed * DECIMAL_FRACTIONAL;
    lemma_fundamental_div_mod(x, total as int);
    lemma_mod_bound(x, total as int);
    let di = x / total as int;
    assert(x == total * di + x % total as int);
    assert(di * total == total * di) by (nonlinear_arith);
}

/// One accrual step: recognises the observed external reward-pool balance,
/// distributes the inflow since the last observation over the total staked
/// balance by advancing the global index, and moves the baseline and the
/// period gate. Returns the claimed inflow. Anybody may trigger it; the
/// caller supplies the observed balance and the current time.
pub fn handle_update_global_index(st: &mut Ledger, now: u64, reward_balance: u128) -> (r: Result<
    u128,
    ContractError,
>)
    requires
        old(st).inv(),
    ensures
        final(st).inv(),
        final(st).state.global_index.atomics >= old(st).state.global_index.atomics,
        ({
            let prev = old(st).state.prev_reward_balance;
            let total = old(st).state.total_balance;
            let gi = old(st).state.global_index;
            let clamped = clamped_balance(reward_balance, prev, old(st).config.reward_cap);
            let claimed = clamped - prev;
            let di = (claimed * DECIMAL_FRACTIONAL) / (total as int);
            let gate_hit = match old(st).state.next_accrual_time {
                Option::Some(t) => now < t,
                Option::None => false,
            };
            let next_gate_overflows = match old(st).state.next_accrual_time {
                Option::Some(t) => t + old(st).config.accrual_period.unwrap() > u64::MAX,
                Option::None => false,
            };
            match r {
                Ok(claimed_r) => total > 0 && !gate_hit && clamped >= prev && claimed_r == claimed
                    && gi.atomics + di <= u128::MAX && !next_gate_overflows && final(st).config
                    == old(st).config && final(st).holders == old(st).holders && final(st).claims
                    == old(st).claims && final(st).state.total_balance == total && final(st).state.prev_reward_balance == clamped && final(st).state.global_index.atomics
                    == gi.atomics + di && final(st).state.next_accrual_time == (match old(st).state.next_accrual_time {
                    Option::Some(t) => Option::Some(
                        (t + old(st).config.accrual_period.unwrap()) as u64,
                    ),
                    Option::None => Option::<u64>::None,
                }),
                Err(e) => *final(st) == *old(st) && (total == 0 || gate_hit || clamped < prev
                    || gi.atomics + di > u128::MAX || next_gate_overflows) && e == (if total == 0 {
                    ContractError::NoStakedAssets
                } else if gate_hit {
                    ContractError::TooEarly
                } else if clamped < prev {
                    ContractError::RewardPoolShrunk
                } else {
                    ContractError::Overflow
                }),
            }
        }),
{
    let prev = st.state.prev_reward_balance;
    let total = st.state.total_balance;
    if total == 0 {
        return Err(ContractError::NoStakedAssets);
    }
    if let Some(t) = st.state.next_accrual_time {
        if now < t {
            return Err(ContractError::TooEarly);
        }
    }
    let clamped: u128 = match st.config.reward_cap {
        Some(c) => match prev.checked_add(c) {
            Some(lim) => if reward_balance > lim {
                lim
            } else {
                reward_balance
            },
            None => reward_balance,
        },
        None => reward_balance,
    };
    if clamped < prev {
        return Err(ContractError::RewardPoolShrunk);
    }
    let claimed = clamped - prev;
    let increment = match Decimal::checked_from_ratio(claimed, total) {
        Some(d) => d,
        None => {
            return Err(ContractError::Overflow);
        },
    };
    let new_index = match st.state.global_index.checked_add(increment) {
        Some(d) => d,
        None => {
            return Err(ContractError::Overflow);
        },
    };
    let new_gate: Option<u64> = match st.state.next_accrual_time {
        Some(t) => {
            let period = match st.config.accrual_period {
                Some(p) => p,
                None => {
                    proof {
                        assert(false);
                    }
                    0
                },
            };
            match t.checked_add(period) {
                Some(n) => Some(n),
                None => {
                    return Err(ContractError::Overflow);
                },
            }
        },
        None => None,
    };
    st.state =
    State {
        global_index: new_index,
        total_balance: total,
        prev_reward_balance: clamped,
        next_accrual_time: new_gate,
    };
    proof {
        assert forall|a: Seq<u8>|
            #[trigger] holder_of(st.holders@, a).index.atomics
                <= st.state.global_index.atomics by {
            assert(holder_of(st.holders@, a) == holder_of(old(st).holders@, a));
            assert(holder_of(old(st).holders@, a).index.atomics
                <= old(st).state.global_index.atomics);
        }
        // the entitlement total grows by the index gap times the total
        // balance, which the truncated division keeps within the inflow
        let gi_old = old(st).state.global_index;
        let di = new_index.atomics - gi_old.atomics;
        lemma_sum_ent_shift(st.holders@, gi_old, new_index);
        lemma_fundamental_div_mod(claimed * DECIMAL_FRACTIONAL, total as int);
        lemma_mod_bound(claimed * DECIMAL_FRACTIONAL, total as int);
        assert(di * total == total * di) by (nonlinear_arith);
        assert(sum_entitlements(st.holders@, new_index) <= old(st).state.prev_reward_balance
            * DECIMAL_FRACTIONAL + claimed * DECIMAL_FRACTIONAL);
        let prev_old = old(st).state.prev_reward_balance;
        assert(clamped * DECIMAL_FRACTIONAL == prev_old * DECIMAL_FRACTIONAL + claimed
            * DECIMAL_FRACTIONAL) by (nonlinear_arith)
            requires
                clamped == prev_old + claimed,
        ;
    }
    Ok(claimed)
}

} // verus!