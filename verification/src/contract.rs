//! Construction of a ledger instance and the read-only queries on its
//! configuration and global state.

use crate::math::Decimal;
use crate::msg::{ConfigResponse, StateResponse};
use crate::state::{copy_addr, holder_of, Config, Ledger, State};
use vstd::prelude::*;

verus! {

/// Creates a fresh ledger: the given configuration, a zero global state,
/// no holders and no claims. The accrual gate opens immediately (at `now`)
/// when a period is configured.
pub fn instantiate(config: Config, now: u64) -> (st: Ledger)
    ensures
        st.inv(),
        st.config == config,
        st.state.global_index == Decimal::spec_zero(),
        st.state.total_balance == 0,
        st.state.prev_reward_balance == 0,
        st.state.next_accrual_time == (match config.accrual_period {
            Option::Some(p) => Option::Some(now),
            Option::None => Option::<u64>::None,
        }),
        st.holders@.len() == 0,
        st.claims@.len() == 0,
{
    let next_accrual_time: Option<u64> = match config.accrual_period {
        Some(_p) => Some(now),
        None => None,
    };
    let st = Ledger {
        config,
        state: State {
            global_index: Decimal::zero(),
            total_balance: 0,
            prev_reward_balance: 0,
            next_accrual_time,
        },
        holders: Vec::new(),
        claims: Vec::new(),
    };
    proof {
        assert(st.state.total_balance == crate::state::sum_balances(st.holders@));
        assert forall|a: Seq<u8>|
            #[trigger] holder_of(st.holders@, a).index.atomics
                <= st.state.global_index.atomics by {
            assert(crate::state::find_holder(st.holders@, a) == -1);
        }
    }
    st
}

/// The configuration, copied out.
pub fn query_config(st: &Ledger) -> (r: ConfigResponse)
    ensures
        r.staked_token@ == st.config.staked_token@,
        r.reward_token@ == st.config.reward_token@,
        r.unbonding_period == st.config.unbonding_period,
        r.reward_cap == st.config.reward_cap,
        r.accrual_period == st.config.accrual_period,
{
    ConfigResponse {
        staked_token: copy_addr(&st.config.staked_token),
        reward_token: copy_addr(&st.config.reward_token),
        unbonding_period: st.config.unbonding_period,
        reward_cap: st.config.reward_cap,
        accrual_period: st.config.accrual_period,
    }
}

/// The global state, copied out.
pub fn query_state(st: &Ledger) -> (r: StateResponse)
    ensures
        r.global_index == st.state.global_index,
        r.total_balance == st.state.total_balance,
        r.prev_reward_balance == st.state.prev_reward_balance,
        r.next_accrual_time == st.state.next_accrual_time,
{
    StateResponse {
        global_index: st.state.global_index,
        total_balance: st.state.total_balance,
        prev_reward_balance: st.state.prev_reward_balance,
        next_accrual_time: st.state.next_accrual_time,
    }
}

} // verus!