//! The settlement engine and the holder operations built on it.
//!
//! Every holder-mutating operation first settles the holder against the
//! current global index: the gap `global_index - holder.index`, times the
//! holder's balance, moves into `pending_rewards`, and the holder's index
//! catches up. Only then is the requested mutation applied.

use crate::claim::{claim_tokens, create_claim, take_send, take_wait, cap_value, BlockInfo, Claim, Expiration};
use crate::error::ContractError;
use crate::math::{Decimal, DECIMAL_FRACTIONAL};
use crate::msg::{
    AccruedRewardsResponse, HolderResponse, HoldersResponse, ReceiveMsg, TransferMsg,
};
use crate::state::{
    claims_of, copy_addr, entitlement, holder_of, lemma_holder_at, lemma_holder_balance_le_sum,
    lemma_holder_ent_le_sum, read_holder, read_holders, store_holder, sum_entitlements, Holder,
    Ledger, State,
};
use vstd::arithmetic::div_mod::lemma_fundamental_div_mod;
use vstd::prelude::*;

verus! {

/// Atomics newly owed to a holder: the index gap times the balance.
pub open spec fn owed_atomics(global_index: Decimal, h: Holder) -> int {
    (global_index.atomics - h.index.atomics) * h.balance
}

/// Whether settling `h` against `global_index` is representable: the
/// holder's index must not be ahead of the global one, and the enlarged
/// pending amount must fit.
pub open spec fn settle_ok(global_index: Decimal, h: Holder) -> bool {
    &&& h.index.atomics <= global_index.atomics
    &&& h.pending_rewards.atomics + owed_atomics(global_index, h) <= u128::MAX
}

/// The settled holder: pending rewards grown by what was owed, index caught
/// up, balance untouched.
pub open spec fn spec_settle(global_index: Decimal, h: Holder) -> Holder {
    Holder {
        balance: h.balance,
        index: global_index,
        pending_rewards: Decimal {
            atomics: (h.pending_rewards.atomics + owed_atomics(global_index, h)) as u128,
        },
    }
}

/// Settling a second time against the same global index changes nothing:
/// the settled holder's index gap is zero.
pub proof fn lemma_settle_idempotent(global_index: Decimal, h: Holder)
    requires
        settle_ok(global_index, h),
    ensures
        settle_ok(global_index, spec_settle(global_index, h)),
        spec_settle(global_index, spec_settle(global_index, h)) == spec_settle(global_index, h),
{
    let s1 = spec_settle(global_index, h);
    assert(owed_atomics(global_index, s1) == 0) by (nonlinear_arith)
        requires
            owed_atomics(global_index, s1) == (global_index.atomics - s1.index.atomics)
                * s1.balance,
            s1.index.atomics == global_index.atomics,
    ;
}

/// The reward newly owed for the gap between the global and the holder
/// index, as a decimal: `(global_index - user_index) * user_balance`.
pub fn calculate_decimal_rewards(
    global_index: Decimal,
    user_index: Decimal,
    user_balance: u128,
) -> (r: Result<Decimal, ContractError>)
    ensures
        match r {
            Ok(d) => user_index.atomics <= global_index.atomics && (global_index.atomics
                - user_index.atomics) * user_balance <= u128::MAX && d.atomics
                == (global_index.atomics - user_index.atomics) * user_balance,
            Err(e) => (e == ContractError::Underflow && user_index.atomics
                > global_index.atomics) || (e == ContractError::Overflow && user_index.atomics
                <= global_index.atomics && (global_index.atomics - user_index.atomics)
                * user_balance > u128::MAX),
        },
{
    let diff = match global_index.checked_sub(user_index) {
        Some(d) => d,
        None => {
            return Err(ContractError::Underflow);
        },
    };
    match diff.checked_mul_uint(user_balance) {
        Some(owed) => Ok(owed),
        None => Err(ContractError::Overflow),
    }
}

/// The fractional remainder of a decimal: the part strictly below one whole
/// unit.
pub fn get_decimals(value: Decimal) -> (r: Decimal)
    ensures
        r.atomics == value.atomics as int % (DECIMAL_FRACTIONAL as int),
        r.atomics < DECIMAL_FRACTIONAL,
{
    Decimal { atomics: value.atomics % DECIMAL_FRACTIONAL }
}

/// Settles a holder against the global index.
pub fn settle(global_index: Decimal, holder: &Holder) -> (r: Result<Holder, ContractError>)
    ensures
        match r {
            Ok(h) => settle_ok(global_index, *holder) && h == spec_settle(global_index, *holder),
            Err(e) => !settle_ok(global_index, *holder) && e == (if holder.index.atomics
                > global_index.atomics {
                ContractError::Underflow
            } else {
                ContractError::Overflow
            }),
        },
{
    let owed = match calculate_decimal_rewards(global_index, holder.index, holder.balance) {
        Ok(d) => d,
        Err(e) => {
            return Err(e);
        },
    };
    match holder.pending_rewards.checked_add(owed) {
        Some(pending) => Ok(
            Holder { balance: holder.balance, index: global_index, pending_rewards: pending },
        ),
        None => Err(ContractError::Overflow),
    }
}

/// Bonds `amount` of stake for a holder: settles the holder, then grows its
/// balance and the total balance.
pub fn handle_bond(st: &mut Ledger, holder_addr: &Vec<u8>, amount: u128) -> (r: Result<
    (),
    ContractError,
>)
    requires
        old(st).inv(),
    ensures
        final(st).inv(),
        ({
            let h0 = holder_of(old(st).holders@, holder_addr@);
            let gi = old(st).state.global_index;
            match r {
                Ok(u) => amount > 0 && settle_ok(gi, h0) && old(st).state.total_balance + amount
                    <= u128::MAX && final(st).config == old(st).config && final(st).claims == old(st).claims && final(st).state == (State {
                    total_balance: (old(st).state.total_balance + amount) as u128,
                    ..old(st).state
                }) && holder_of(final(st).holders@, holder_addr@) == (Holder {
                    balance: (h0.balance + amount) as u128,
                    index: gi,
                    pending_rewards: spec_settle(gi, h0).pending_rewards,
                }) && (forall|b: Seq<u8>|
                    b != holder_addr@ ==> #[trigger] holder_of(final(st).holders@, b) == holder_of(
                        old(st).holders@,
                        b,
                    )),
                Err(e) => *final(st) == *old(st) && (amount == 0 || !settle_ok(gi, h0) || old(st).state.total_balance + amount > u128::MAX) && e == (if amount == 0 {
                    ContractError::ZeroAmount
                } else {
                    ContractError::Overflow
                }),
            }
        }),
{
    if amount == 0 {
        return Err(ContractError::ZeroAmount);
    }
    let ghost gi = st.state.global_index;
    let h0 = read_holder(st, holder_addr);
    proof {
        assert(holder_of(st.holders@, holder_addr@).index.atomics <= gi.atomics);
    }
    let settled = match settle(st.state.global_index, &h0) {
        Ok(h) => h,
        Err(e) => {
            proof {
                assert(e == ContractError::Overflow);
            }
            return Err(e);
        },
    };
    let new_total = match st.state.total_balance.checked_add(amount) {
        Some(t) => t,
        None => {
            return Err(ContractError::Overflow);
        },
    };
    proof {
        lemma_holder_balance_le_sum(st.holders@, holder_addr@);
    }
    let new_holder = Holder {
        balance: settled.balance + amount,
        index: settled.index,
        pending_rewards: settled.pending_rewards,
    };
    store_holder(st, holder_addr, new_holder);
    st.state.total_balance = new_total;
    proof {
        assert forall|a: Seq<u8>|
            #[trigger] holder_of(st.holders@, a).index.atomics
                <= st.state.global_index.atomics by {
            if a != holder_addr@ {
                assert(holder_of(st.holders@, a) == holder_of(old(st).holders@, a));
            }
        }
        // the settled holder carries the same entitlement as before
        assert((gi.atomics - gi.atomics) * new_holder.balance == 0) by (nonlinear_arith);
        assert(entitlement(gi, new_holder) == entitlement(gi, h0));
        assert(sum_entitlements(st.holders@, gi) == sum_entitlements(old(st).holders@, gi));
    }
    Ok(())
}

/// A transfer-notification callback of the staked asset: the only request
/// it can carry is a bond of the transferred amount.
pub fn handle_receive(st: &mut Ledger, holder_addr: &Vec<u8>, amount: u128, msg: ReceiveMsg) -> (r:
    Result<(), ContractError>)
    requires
        old(st).inv(),
    ensures
        final(st).inv(),
        ({
            let h0 = holder_of(old(st).holders@, holder_addr@);
            let gi = old(st).state.global_index;
            match r {
                Ok(u) => amount > 0 && settle_ok(gi, h0) && old(st).state.total_balance + amount
                    <= u128::MAX && final(st).config == old(st).config && final(st).claims == old(st).claims && final(st).state == (State {
                    total_balance: (old(st).state.total_balance + amount) as u128,
                    ..old(st).state
                }) && holder_of(final(st).holders@, holder_addr@) == (Holder {
                    balance: (h0.balance + amount) as u128,
                    index: gi,
                    pending_rewards: spec_settle(gi, h0).pending_rewards,
                }) && (forall|b: Seq<u8>|
                    b != holder_addr@ ==> #[trigger] holder_of(final(st).holders@, b) == holder_of(
                        old(st).holders@,
                        b,
                    )),
                Err(e) => *final(st) == *old(st) && (amount == 0 || !settle_ok(gi, h0) || old(st).state.total_balance + amount > u128::MAX) && e == (if amount == 0 {
                    ContractError::ZeroAmount
                } else {
                    ContractError::Overflow
                }),
            }
        }),
{
    match msg {
        ReceiveMsg::BondStake => handle_bond(st, holder_addr, amount),
    }
}

/// Unbonds `amount` of stake: settles the holder, shrinks its balance and
/// the total balance, and queues a claim that matures after the unbonding
/// period.
pub fn handle_unbound(st: &mut Ledger, holder_addr: &Vec<u8>, amount: u128, block: &BlockInfo) -> (r:
    Result<(), ContractError>)
    requires
        old(st).inv(),
    ensures
        final(st).inv(),
        ({
            let h0 = holder_of(old(st).holders@, holder_addr@);
            let gi = old(st).state.global_index;
            let release = block.height + old(st).config.unbonding_period;
            match r {
                Ok(u) => amount > 0 && h0.balance >= amount && settle_ok(gi, h0) && release
                    <= u64::MAX && final(st).config == old(st).config && final(st).state == (State {
                    total_balance: (old(st).state.total_balance - amount) as u128,
                    ..old(st).state
                }) && holder_of(final(st).holders@, holder_addr@) == (Holder {
                    balance: (h0.balance - amount) as u128,
                    index: gi,
                    pending_rewards: spec_settle(gi, h0).pending_rewards,
                }) && (forall|b: Seq<u8>|
                    b != holder_addr@ ==> #[trigger] holder_of(final(st).holders@, b) == holder_of(
                        old(st).holders@,
                        b,
                    )) && claims_of(final(st).claims@, holder_addr@) == claims_of(
                    old(st).claims@,
                    holder_addr@,
                ).push(Claim { amount, release_at: Expiration::AtHeight(release as u64) }) && (
                forall|b: Seq<u8>|
                    b != holder_addr@ ==> #[trigger] claims_of(final(st).claims@, b) == claims_of(
                        old(st).claims@,
                        b,
                    )),
                Err(e) => *final(st) == *old(st) && (amount == 0 || h0.balance < amount
                    || !settle_ok(gi, h0) || release > u64::MAX) && e == (if amount == 0 {
                    ContractError::ZeroAmount
                } else if h0.balance < amount {
                    ContractError::InsufficientBalance { balance: h0.balance }
                } else {
                    ContractError::Overflow
                }),
            }
        }),
{
    if amount == 0 {
        return Err(ContractError::ZeroAmount);
    }
    let ghost gi = st.state.global_index;
    let h0 = read_holder(st, holder_addr);
    if h0.balance < amount {
        return Err(ContractError::InsufficientBalance { balance: h0.balance });
    }
    proof {
        assert(holder_of(st.holders@, holder_addr@).index.atomics <= gi.atomics);
    }
    let settled = match settle(st.state.global_index, &h0) {
        Ok(h) => h,
        Err(e) => {
            proof {
                assert(e == ContractError::Overflow);
            }
            return Err(e);
        },
    };
    let release = match block.height.checked_add(st.config.unbonding_period) {
        Some(x) => x,
        None => {
            return Err(ContractError::Overflow);
        },
    };
    proof {
        lemma_holder_balance_le_sum(st.holders@, holder_addr@);
    }
    let new_holder = Holder {
        balance: settled.balance - amount,
        index: settled.index,
        pending_rewards: settled.pending_rewards,
    };
    store_holder(st, holder_addr, new_holder);
    st.state.total_balance = st.state.total_balance - amount;
    create_claim(st, holder_addr, amount, Expiration::AtHeight(release));
    proof {
        assert forall|a: Seq<u8>|
            #[trigger] holder_of(st.holders@, a).index.atomics
                <= st.state.global_index.atomics by {
            if a != holder_addr@ {
                assert(holder_of(st.holders@, a) == holder_of(old(st).holders@, a));
            }
        }
    }
    Ok(())
}

/// Pays out the whole-unit part of a holder's settled rewards, leaving only
/// the fractional remainder pending, and emits the payment instruction.
pub fn handle_claim_rewards(
    st: &mut Ledger,
    holder_addr: &Vec<u8>,
    recipient: Option<Vec<u8>>,
) -> (r: Result<TransferMsg, ContractError>)
    requires
        old(st).inv(),
    ensures
        final(st).inv(),
        ({
            let h0 = holder_of(old(st).holders@, holder_addr@);
            let gi = old(st).state.global_index;
            let pend = spec_settle(gi, h0).pending_rewards.atomics;
            let payable = pend as int / (DECIMAL_FRACTIONAL as int);
            match r {
                Ok(m) => settle_ok(gi, h0) && payable > 0 && payable <= old(st).state.prev_reward_balance && m.amount == payable && m.token@ == old(st).config.reward_token@ && m.recipient@ == (match recipient {
                    Option::Some(rc) => rc@,
                    Option::None => holder_addr@,
                }) && final(st).config == old(st).config && final(st).claims == old(st).claims
                    && final(st).state == (State {
                    prev_reward_balance: (old(st).state.prev_reward_balance - payable) as u128,
                    ..old(st).state
                }) && holder_of(final(st).holders@, holder_addr@) == (Holder {
                    balance: h0.balance,
                    index: gi,
                    pending_rewards: Decimal {
                        atomics: (pend as int % (DECIMAL_FRACTIONAL as int)) as u128,
                    },
                }) && (forall|b: Seq<u8>|
                    b != holder_addr@ ==> #[trigger] holder_of(final(st).holders@, b) == holder_of(
                        old(st).holders@,
                        b,
                    )),
                Err(e) => *final(st) == *old(st) && (!settle_ok(gi, h0) || payable == 0) && e
                    == (if !settle_ok(gi, h0) {
                    ContractError::Overflow
                } else {
                    ContractError::NothingToClaim
                }),
            }
        }),
{
    let ghost gi = st.state.global_index;
    let h0 = read_holder(st, holder_addr);
    proof {
        assert(holder_of(st.holders@, holder_addr@).index.atomics <= gi.atomics);
    }
    let settled = match settle(st.state.global_index, &h0) {
        Ok(h) => h,
        Err(e) => {
            proof {
                assert(e == ContractError::Overflow);
            }
            return Err(e);
        },
    };
    let payable = settled.pending_rewards.to_uint_floor();
    if payable == 0 {
        return Err(ContractError::NothingToClaim);
    }
    proof {
        // the ledger invariant keeps the payout within the recorded
        // baseline: the holder's entitlement is part of the total, which
        // stays below prev_reward_balance in atomics
        assert forall|k: int|
            0 <= k < st.holders@.len() implies (#[trigger] st.holders@[k]).holder.index.atomics
            <= gi.atomics by {
            lemma_holder_at(st.holders@, k);
        }
        lemma_holder_ent_le_sum(st.holders@, gi, holder_addr@);
        lemma_fundamental_div_mod(
            settled.pending_rewards.atomics as int,
            DECIMAL_FRACTIONAL as int,
        );
        assert(payable <= st.state.prev_reward_balance);
    }
    let new_prev = match st.state.prev_reward_balance.checked_sub(payable) {
        Some(p) => p,
        None => {
            proof {
                assert(false);
            }
            return Err(ContractError::Underflow);
        },
    };
    let remainder = get_decimals(settled.pending_rewards);
    let token = copy_addr(&st.config.reward_token);
    let new_holder = Holder {
        balance: settled.balance,
        index: settled.index,
        pending_rewards: remainder,
    };
    store_holder(st, holder_addr, new_holder);
    st.state.prev_reward_balance = new_prev;
    let to = match recipient {
        Option::Some(rc) => rc,
        Option::None => copy_addr(holder_addr),
    };
    proof {
        assert forall|a: Seq<u8>|
            #[trigger] holder_of(st.holders@, a).index.atomics
                <= st.state.global_index.atomics by {
            if a != holder_addr@ {
                assert(holder_of(st.holders@, a) == holder_of(old(st).holders@, a));
            }
        }
        // the whole units paid out leave both the entitlement total and the
        // baseline reduced by the same amount
        assert((gi.atomics - gi.atomics) * new_holder.balance == 0) by (nonlinear_arith);
        assert(entitlement(gi, new_holder) == settled.pending_rewards.atomics as int % (
        DECIMAL_FRACTIONAL as int));
        assert(sum_entitlements(st.holders@, gi) == sum_entitlements(old(st).holders@, gi)
            - payable * DECIMAL_FRACTIONAL);
    }
    Ok(TransferMsg { token, recipient: to, amount: payable })
}

/// Withdraws the matured unbonding claims of the caller, greedily in queue
/// order under the optional cap, and emits the payment instruction.
pub fn handle_withdraw_stake(
    st: &mut Ledger,
    holder_addr: &Vec<u8>,
    block: &BlockInfo,
    cap: Option<u128>,
) -> (r: Result<TransferMsg, ContractError>)
    requires
        old(st).inv(),
    ensures
        final(st).inv(),
        ({
            let cv = claims_of(old(st).claims@, holder_addr@);
            let amt = take_send(cv, *block, cap_value(cap), 0);
            match r {
                Ok(m) => amt > 0 && m.amount == amt && m.token@ == old(st).config.staked_token@
                    && m.recipient@ == holder_addr@ && final(st).config == old(st).config && final(st).state == old(st).state && final(st).holders == old(st).holders && claims_of(
                    final(st).claims@,
                    holder_addr@,
                ) == take_wait(cv, *block, cap_value(cap), 0) && (forall|b: Seq<u8>|
                    b != holder_addr@ ==> #[trigger] claims_of(final(st).claims@, b) == claims_of(
                        old(st).claims@,
                        b,
                    )),
                Err(e) => e == ContractError::NothingMatured && amt == 0 && *final(st) == *old(st),
            }
        }),
{
    let token = copy_addr(&st.config.staked_token);
    let amount = claim_tokens(st, holder_addr, block, cap);
    if amount == 0 {
        return Err(ContractError::NothingMatured);
    }
    proof {
        assert forall|a: Seq<u8>|
            #[trigger] holder_of(st.holders@, a).index.atomics
                <= st.state.global_index.atomics by {
            assert(holder_of(st.holders@, a) == holder_of(old(st).holders@, a));
        }
    }
    Ok(TransferMsg { token, recipient: copy_addr(holder_addr), amount })
}

/// Whole reward units the holder could claim right now, without changing
/// any state.
pub fn query_accrued_rewards(st: &Ledger, address: &Vec<u8>) -> (r: Result<
    AccruedRewardsResponse,
    ContractError,
>)
    requires
        st.inv(),
    ensures
        ({
            let h0 = holder_of(st.holders@, address@);
            let gi = st.state.global_index;
            match r {
                Ok(resp) => settle_ok(gi, h0) && resp.rewards == spec_settle(
                    gi,
                    h0,
                ).pending_rewards.atomics as int / (DECIMAL_FRACTIONAL as int),
                Err(e) => !settle_ok(gi, h0) && e == ContractError::Overflow,
            }
        }),
{
    let h0 = read_holder(st, address);
    proof {
        assert(holder_of(st.holders@, address@).index.atomics <= st.state.global_index.atomics);
    }
    let settled = match settle(st.state.global_index, &h0) {
        Ok(h) => h,
        Err(e) => {
            proof {
                assert(e == ContractError::Overflow);
            }
            return Err(e);
        },
    };
    Ok(AccruedRewardsResponse { rewards: settled.pending_rewards.to_uint_floor() })
}

/// The stored record of one holder.
pub fn query_holder(st: &Ledger, address: &Vec<u8>) -> (r: HolderResponse)
    ensures
        r.address@ == address@,
        r.balance == holder_of(st.holders@, address@).balance,
        r.index == holder_of(st.holders@, address@).index,
        r.pending_rewards == holder_of(st.holders@, address@).pending_rewards,
{
    let h = read_holder(st, address);
    HolderResponse {
        address: copy_addr(address),
        balance: h.balance,
        index: h.index,
        pending_rewards: h.pending_rewards,
    }
}

/// A page of holders in address order; see `read_holders`.
pub fn query_holders(st: &Ledger, start_after: Option<Vec<u8>>, limit: Option<u32>) -> (r:
    HoldersResponse)
    ensures
        ({
            let pg = crate::state::page_of(
                st.holders@,
                crate::state::addr_opt_view(start_after),
                crate::state::clamped_limit(limit),
            );
            &&& r.holders@.len() == pg.len()
            &&& forall|k: int|
                0 <= k < pg.len() ==> (#[trigger] r.holders@[k]).address@ == pg[k].addr@
                    && r.holders@[k].balance == pg[k].holder.balance && r.holders@[k].index
                    == pg[k].holder.index && r.holders@[k].pending_rewards
                    == pg[k].holder.pending_rewards
        }),
{
    HoldersResponse { holders: read_holders(st, start_after, limit) }
}

} // verus!