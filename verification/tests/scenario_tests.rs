//! Scenario tests for the stated properties of the ledger: accrual gating,
//! decimal splitting, unbonding maturity, capped withdrawal, pagination,
//! settlement idempotence, and each error variant.

use staking_rewards::claim::{BlockInfo, Expiration};
use staking_rewards::contract::{instantiate, query_state};
use staking_rewards::error::ContractError;
use staking_rewards::global::handle_update_global_index;
use staking_rewards::math::Decimal;
use staking_rewards::state::{check_inv, Config, Holder, Ledger};
use staking_rewards::user::{
    handle_bond, handle_claim_rewards, handle_unbound, handle_withdraw_stake,
    query_accrued_rewards, query_holder, query_holders, settle,
};
use staking_rewards::claim::query_claims;

fn fresh(unbonding_period: u64, reward_cap: Option<u128>, accrual_period: Option<u64>) -> Ledger {
    instantiate(
        Config {
            staked_token: b"stake".to_vec(),
            reward_token: b"reward".to_vec(),
            unbonding_period,
            reward_cap,
            accrual_period,
        },
        0,
    )
}

fn block_at(height: u64) -> BlockInfo {
    BlockInfo { height, time: 0 }
}

#[test]
fn single_holder_accrual() {
    // bond 100 into an empty pool, then accrue an inflow of 100
    let mut st = fresh(1000, None, None);

    let res = handle_update_global_index(&mut st, 0, 100);
    match res {
        Err(ContractError::NoStakedAssets) => {}
        _ => panic!("accrual without stake must be rejected"),
    }

    handle_bond(&mut st, &b"addr0000".to_vec(), 100).unwrap();
    assert_eq!(query_state(&st).total_balance, 100);

    let claimed = handle_update_global_index(&mut st, 0, 100).unwrap();
    assert_eq!(claimed, 100);
    let state = query_state(&st);
    assert_eq!(state.global_index, Decimal::one());
    assert_eq!(state.prev_reward_balance, 100);
}

#[test]
fn reward_decimal_split() {
    // an inflow of 100000 over a total stake of 11 gives the repeating
    // index 9090.909090909090909090; claiming extracts the integer part
    let mut st = fresh(1000, None, None);
    handle_bond(&mut st, &b"addr0000".to_vec(), 1).unwrap();
    handle_bond(&mut st, &b"addr0001".to_vec(), 10).unwrap();

    handle_update_global_index(&mut st, 0, 100000).unwrap();
    let index = query_state(&st).global_index;
    assert_eq!(index, Decimal::from_ratio(100000, 11));
    assert_eq!(index.atomics, 9_090_909_090_909_090_909_090);

    // the holder with balance 1 is owed exactly the index value
    let msg = handle_claim_rewards(&mut st, &b"addr0000".to_vec(), None).unwrap();
    assert_eq!(msg.amount, 9090);
    let holder = query_holder(&st, &b"addr0000".to_vec());
    assert_eq!(holder.pending_rewards, Decimal::from_atomics(909_090_909_090_909_090));
}

#[test]
fn unbond_then_withdraw() {
    // bond 100, unbond it at height 5; withdrawal matures 1000 blocks later
    let mut st = fresh(1000, None, None);
    handle_bond(&mut st, &b"addr0000".to_vec(), 100).unwrap();
    handle_unbound(&mut st, &b"addr0000".to_vec(), 100, &block_at(5)).unwrap();

    let claims = query_claims(&st, &b"addr0000".to_vec());
    assert_eq!(claims.claims.len(), 1);
    assert_eq!(claims.claims[0].amount, 100);
    assert_eq!(claims.claims[0].release_at, Expiration::AtHeight(1005));

    let res = handle_withdraw_stake(&mut st, &b"addr0000".to_vec(), &block_at(10), None);
    match res {
        Err(ContractError::NothingMatured) => {}
        _ => panic!("withdrawal before maturity must be rejected"),
    }

    let msg =
        handle_withdraw_stake(&mut st, &b"addr0000".to_vec(), &block_at(1005), None).unwrap();
    assert_eq!(msg.amount, 100);
    assert_eq!(query_claims(&st, &b"addr0000".to_vec()).claims.len(), 0);
}

#[test]
fn withdraw_cap_greedy() {
    // two matured claims of 100 and 50: a cap of 120 admits only the first,
    // and the excluded claim stays queued
    let mut st = fresh(10, None, None);
    handle_bond(&mut st, &b"addr0000".to_vec(), 150).unwrap();
    handle_unbound(&mut st, &b"addr0000".to_vec(), 100, &block_at(1)).unwrap();
    handle_unbound(&mut st, &b"addr0000".to_vec(), 50, &block_at(2)).unwrap();

    let msg =
        handle_withdraw_stake(&mut st, &b"addr0000".to_vec(), &block_at(5000), Some(120)).unwrap();
    assert_eq!(msg.amount, 100);
    let left = query_claims(&st, &b"addr0000".to_vec());
    assert_eq!(left.claims.len(), 1);
    assert_eq!(left.claims[0].amount, 50);

    // without a cap the rest is paid as well
    let msg =
        handle_withdraw_stake(&mut st, &b"addr0000".to_vec(), &block_at(5000), None).unwrap();
    assert_eq!(msg.amount, 50);
    assert_eq!(query_claims(&st, &b"addr0000".to_vec()).claims.len(), 0);

    // a cap at or above the sum admits both claims at once
    let mut st2 = fresh(10, None, None);
    handle_bond(&mut st2, &b"addr0000".to_vec(), 150).unwrap();
    handle_unbound(&mut st2, &b"addr0000".to_vec(), 100, &block_at(1)).unwrap();
    handle_unbound(&mut st2, &b"addr0000".to_vec(), 50, &block_at(2)).unwrap();
    let msg =
        handle_withdraw_stake(&mut st2, &b"addr0000".to_vec(), &block_at(5000), Some(150))
            .unwrap();
    assert_eq!(msg.amount, 150);
    assert_eq!(query_claims(&st2, &b"addr0000".to_vec()).claims.len(), 0);
}

#[test]
fn holders_pagination() {
    // addr0, addr1, addr2 inserted in order; pages follow address order
    let mut st = fresh(1000, None, None);
    handle_bond(&mut st, &b"addr0".to_vec(), 1).unwrap();
    handle_bond(&mut st, &b"addr1".to_vec(), 2).unwrap();
    handle_bond(&mut st, &b"addr2".to_vec(), 3).unwrap();

    let all = query_holders(&st, None, None);
    assert_eq!(all.holders.len(), 3);
    assert_eq!(all.holders[0].address, b"addr0".to_vec());
    assert_eq!(all.holders[1].address, b"addr1".to_vec());
    assert_eq!(all.holders[2].address, b"addr2".to_vec());

    let after = query_holders(&st, Some(b"addr0".to_vec()), None);
    assert_eq!(after.holders.len(), 2);
    assert_eq!(after.holders[0].address, b"addr1".to_vec());
    assert_eq!(after.holders[1].address, b"addr2".to_vec());

    let first = query_holders(&st, None, Some(1));
    assert_eq!(first.holders.len(), 1);
    assert_eq!(first.holders[0].address, b"addr0".to_vec());
}

#[test]
fn settle_twice_is_settle_once() {
    // settling again without an index change leaves the holder as it was
    let global_index = Decimal::from_ratio(7, 3);
    let holder = Holder {
        balance: 1234,
        index: Decimal::from_ratio(1, 3),
        pending_rewards: Decimal::from_ratio(5, 7),
    };
    let once = settle(global_index, &holder).unwrap();
    let twice = settle(global_index, &once).unwrap();
    assert_eq!(once, twice);
}

#[test]
fn accrued_rewards_query_matches_claim() {
    let mut st = fresh(1000, None, None);
    handle_bond(&mut st, &b"addr0000".to_vec(), 11).unwrap();
    handle_update_global_index(&mut st, 0, 100).unwrap();

    let accrued = query_accrued_rewards(&st, &b"addr0000".to_vec()).unwrap();
    let msg = handle_claim_rewards(&mut st, &b"addr0000".to_vec(), None).unwrap();
    assert_eq!(accrued.rewards, msg.amount);
    assert_eq!(msg.amount, 99);
}

#[test]
fn zero_amount_rejected() {
    let mut st = fresh(1000, None, None);
    let res = handle_bond(&mut st, &b"addr0000".to_vec(), 0);
    assert!(matches!(res, Err(ContractError::ZeroAmount)));
    let res = handle_unbound(&mut st, &b"addr0000".to_vec(), 0, &block_at(1));
    assert!(matches!(res, Err(ContractError::ZeroAmount)));
}

#[test]
fn nothing_to_claim_rejected() {
    let mut st = fresh(1000, None, None);
    handle_bond(&mut st, &b"addr0000".to_vec(), 100).unwrap();
    let res = handle_claim_rewards(&mut st, &b"addr0000".to_vec(), None);
    assert!(matches!(res, Err(ContractError::NothingToClaim)));
}

#[test]
fn accrual_before_gate_rejected() {
    let mut st = fresh(1000, Some(100), Some(86400));
    handle_bond(&mut st, &b"addr0000".to_vec(), 100).unwrap();
    handle_update_global_index(&mut st, 0, 50).unwrap();
    let res = handle_update_global_index(&mut st, 86399, 100);
    assert!(matches!(res, Err(ContractError::TooEarly)));
    assert_eq!(query_state(&st).prev_reward_balance, 50);
    handle_update_global_index(&mut st, 86400, 100).unwrap();
    assert_eq!(query_state(&st).prev_reward_balance, 100);
}

#[test]
fn shrunken_pool_rejected() {
    let mut st = fresh(1000, None, None);
    handle_bond(&mut st, &b"addr0000".to_vec(), 100).unwrap();
    handle_update_global_index(&mut st, 0, 500).unwrap();
    // the pool now reports less than the recorded baseline
    let res = handle_update_global_index(&mut st, 0, 499);
    assert!(matches!(res, Err(ContractError::RewardPoolShrunk)));
    // the failed call left the state untouched
    assert_eq!(query_state(&st).prev_reward_balance, 500);
    assert_eq!(query_state(&st).global_index, Decimal::from_ratio(5, 1));
}

#[test]
fn bond_overflow_rejected() {
    let mut st = fresh(1000, None, None);
    handle_bond(&mut st, &b"addr0000".to_vec(), u128::MAX).unwrap();
    let res = handle_bond(&mut st, &b"addr0001".to_vec(), 1);
    assert!(matches!(res, Err(ContractError::Overflow)));
    assert_eq!(query_state(&st).total_balance, u128::MAX);
}

#[test]
fn claim_beyond_baseline_rejected() {
    // a baseline below the pending rewards breaks the ledger invariant;
    // even on such a corrupted state the payout fails hard instead of
    // wrapping around
    let mut st = fresh(1000, None, None);
    handle_bond(&mut st, &b"addr0000".to_vec(), 100).unwrap();
    handle_update_global_index(&mut st, 0, 100).unwrap();
    st.state.prev_reward_balance = 10;
    let res = handle_claim_rewards(&mut st, &b"addr0000".to_vec(), None);
    assert!(matches!(res, Err(ContractError::Underflow)));
}

#[test]
fn check_inv_accepts_reachable_states() {
    let mut st = fresh(1000, Some(100), Some(86400));
    assert!(check_inv(&st));
    handle_bond(&mut st, &b"addr0000".to_vec(), 100).unwrap();
    handle_update_global_index(&mut st, 0, 100).unwrap();
    handle_unbound(&mut st, &b"addr0000".to_vec(), 40, &block_at(1)).unwrap();
    handle_claim_rewards(&mut st, &b"addr0000".to_vec(), None).unwrap();
    assert!(check_inv(&st));

    // a recorded total that disagrees with the stored balances is detected
    st.state.total_balance = 999;
    assert!(!check_inv(&st));
    st.state.total_balance = 60;
    assert!(check_inv(&st));

    // so is a baseline below the outstanding entitlements
    st.state.prev_reward_balance = 0;
    st.state.global_index = Decimal::from_ratio(5, 1);
    assert!(!check_inv(&st));
}
