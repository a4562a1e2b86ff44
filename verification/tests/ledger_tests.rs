//! End-to-end tests of the ledger operations, driven through the public API.

use staking_rewards::claim::BlockInfo;
use staking_rewards::contract::{instantiate, query_config, query_state};
use staking_rewards::error::ContractError;
use staking_rewards::global::handle_update_global_index;
use staking_rewards::math::Decimal;
use staking_rewards::msg::ReceiveMsg;
use staking_rewards::state::{store_holder, Config, Holder, Ledger};
use staking_rewards::user::{
    calculate_decimal_rewards, get_decimals, handle_claim_rewards, handle_receive, handle_unbound,
    handle_withdraw_stake, query_holder,
};

const INIT_TIME: u64 = 1571797419;

fn default_init() -> Ledger {
    instantiate(
        Config {
            staked_token: b"lottery".to_vec(),
            reward_token: b"lota".to_vec(),
            unbonding_period: 1000,
            reward_cap: Some(100),
            accrual_period: Some(86400),
        },
        INIT_TIME,
    )
}

fn block_at(height: u64) -> BlockInfo {
    BlockInfo { height, time: INIT_TIME }
}

fn receive_stake(st: &mut Ledger, sender: &[u8], amount: u128) {
    handle_receive(st, &sender.to_vec(), amount, ReceiveMsg::BondStake).unwrap();
}

#[test]
fn proper_init() {
    let st = default_init();

    let config = query_config(&st);
    assert_eq!(config.staked_token, b"lottery".to_vec());
    assert_eq!(config.reward_token, b"lota".to_vec());
    assert_eq!(config.unbonding_period, 1000);
    assert_eq!(config.reward_cap, Some(100));
    assert_eq!(config.accrual_period, Some(86400));

    let state = query_state(&st);
    assert_eq!(state.global_index, Decimal::zero());
    assert_eq!(state.total_balance, 0);
    assert_eq!(state.prev_reward_balance, 0);
    assert_eq!(state.next_accrual_time, Some(INIT_TIME));
}

#[test]
fn update_global_index() {
    let mut st = default_init();

    // with nothing staked there is no denominator to distribute into
    let res = handle_update_global_index(&mut st, INIT_TIME, 100);
    match res {
        Err(ContractError::NoStakedAssets) => {}
        _ => panic!("DO NOT ENTER HERE"),
    }

    st.state.total_balance = 100;
    st.state.prev_reward_balance = 0;
    st.state.next_accrual_time = Some(0);

    // claimed_rewards = 100, total_balance = 100 -> global_index == 1
    handle_update_global_index(&mut st, INIT_TIME, 100).unwrap();
    let state = query_state(&st);
    assert_eq!(state.global_index, Decimal::one());
    assert_eq!(state.total_balance, 100);
    assert_eq!(state.prev_reward_balance, 100);
    assert_eq!(state.next_accrual_time, Some(86400));
}

#[test]
fn increase_balance() {
    let mut st = default_init();

    receive_stake(&mut st, b"addr0000", 100);
    let holder = query_holder(&st, &b"addr0000".to_vec());
    assert_eq!(holder.balance, 100);
    assert_eq!(holder.index, Decimal::zero());
    assert_eq!(holder.pending_rewards, Decimal::zero());

    // claimed_rewards = 100, total_balance = 100 -> global_index == 1
    handle_update_global_index(&mut st, INIT_TIME, 100).unwrap();

    receive_stake(&mut st, b"addr0000", 100);
    let holder = query_holder(&st, &b"addr0000".to_vec());
    assert_eq!(holder.balance, 200);
    assert_eq!(holder.index, Decimal::one());
    assert_eq!(holder.pending_rewards, Decimal::from_ratio(100, 1));
}

#[test]
fn increase_balance_with_decimals() {
    let mut st = default_init();

    receive_stake(&mut st, b"addr0000", 11);
    let holder = query_holder(&st, &b"addr0000".to_vec());
    assert_eq!(holder.balance, 11);
    assert_eq!(holder.index, Decimal::zero());
    assert_eq!(holder.pending_rewards, Decimal::zero());

    // the pool holds 100000 but the per-period cap admits only 100
    handle_update_global_index(&mut st, INIT_TIME, 100000).unwrap();

    receive_stake(&mut st, b"addr0000", 10);
    let holder = query_holder(&st, &b"addr0000".to_vec());
    let index = Decimal::from_ratio(100, 11).checked_mul(Decimal::one()).unwrap();
    let pending = Decimal::from_ratio(11, 1).checked_mul(index).unwrap();
    assert_eq!(holder.balance, 21);
    assert_eq!(holder.index, index);
    assert_eq!(holder.pending_rewards, pending);
}

#[test]
fn unbond_stake() {
    let mut st = default_init();

    // unbonding more than the balance reports the current balance
    let res = handle_unbound(&mut st, &b"addr0000".to_vec(), 100, &block_at(12345));
    match res {
        Err(ContractError::InsufficientBalance { balance }) => assert_eq!(balance, 0),
        _ => panic!("DO NOT ENTER HERE"),
    }

    receive_stake(&mut st, b"addr0000", 100);

    // claimed_rewards = 100, total_balance = 100 -> global_index == 1
    handle_update_global_index(&mut st, INIT_TIME, 100).unwrap();

    handle_unbound(&mut st, &b"addr0000".to_vec(), 100, &block_at(12345)).unwrap();
    let holder = query_holder(&st, &b"addr0000".to_vec());
    assert_eq!(holder.balance, 0);
    assert_eq!(holder.index, Decimal::one());
    assert_eq!(holder.pending_rewards, Decimal::from_ratio(100, 1));
}

#[test]
fn claim_rewards() {
    let mut st = default_init();

    receive_stake(&mut st, b"addr0000", 100);
    let holder = query_holder(&st, &b"addr0000".to_vec());
    assert_eq!(holder.balance, 100);
    assert_eq!(holder.index, Decimal::zero());
    assert_eq!(holder.pending_rewards, Decimal::zero());

    // claimed_rewards = 100, total_balance = 100 -> global_index == 1
    handle_update_global_index(&mut st, INIT_TIME, 100).unwrap();

    let msg = handle_claim_rewards(&mut st, &b"addr0000".to_vec(), None).unwrap();
    assert_eq!(msg.token, b"lota".to_vec());
    assert_eq!(msg.recipient, b"addr0000".to_vec());
    assert_eq!(msg.amount, 100);

    // a later accrual pays a named recipient
    let gate = st.state.next_accrual_time.unwrap();
    handle_update_global_index(&mut st, gate + 1, 100).unwrap();

    let msg =
        handle_claim_rewards(&mut st, &b"addr0000".to_vec(), Some(b"addr0001".to_vec())).unwrap();
    assert_eq!(msg.token, b"lota".to_vec());
    assert_eq!(msg.recipient, b"addr0001".to_vec());
    assert_eq!(msg.amount, 100);
}

#[test]
fn withdraw_stake() {
    let mut st = default_init();

    receive_stake(&mut st, b"addr0000", 100);
    let holder = query_holder(&st, &b"addr0000".to_vec());
    assert_eq!(holder.balance, 100);

    handle_update_global_index(&mut st, INIT_TIME, 100).unwrap();

    let msg = handle_claim_rewards(&mut st, &b"addr0000".to_vec(), None).unwrap();
    assert_eq!(msg.amount, 100);
    assert_eq!(msg.recipient, b"addr0000".to_vec());

    handle_unbound(&mut st, &b"addr0000".to_vec(), 100, &block_at(5)).unwrap();

    // withdrawing before the unbonding period has passed fails
    let res = handle_withdraw_stake(&mut st, &b"addr0000".to_vec(), &block_at(10), None);
    match res {
        Err(ContractError::NothingMatured) => {}
        _ => panic!("Unexpected error"),
    }

    // and succeeds afterwards
    let msg = handle_withdraw_stake(&mut st, &b"addr0000".to_vec(), &block_at(10000), None)
        .unwrap();
    assert_eq!(msg.token, b"lottery".to_vec());
    assert_eq!(msg.recipient, b"addr0000".to_vec());
    assert_eq!(msg.amount, 100);
}

#[test]
fn withdraw_stake_cap() {
    let mut st = default_init();

    receive_stake(&mut st, b"addr0000", 100);
    let holder = query_holder(&st, &b"addr0000".to_vec());
    assert_eq!(holder.balance, 100);

    handle_update_global_index(&mut st, INIT_TIME, 100).unwrap();

    let msg = handle_claim_rewards(&mut st, &b"addr0000".to_vec(), None).unwrap();
    assert_eq!(msg.amount, 100);

    handle_unbound(&mut st, &b"addr0000".to_vec(), 100, &block_at(5)).unwrap();

    // a cap below the matured claim admits nothing
    let res =
        handle_withdraw_stake(&mut st, &b"addr0000".to_vec(), &block_at(100000), Some(50));
    match res {
        Err(ContractError::NothingMatured) => {}
        _ => panic!("Unexpected error"),
    }

    // a cap above it admits the claim in full
    let msg =
        handle_withdraw_stake(&mut st, &b"addr0000".to_vec(), &block_at(100000), Some(150))
            .unwrap();
    assert_eq!(msg.token, b"lottery".to_vec());
    assert_eq!(msg.amount, 100);
}

#[test]
fn claim_rewards_with_decimals() {
    let mut st = default_init();

    receive_stake(&mut st, b"addr0000", 11);
    let holder = query_holder(&st, &b"addr0000".to_vec());
    assert_eq!(holder.balance, 11);
    assert_eq!(holder.index, Decimal::zero());
    assert_eq!(holder.pending_rewards, Decimal::zero());

    // the pool holds 99999 but the per-period cap admits only 100
    handle_update_global_index(&mut st, INIT_TIME, 99999).unwrap();

    let msg = handle_claim_rewards(&mut st, &b"addr0000".to_vec(), None).unwrap();
    assert_eq!(msg.token, b"lota".to_vec());
    assert_eq!(msg.recipient, b"addr0000".to_vec());
    assert_eq!(msg.amount, 99);

    let index = Decimal::from_ratio(100, 11).checked_mul(Decimal::one()).unwrap();
    let holder = query_holder(&st, &b"addr0000".to_vec());
    assert_eq!(holder.balance, 11);
    assert_eq!(holder.index, index);
    assert_eq!(
        holder.pending_rewards,
        Decimal::from_atomics(999_999_999_999_999_999)
    );

    let state = query_state(&st);
    assert_eq!(state.global_index, index);
    assert_eq!(state.total_balance, 11);
    assert_eq!(state.prev_reward_balance, 1);
    assert_eq!(state.next_accrual_time, Some(INIT_TIME + 86400));
}

#[test]
fn query_holders() {
    let mut st = default_init();

    receive_stake(&mut st, b"addr0000", 100);
    receive_stake(&mut st, b"addr0001", 200);
    receive_stake(&mut st, b"addr0002", 300);

    let all = staking_rewards::user::query_holders(&st, None, None);
    assert_eq!(all.holders.len(), 3);
    assert_eq!(all.holders[0].address, b"addr0000".to_vec());
    assert_eq!(all.holders[0].balance, 100);
    assert_eq!(all.holders[0].index, Decimal::zero());
    assert_eq!(all.holders[0].pending_rewards, Decimal::zero());
    assert_eq!(all.holders[1].address, b"addr0001".to_vec());
    assert_eq!(all.holders[1].balance, 200);
    assert_eq!(all.holders[2].address, b"addr0002".to_vec());
    assert_eq!(all.holders[2].balance, 300);

    // a limit cuts the page
    let page = staking_rewards::user::query_holders(&st, None, Some(1));
    assert_eq!(page.holders.len(), 1);
    assert_eq!(page.holders[0].address, b"addr0000".to_vec());
    assert_eq!(page.holders[0].balance, 100);

    // a cursor past the end yields an empty page
    let page = staking_rewards::user::query_holders(&st, Some(b"addr0002".to_vec()), None);
    assert_eq!(page.holders.len(), 0);

    // cursor and limit together
    let page = staking_rewards::user::query_holders(&st, Some(b"addr0000".to_vec()), Some(1));
    assert_eq!(page.holders.len(), 1);
    assert_eq!(page.holders[0].address, b"addr0001".to_vec());
    assert_eq!(page.holders[0].balance, 200);
}

#[test]
fn proper_prev_balance() {
    let mut st = default_init();

    let amount1: u128 = 8899999999988889;
    let amount2: u128 = 14487875351811111;
    let amount3: u128 = 1100000000000000;
    let rewards: u128 = 677101666827000000;
    let all_balance = amount1 + amount2 + amount3;

    let global_index = Decimal::from_ratio(rewards, all_balance);
    st.state.global_index = global_index;
    st.state.total_balance = all_balance;
    st.state.prev_reward_balance = rewards;
    st.state.next_accrual_time = Some(0);

    store_holder(
        &mut st,
        &b"addr0000".to_vec(),
        Holder { balance: amount1, index: Decimal::zero(), pending_rewards: Decimal::zero() },
    );
    store_holder(
        &mut st,
        &b"addr0001".to_vec(),
        Holder { balance: amount2, index: Decimal::zero(), pending_rewards: Decimal::zero() },
    );
    store_holder(
        &mut st,
        &b"addr0002".to_vec(),
        Holder { balance: amount3, index: Decimal::zero(), pending_rewards: Decimal::zero() },
    );

    handle_claim_rewards(&mut st, &b"addr0000".to_vec(), None).unwrap();
    handle_claim_rewards(&mut st, &b"addr0001".to_vec(), None).unwrap();
    handle_claim_rewards(&mut st, &b"addr0002".to_vec(), None).unwrap();

    let state = query_state(&st);
    assert_eq!(state.global_index, global_index);
    assert_eq!(state.total_balance, all_balance);
    assert_eq!(state.prev_reward_balance, 1);
    assert_eq!(state.next_accrual_time, Some(0));

    let holder = query_holder(&st, &b"addr0000".to_vec());
    assert_eq!(holder.balance, amount1);
    assert_eq!(holder.index, global_index);
    assert_eq!(holder.pending_rewards, Decimal::from_atomics(212_799_238_975_421_283));

    let holder = query_holder(&st, &b"addr0001".to_vec());
    assert_eq!(holder.balance, amount2);
    assert_eq!(holder.index, global_index);
    assert_eq!(holder.pending_rewards, Decimal::from_atomics(78_595_712_259_178_717));

    let holder = query_holder(&st, &b"addr0002".to_vec());
    assert_eq!(holder.balance, amount3);
    assert_eq!(holder.index, global_index);
    assert_eq!(holder.pending_rewards, Decimal::from_atomics(701_700_000_000_000_000));
}

#[test]
fn proper_calculate_rewards() {
    let global_index = Decimal::from_ratio(9, 100);
    let user_index = Decimal::zero();
    let user_balance: u128 = 1000;
    let reward = calculate_decimal_rewards(global_index, user_index, user_balance).unwrap();
    assert_eq!(reward, Decimal::from_ratio(90, 1));
}

#[test]
fn proper_get_decimals() {
    let global_index = Decimal::from_ratio(9999999, 100000000);
    let user_index = Decimal::zero();
    let user_balance: u128 = 10;
    let reward =
        get_decimals(calculate_decimal_rewards(global_index, user_index, user_balance).unwrap());
    assert_eq!(reward, Decimal::from_ratio(9999999, 10000000));
}
