//! End-to-end flows on the exchange: pool creation, deposits, swaps,
//! liquidity management and LP share transfers, with the exact outputs the
//! constant-product rule owes.

use ref_exchange::errors::ExchangeError;
use ref_exchange::exchange::{Contract, RunningState, SwapAction};

const OWNER: u64 = 0;
const EXCHANGE: u64 = 0;
const TOKEN1: u64 = 1;
const TOKEN2: u64 = 2;
const ACC3: u64 = 3;
const ACC4: u64 = 4;

fn yocto(n: u128) -> u128 {
    n * 10u128.pow(24)
}

/// A contract with a 0.25% two-token pool owned by ACC3, reserves
/// `a` of TOKEN1 and `b` of TOKEN2, and `extra` more of each deposited.
fn setup_pool(a: u128, b: u128, extra: u128) -> (Contract, u64) {
    let mut c = Contract::new(OWNER, EXCHANGE, 1600, 400).unwrap();
    let pid = c.add_simple_pool(&vec![TOKEN1, TOKEN2], 25).unwrap();
    c.register_tokens(ACC3, &vec![TOKEN1, TOKEN2]).unwrap();
    c.deposit(ACC3, TOKEN1, a + extra).unwrap();
    c.deposit(ACC3, TOKEN2, b + extra).unwrap();
    c.add_liquidity(ACC3, pid, &vec![a, b], None).unwrap();
    (c, pid)
}

#[test]
fn test_basics() {
    let (mut c, pid) = setup_pool(yocto(5), yocto(10), yocto(100));
    assert_eq!(c.get_deposit(ACC3, TOKEN1), yocto(100));
    assert_eq!(c.get_deposit(ACC3, TOKEN2), yocto(100));
    assert_eq!(c.get_pool_total_shares(pid).unwrap(), 10u128.pow(24));

    let expected_out = c.get_return(pid, TOKEN1, 10u128.pow(24), TOKEN2).unwrap();
    assert_eq!(expected_out, 1663192997082117548978741);

    let amount_out = c
        .swap(
            &vec![SwapAction {
                pool_id: pid,
                token_in: TOKEN1,
                amount_in: Some(10u128.pow(24)),
                token_out: TOKEN2,
                min_amount_out: 1,
            }],
            None,
            ACC3,
        )
        .unwrap();
    assert_eq!(amount_out, expected_out);
    assert_eq!(c.get_deposit(ACC3, TOKEN1), yocto(99));
    assert_eq!(c.get_deposit(ACC3, TOKEN2), yocto(100) + amount_out);

    // hand 1m shares to another account, then withdraw all of ACC3's
    c.register_lp(pid, ACC4).unwrap();
    c.transfer_shares(ACC3, pid, ACC4, 1_000_000).unwrap();
    let shares = c.get_pool_shares(pid, ACC3).unwrap();
    c.remove_liquidity(ACC3, pid, shares, &vec![1, 1]).unwrap();
    // exchange fee shares stay in the pool, plus the transferred million
    assert_eq!(
        c.get_pool_total_shares(pid).unwrap(),
        33336806279123620258 + 1_000_000
    );
}

#[test]
fn test_liquidity() {
    let mut c = Contract::new(OWNER, EXCHANGE, 1600, 400).unwrap();
    c.register_tokens(ACC3, &vec![TOKEN1, TOKEN2]).unwrap();
    c.deposit(ACC3, TOKEN1, yocto(100)).unwrap();
    c.deposit(ACC3, TOKEN2, yocto(100)).unwrap();
    let id = c.add_simple_pool(&vec![TOKEN1, TOKEN2], 25).unwrap();
    c.add_liquidity(ACC3, id, &vec![yocto(50), yocto(10)], None).unwrap();
    c.add_liquidity(ACC3, id, &vec![yocto(50), yocto(50)], None).unwrap();
    c.remove_liquidity(ACC3, id, yocto(1), &vec![1, 1]).unwrap();

    // everything the user does not hold is in the pool: nothing leaked
    let amounts = c.get_pool_amounts(id).unwrap();
    let deposit1 = c.get_deposit(ACC3, TOKEN1);
    let deposit2 = c.get_deposit(ACC3, TOKEN2);
    assert_eq!(amounts[0] + deposit1, yocto(100));
    assert_eq!(amounts[1] + deposit2, yocto(100));
}

#[test]
fn test_deny_duplicate_tokens_pool() {
    let mut c = Contract::new(OWNER, EXCHANGE, 1600, 400).unwrap();
    let r = c.add_simple_pool(&vec![TOKEN1, TOKEN1], 25);
    assert_eq!(r, Err(ExchangeError::TokenDuplicates));
}

#[test]
fn test_deny_single_token_pool() {
    let mut c = Contract::new(OWNER, EXCHANGE, 1600, 400).unwrap();
    let r = c.add_simple_pool(&vec![TOKEN1], 25);
    assert_eq!(r, Err(ExchangeError::WrongTokenCount));
}

#[test]
fn test_deny_too_many_tokens_pool() {
    let mut c = Contract::new(OWNER, EXCHANGE, 1600, 400).unwrap();
    let r = c.add_simple_pool(&vec![TOKEN1, TOKEN2, 7], 25);
    assert_eq!(r, Err(ExchangeError::WrongTokenCount));
}

#[test]
fn test_deny_min_amount() {
    let (mut c, pid) = setup_pool(yocto(1), yocto(1), 0);
    let user: u64 = 77;
    c.register_tokens(user, &vec![TOKEN1, TOKEN2]).unwrap();
    c.deposit(user, TOKEN1, 1_000_000).unwrap();
    let r = c.swap(
        &vec![SwapAction {
            pool_id: pid,
            token_in: TOKEN1,
            amount_in: Some(1_000_000),
            token_out: TOKEN2,
            min_amount_out: 1_000_000,
        }],
        None,
        user,
    );
    assert_eq!(r, Err(ExchangeError::InsufficientOutput));
    // slippage failure left the user's balance untouched
    assert_eq!(c.get_deposit(user, TOKEN1), 1_000_000);
}

#[test]
fn test_roundtrip_swap() {
    let (mut c, pid) = setup_pool(yocto(5), yocto(10), 0);
    let user: u64 = 77;
    c.register_tokens(user, &vec![TOKEN1, TOKEN2]).unwrap();
    c.deposit(user, TOKEN1, 1_000_000).unwrap();
    c.execute_actions(
        user,
        None,
        &vec![
            SwapAction {
                pool_id: pid,
                token_in: TOKEN1,
                amount_in: Some(1_000),
                token_out: TOKEN2,
                min_amount_out: 1,
            },
            SwapAction {
                pool_id: pid,
                token_in: TOKEN2,
                amount_in: None,
                token_out: TOKEN1,
                min_amount_out: 1,
            },
        ],
    )
    .unwrap();
    // the round trip returns everything except two 0.25% fees, floored
    assert_eq!(c.get_deposit(user, TOKEN1), 1_000_000 - 6);
}

#[test]
fn test_lpt_transfer() {
    let mut c = Contract::new(OWNER, EXCHANGE, 1600, 400).unwrap();
    c.register_tokens(ACC3, &vec![TOKEN1, TOKEN2]).unwrap();
    c.deposit(ACC3, TOKEN1, yocto(100)).unwrap();
    c.deposit(ACC3, TOKEN2, yocto(100)).unwrap();
    let id = c.add_simple_pool(&vec![TOKEN1, TOKEN2], 25).unwrap();
    c.add_liquidity(ACC3, id, &vec![yocto(50), yocto(10)], None).unwrap();
    assert_eq!(c.get_pool_shares(id, ACC3).unwrap(), yocto(1));
    assert_eq!(c.get_pool_total_shares(id).unwrap(), yocto(1));
    c.add_liquidity(ACC3, id, &vec![yocto(50), yocto(50)], None).unwrap();
    assert_eq!(c.get_pool_shares(id, ACC3).unwrap(), yocto(2));
    assert_eq!(c.get_pool_total_shares(id).unwrap(), yocto(2));

    c.register_lp(id, ACC4).unwrap();
    c.transfer_shares(ACC3, id, ACC4, yocto(1)).unwrap();
    assert_eq!(c.get_pool_shares(id, ACC3).unwrap(), yocto(1));
    assert_eq!(c.get_pool_shares(id, ACC4).unwrap(), yocto(1));
    assert_eq!(c.get_pool_total_shares(id).unwrap(), yocto(2));

    c.remove_liquidity(ACC3, id, yocto(1) * 6 / 10, &vec![1, 1]).unwrap();
    assert_eq!(c.get_pool_shares(id, ACC3).unwrap(), yocto(1) * 4 / 10);
    assert_eq!(c.get_pool_total_shares(id).unwrap(), yocto(1) * 14 / 10);

    // a full removal keeps the LP registered
    c.register_tokens(ACC4, &vec![TOKEN1, TOKEN2]).unwrap();
    c.remove_liquidity(ACC4, id, yocto(1), &vec![1, 1]).unwrap();
    assert_eq!(c.get_pool_shares(id, ACC4).unwrap(), 0);
    assert_eq!(c.get_pool_total_shares(id).unwrap(), yocto(1) * 4 / 10);
    let r = c.register_lp(id, ACC4);
    assert_eq!(r, Err(ExchangeError::LpAlreadyRegistered));
}

#[test]
fn test_lpt_transfer_self() {
    let mut c = Contract::new(OWNER, EXCHANGE, 1600, 400).unwrap();
    c.register_tokens(ACC3, &vec![TOKEN1, TOKEN2]).unwrap();
    c.deposit(ACC3, TOKEN1, yocto(100)).unwrap();
    c.deposit(ACC3, TOKEN2, yocto(100)).unwrap();
    let id = c.add_simple_pool(&vec![TOKEN1, TOKEN2], 25).unwrap();
    c.add_liquidity(ACC3, id, &vec![yocto(50), yocto(10)], None).unwrap();
    assert_eq!(c.get_pool_shares(id, ACC3).unwrap(), yocto(1));
    let r = c.transfer_shares(ACC3, id, ACC3, yocto(1));
    assert_eq!(r, Err(ExchangeError::TransferToSelf));
}

#[test]
fn test_fail_swap_no_actions() {
    let mut c = Contract::new(OWNER, EXCHANGE, 1600, 400).unwrap();
    let r = c.swap(&vec![], None, ACC3);
    assert_eq!(r, Err(ExchangeError::NoAmount));
}

#[test]
fn test_deny_send_malicious_token() {
    // a deposit of a token the account never registered is refused
    let mut c = Contract::new(OWNER, EXCHANGE, 1600, 400).unwrap();
    let user: u64 = 9;
    c.register_tokens(user, &vec![TOKEN1]).unwrap();
    let r = c.deposit(user, TOKEN2, 1_000);
    assert_eq!(r, Err(ExchangeError::UnregisteredToken));
}

#[test]
fn test_send_user_specific_token() {
    // a user may register a token of their own, use it, and drop it
    let mut c = Contract::new(OWNER, EXCHANGE, 1600, 400).unwrap();
    let user: u64 = 9;
    let custom: u64 = 1234;
    c.register_tokens(user, &vec![custom]).unwrap();
    c.deposit(user, custom, 1_000).unwrap();
    let r = c.unregister_tokens(user, &vec![custom]);
    assert_eq!(r, Err(ExchangeError::InsufficientBalance));
    c.withdraw(user, custom, 1_000).unwrap();
    c.unregister_tokens(user, &vec![custom]).unwrap();
    assert_eq!(c.get_deposit(user, custom), 0);
}

#[test]
fn test_pause_blocks_mutations() {
    let mut c = Contract::new(OWNER, EXCHANGE, 1600, 400).unwrap();
    assert_eq!(c.set_state(ACC3, RunningState::Paused), Err(ExchangeError::NotAllowed));
    c.set_state(OWNER, RunningState::Paused).unwrap();
    assert_eq!(c.add_simple_pool(&vec![TOKEN1, TOKEN2], 25), Err(ExchangeError::Paused));
    assert_eq!(c.deposit(ACC3, TOKEN1, 1), Err(ExchangeError::Paused));
    c.set_state(OWNER, RunningState::Running).unwrap();
    assert_eq!(RunningState::Running.as_str(), "Running");
    assert_eq!(RunningState::Paused.as_str(), "Paused");
}

#[test]
fn test_swap_conserves_value() {
    // total of each token over ledger and pool never changes in a swap
    let (mut c, pid) = setup_pool(yocto(5), yocto(10), yocto(1));
    let total1 = c.get_deposit(ACC3, TOKEN1) + c.get_pool_amounts(pid).unwrap()[0];
    let total2 = c.get_deposit(ACC3, TOKEN2) + c.get_pool_amounts(pid).unwrap()[1];
    c.swap(
        &vec![SwapAction {
            pool_id: pid,
            token_in: TOKEN1,
            amount_in: Some(yocto(1)),
            token_out: TOKEN2,
            min_amount_out: 1,
        }],
        None,
        ACC3,
    )
    .unwrap();
    assert_eq!(c.get_deposit(ACC3, TOKEN1) + c.get_pool_amounts(pid).unwrap()[0], total1);
    assert_eq!(c.get_deposit(ACC3, TOKEN2) + c.get_pool_amounts(pid).unwrap()[1], total2);
}

#[test]
fn test_swap_grows_reserve_product() {
    // the constant product never shrinks across a swap
    let (mut c, pid) = setup_pool(1_000_000, 1_000_000, 10_000);
    let before = c.get_pool_amounts(pid).unwrap();
    c.swap(
        &vec![SwapAction {
            pool_id: pid,
            token_in: TOKEN1,
            amount_in: Some(10_000),
            token_out: TOKEN2,
            min_amount_out: 1,
        }],
        None,
        ACC3,
    )
    .unwrap();
    let after = c.get_pool_amounts(pid).unwrap();
    assert!(after[0] * after[1] >= before[0] * before[1]);
}

#[test]
fn test_referral_cut_comes_out_of_exchange_mint() {
    // a registered referral takes its rate's cut of the admin mint; the
    // total minted matches the referral-free run
    let (mut c1, p1) = setup_pool(yocto(5), yocto(10), yocto(10));
    let (mut c2, p2) = setup_pool(yocto(5), yocto(10), yocto(10));
    let referral: u64 = 55;
    c2.register_lp(p2, referral).unwrap();
    let action = |pid: u64| SwapAction {
        pool_id: pid,
        token_in: TOKEN1,
        amount_in: Some(yocto(1)),
        token_out: TOKEN2,
        min_amount_out: 1,
    };
    c1.swap(&vec![action(p1)], None, ACC3).unwrap();
    c2.swap(&vec![action(p2)], Some(referral), ACC3).unwrap();
    let minted_total_1 =
        c1.get_pool_total_shares(p1).unwrap() - 10u128.pow(24);
    let minted_total_2 =
        c2.get_pool_total_shares(p2).unwrap() - 10u128.pow(24);
    assert_eq!(minted_total_1, minted_total_2);
    let referral_cut = c2.get_pool_shares(p2, referral).unwrap();
    assert_eq!(referral_cut, minted_total_2 * 400 / 10_000);
    assert_eq!(
        c2.get_pool_shares(p2, EXCHANGE).unwrap(),
        minted_total_2 - referral_cut
    );
    // without a registered referral the whole mint stays with the exchange
    assert_eq!(c1.get_pool_shares(p1, EXCHANGE).unwrap(), minted_total_1);
}

#[test]
fn test_remove_pays_floored_entitlement() {
    // a burn pays exactly floor(shares * reserve / supply) per token
    let (mut c, pid) = setup_pool(1_000_003, 2_000_007, 0);
    let supply = c.get_pool_total_shares(pid).unwrap();
    let before = c.get_pool_amounts(pid).unwrap();
    let shares = supply / 3;
    let deposit1 = c.get_deposit(ACC3, TOKEN1);
    let deposit2 = c.get_deposit(ACC3, TOKEN2);
    c.remove_liquidity(ACC3, pid, shares, &vec![1, 1]).unwrap();
    let paid1 = c.get_deposit(ACC3, TOKEN1) - deposit1;
    let paid2 = c.get_deposit(ACC3, TOKEN2) - deposit2;
    assert_eq!(paid1, shares * before[0] / supply);
    assert_eq!(paid2, shares * before[1] / supply);
    assert!(paid1 <= before[0] && paid2 <= before[1]);
}
