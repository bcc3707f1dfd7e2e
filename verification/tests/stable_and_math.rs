//! Stable-swap behaviour near the peg, invariant monotonicity, and the
//! fixed-point arithmetic helpers.

use ref_exchange::errors::ExchangeError;
use ref_exchange::exchange::Contract;
use ref_exchange::exchange::SwapAction;
use ref_exchange::math;
use ref_exchange::pool::AdminFees;
use ref_exchange::stable_swap::{compute_d, StableSwapPool};

const OWNER: u64 = 0;
const EXCHANGE: u64 = 0;

fn one_e18() -> u128 {
    1_000_000_000_000_000_000
}

#[test]
fn test_stable_swap_near_peg() {
    // a balanced three-token pool at amplification 100 and no fee returns
    // within a tenth of a percent of the input
    let mut c = Contract::new(OWNER, EXCHANGE, 0, 0).unwrap();
    let pid = c
        .add_stable_swap_pool(OWNER, &vec![1, 2, 3], &vec![18, 18, 18], 0, 100)
        .unwrap();
    let user: u64 = 7;
    c.register_tokens(user, &vec![1, 2, 3]).unwrap();
    c.deposit(user, 1, 2 * one_e18()).unwrap();
    c.deposit(user, 2, one_e18()).unwrap();
    c.deposit(user, 3, one_e18()).unwrap();
    c.add_stable_liquidity(user, pid, &vec![one_e18(), one_e18(), one_e18()], 1).unwrap();

    let amount_in = one_e18() / 10;
    let out = c
        .swap(
            &vec![SwapAction {
                pool_id: pid,
                token_in: 1,
                amount_in: Some(amount_in),
                token_out: 2,
                min_amount_out: 1,
            }],
            None,
            user,
        )
        .unwrap();
    assert!(out <= amount_in);
    assert!(out >= amount_in - amount_in / 1_000);
}

#[test]
fn test_stable_swap_d_never_shrinks() {
    // the invariant D grows (or stays) across a fee-charging swap
    let fees = AdminFees::new(0, EXCHANGE);
    let mut p = StableSwapPool::new(&vec![1, 2, 3], &vec![18, 18, 18], 100, 25).unwrap();
    p.add_stable_liquidity(9, &vec![one_e18(), one_e18(), one_e18()], 1, &fees).unwrap();
    let d0 = compute_d(&p.get_c_amounts(), 100).unwrap();
    p.swap(1, one_e18() / 10, 2, 1, &fees).unwrap();
    let d1 = compute_d(&p.get_c_amounts(), 100).unwrap();
    assert!(d1.hi > d0.hi || (d1.hi == d0.hi && d1.lo >= d0.lo));
}

#[test]
fn test_stable_balanced_remove_scales_d() {
    // removing half the shares of a balanced pool halves the invariant
    let fees = AdminFees::new(0, EXCHANGE);
    let mut p = StableSwapPool::new(&vec![1, 2], &vec![18, 18], 100, 0).unwrap();
    let minted =
        p.add_stable_liquidity(9, &vec![one_e18(), one_e18()], 1, &fees).unwrap();
    let d0 = compute_d(&p.get_c_amounts(), 100).unwrap();
    p.remove_liquidity(9, minted / 2, &vec![1, 1]).unwrap();
    let d1 = compute_d(&p.get_c_amounts(), 100).unwrap();
    assert_eq!(d0.hi, 0);
    assert_eq!(d1.hi, 0);
    assert_eq!(d1.lo, d0.lo - d0.lo / 2);
}

#[test]
fn test_stable_remove_by_tokens() {
    let fees = AdminFees::new(0, EXCHANGE);
    let mut p = StableSwapPool::new(&vec![1, 2], &vec![18, 18], 100, 25).unwrap();
    let minted =
        p.add_stable_liquidity(9, &vec![one_e18(), one_e18()], 1, &fees).unwrap();
    let burned = p
        .remove_liquidity_by_tokens(9, &vec![one_e18() / 10, 0], minted, &fees)
        .unwrap();
    assert!(burned > 0);
    assert!(burned <= minted);
    let amounts = p.get_amounts();
    assert_eq!(amounts[0], one_e18() - one_e18() / 10);
    assert_eq!(amounts[1], one_e18());
}

#[test]
fn test_stable_pool_rejects_bad_shapes() {
    let r = StableSwapPool::new(&vec![1], &vec![18], 100, 25);
    assert_eq!(r.err().unwrap(), ExchangeError::WrongTokenCount);
    let r = StableSwapPool::new(&vec![1, 2, 1], &vec![18, 18, 18], 100, 25);
    assert_eq!(r.err().unwrap(), ExchangeError::TokenDuplicates);
    let r = StableSwapPool::new(&vec![1, 2], &vec![18, 19], 100, 25);
    assert_eq!(r.err().unwrap(), ExchangeError::MathOverflow);
    let r = StableSwapPool::new(&vec![1, 2], &vec![18, 18], 0, 25);
    assert_eq!(r.err().unwrap(), ExchangeError::NotAllowed);
}

#[test]
fn test_stable_swap_with_decimals() {
    // a six-decimal token trades at par against an eighteen-decimal one
    let mut c = Contract::new(OWNER, EXCHANGE, 0, 0).unwrap();
    let pid = c
        .add_stable_swap_pool(OWNER, &vec![1, 2], &vec![6, 18], 0, 100)
        .unwrap();
    let user: u64 = 7;
    c.register_tokens(user, &vec![1, 2]).unwrap();
    c.deposit(user, 1, 2_000_000).unwrap();
    c.deposit(user, 2, one_e18()).unwrap();
    c.add_stable_liquidity(user, pid, &vec![1_000_000, one_e18()], 1).unwrap();
    let out = c
        .swap(
            &vec![SwapAction {
                pool_id: pid,
                token_in: 1,
                amount_in: Some(100_000),
                token_out: 2,
                min_amount_out: 1,
            }],
            None,
            user,
        )
        .unwrap();
    // output is in the eighteen-decimal token's own units
    let expected = 100_000u128 * 10u128.pow(12);
    assert!(out <= expected);
    assert!(out >= expected - expected / 1_000);
}

#[test]
fn test_stable_quote_matches_swap() {
    let mut c = Contract::new(OWNER, EXCHANGE, 0, 0).unwrap();
    let pid = c
        .add_stable_swap_pool(OWNER, &vec![1, 2], &vec![18, 18], 25, 100)
        .unwrap();
    let user: u64 = 7;
    c.register_tokens(user, &vec![1, 2]).unwrap();
    c.deposit(user, 1, 2 * one_e18()).unwrap();
    c.deposit(user, 2, one_e18()).unwrap();
    c.add_stable_liquidity(user, pid, &vec![one_e18(), one_e18()], 1).unwrap();
    let quote = c.get_return(pid, 1, one_e18() / 100, 2).unwrap();
    let out = c
        .swap(
            &vec![SwapAction {
                pool_id: pid,
                token_in: 1,
                amount_in: Some(one_e18() / 100),
                token_out: 2,
                min_amount_out: 1,
            }],
            None,
            user,
        )
        .unwrap();
    assert_eq!(out, quote);
}

#[test]
fn test_stable_pool_creation_is_owner_only() {
    let mut c = Contract::new(OWNER, EXCHANGE, 0, 0).unwrap();
    let r = c.add_stable_swap_pool(9, &vec![1, 2], &vec![18, 18], 25, 100);
    assert_eq!(r, Err(ExchangeError::NotAllowed));
}

#[test]
fn test_unknown_pool_is_reported() {
    let mut c = Contract::new(OWNER, EXCHANGE, 0, 0).unwrap();
    assert_eq!(c.get_pool_total_shares(0), Err(ExchangeError::UnknownPool));
    let r = c.swap(
        &vec![SwapAction {
            pool_id: 5,
            token_in: 1,
            amount_in: Some(10),
            token_out: 2,
            min_amount_out: 1,
        }],
        None,
        9,
    );
    assert_eq!(r, Err(ExchangeError::UnregisteredToken));
    c.register_tokens(9, &vec![1]).unwrap();
    c.deposit(9, 1, 100).unwrap();
    let r = c.swap(
        &vec![SwapAction {
            pool_id: 5,
            token_in: 1,
            amount_in: Some(10),
            token_out: 2,
            min_amount_out: 1,
        }],
        None,
        9,
    );
    assert_eq!(r, Err(ExchangeError::UnknownPool));
}

#[test]
fn test_stable_imbalanced_add_mints_admin_shares() {
    // an imbalanced deposit pays a fee; its admin portion becomes
    // exchange-owned shares
    let mut c = Contract::new(OWNER, EXCHANGE, 2000, 0).unwrap();
    let pid = c
        .add_stable_swap_pool(OWNER, &vec![1, 2], &vec![18, 18], 25, 100)
        .unwrap();
    let user: u64 = 7;
    c.register_tokens(user, &vec![1, 2]).unwrap();
    c.deposit(user, 1, 3 * one_e18()).unwrap();
    c.deposit(user, 2, one_e18()).unwrap();
    c.add_stable_liquidity(user, pid, &vec![one_e18(), one_e18()], 1).unwrap();
    assert_eq!(c.get_pool_shares(pid, EXCHANGE).unwrap(), 0);
    // a heavily one-sided deposit
    let minted = c.add_stable_liquidity(user, pid, &vec![2 * one_e18(), 0], 1).unwrap();
    assert!(minted > 0);
    let admin_shares = c.get_pool_shares(pid, EXCHANGE).unwrap();
    assert!(admin_shares > 0);
    assert_eq!(
        c.get_pool_total_shares(pid).unwrap(),
        c.get_pool_shares(pid, user).unwrap() + admin_shares
    );
}

#[test]
fn test_mul_div_floor_and_ceil() {
    assert_eq!(math::mul_div_floor(7, 9, 4), Some(15));
    assert_eq!(math::mul_div_ceil(7, 9, 4), Some(16));
    assert_eq!(math::mul_div_floor(10, 10, 5), Some(20));
    assert_eq!(math::mul_div_ceil(10, 10, 5), Some(20));
    assert_eq!(math::mul_div_floor(1, 1, 0), None);
    assert_eq!(math::mul_div_floor(u128::MAX, u128::MAX, 1), None);
    assert_eq!(math::mul_div_floor(u128::MAX, u128::MAX, u128::MAX), Some(u128::MAX));
}

#[test]
fn test_mul_wide_and_divmod() {
    let p = math::mul_wide(u128::MAX, u128::MAX);
    // (2^128 - 1)^2 = 2^256 - 2^129 + 1
    assert_eq!(p.hi, u128::MAX - 1);
    assert_eq!(p.lo, 1);
    let (q, r) = math::u256_divmod(p, math::u256_from(u128::MAX));
    assert_eq!(q.hi, 0);
    assert_eq!(q.lo, u128::MAX);
    assert_eq!(r.hi, 0);
    assert_eq!(r.lo, 0);
}

#[test]
fn test_isqrt() {
    assert_eq!(math::isqrt_u256(math::u256_from(0)), 0);
    assert_eq!(math::isqrt_u256(math::u256_from(1)), 1);
    assert_eq!(math::isqrt_u256(math::u256_from(99)), 9);
    assert_eq!(math::isqrt_u256(math::u256_from(100)), 10);
    let big = math::mul_wide(10u128.pow(24), 10u128.pow(24));
    assert_eq!(math::isqrt_u256(big), 10u128.pow(24));
}

#[test]
fn test_fee_part_and_pow10() {
    assert_eq!(math::fee_part(10_000, 25), 25);
    assert_eq!(math::fee_part(999, 25), 2);
    assert_eq!(math::fee_part(1_000_000, 0), 0);
    assert_eq!(math::pow10_u128(0), 1);
    assert_eq!(math::pow10_u128(18), 1_000_000_000_000_000_000);
}
