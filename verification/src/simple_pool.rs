//! The constant-product pool of exactly two tokens.
//!
//! A swap of `dx` of the token at index `i` against the token at index `o`
//! pays out `dy = (dx * (FEE_DIVISOR - fee) * y) / (x * FEE_DIVISOR
//! + dx * (FEE_DIVISOR - fee))`, rounded down, so the product of the
//! reserves never decreases.  The implicit fee stays in the pool; the
//! exchange (and a registered referral) are paid by minting LP shares out
//! of the measured growth of `sqrt(x * y)`.

use vstd::prelude::*;
use vstd::arithmetic::mul::*;
use vstd::arithmetic::div_mod::*;
use crate::errors::ExchangeError;
use crate::math::{
    pow128, pow256, mul_wide, mul_div_ceil, mul_div_floor, u256_from, u256_checked_add,
    u256_checked_mul, u256_divmod, u256_as_u128, isqrt_u256, FEE_DIVISOR, U256,
};
use crate::pool::AdminFees;
use crate::table::{
    lemma_sum_elem_le, lemma_sum_push, lemma_sum_two_elems, lemma_sum_update, sum_vals, Table,
};

verus! {

/// LP shares minted to the very first liquidity provider.
pub const INIT_SHARES_SUPPLY: u128 = 1_000_000_000_000_000_000_000_000;

/// A constant-product pool of two tokens.
pub struct SimplePool {
    token_ids: Vec<u64>,
    amounts: Vec<u128>,
    total_fee: u32,
    shares: Table<u128>,
    shares_total_supply: u128,
}

impl SimplePool {
    /// The pool's two token ids, in order.
    pub closed spec fn spec_tokens(self) -> Seq<u64> {
        self.token_ids@
    }

    /// The reserves, aligned with the token list.
    pub closed spec fn spec_amounts(self) -> Seq<u128> {
        self.amounts@
    }

    /// The swap fee in basis points.
    pub closed spec fn spec_fee(self) -> int {
        self.total_fee as int
    }

    /// The total LP share supply.
    pub closed spec fn spec_total_shares(self) -> int {
        self.shares_total_supply as int
    }

    /// Whether the account holds an LP share record.
    pub closed spec fn lp_registered(self, account: u64) -> bool {
        self.shares.has(account)
    }

    /// The account's LP share balance; no record counts as zero.
    pub closed spec fn share_of(self, account: u64) -> int {
        if self.shares.has(account) {
            self.shares.spec_get(account) as int
        } else {
            0
        }
    }

    /// Well-formed: two distinct tokens, aligned reserves, a fee below the
    /// divisor, share records that add up to the supply, and live reserves
    /// whenever shares are outstanding.
    pub closed spec fn wf(self) -> bool {
        &&& self.token_ids@.len() == 2
        &&& self.amounts@.len() == 2
        &&& self.token_ids@[0] != self.token_ids@[1]
        &&& self.total_fee < FEE_DIVISOR
        &&& self.shares.wf()
        &&& sum_vals(self.shares.vals_seq()) == self.shares_total_supply
        &&& (self.shares_total_supply > 0 ==> self.amounts@[0] > 0 && self.amounts@[1] > 0)
    }

    /// The shape facts a well-formed pool guarantees.
    pub proof fn lemma_wf(self)
        requires
            self.wf(),
        ensures
            self.spec_tokens().len() == 2,
            self.spec_amounts().len() == 2,
            self.spec_tokens()[0] != self.spec_tokens()[1],
            0 <= self.spec_fee() < FEE_DIVISOR,
            0 <= self.spec_total_shares(),
            self.spec_total_shares() > 0 ==> self.spec_amounts()[0] > 0 && self.spec_amounts()[1]
                > 0,
    {
    }

    /// The index of a token the pool holds.
    pub open spec fn tok_idx(self, token: u64) -> int {
        if self.spec_tokens()[0] == token {
            0
        } else {
            1
        }
    }

    /// Whether the pool holds the token.
    pub open spec fn has_token(self, token: u64) -> bool {
        self.spec_tokens()[0] == token || self.spec_tokens()[1] == token
    }

    /// A fresh pool.  The token list must hold exactly two distinct tokens
    /// and the fee must stay below the divisor.
    pub fn new(tokens: &Vec<u64>, total_fee: u32) -> (r: Result<SimplePool, ExchangeError>)
        ensures
            match r {
                Ok(p) => {
                    &&& tokens@.len() == 2
                    &&& tokens@[0] != tokens@[1]
                    &&& total_fee < FEE_DIVISOR
                    &&& p.wf()
                    &&& p.spec_tokens() == tokens@
                    &&& p.spec_amounts() =~= seq![0u128, 0u128]
                    &&& p.spec_fee() == total_fee
                    &&& p.spec_total_shares() == 0
                    &&& forall|a: u64| !p.lp_registered(a) && p.share_of(a) == 0
                },
                Err(e) => {
                    &&& (e == ExchangeError::WrongTokenCount <==> tokens@.len() != 2)
                    &&& (e == ExchangeError::TokenDuplicates <==> tokens@.len() == 2 && tokens@[0]
                        == tokens@[1])
                    &&& (e == ExchangeError::NotAllowed <==> tokens@.len() == 2 && tokens@[0]
                        != tokens@[1] && total_fee >= FEE_DIVISOR)
                    &&& (e == ExchangeError::WrongTokenCount || e == ExchangeError::TokenDuplicates
                        || e == ExchangeError::NotAllowed)
                },
            },
    {
        if tokens.len() != 2 {
            return Err(ExchangeError::WrongTokenCount);
        }
        if tokens[0] == tokens[1] {
            return Err(ExchangeError::TokenDuplicates);
        }
        if total_fee >= FEE_DIVISOR {
            return Err(ExchangeError::NotAllowed);
        }
        let mut token_ids: Vec<u64> = Vec::new();
        token_ids.push(tokens[0]);
        token_ids.push(tokens[1]);
        let mut amounts: Vec<u128> = Vec::new();
        amounts.push(0);
        amounts.push(0);
        let p = SimplePool {
            token_ids,
            amounts,
            total_fee,
            shares: Table::new(),
            shares_total_supply: 0,
        };
        proof {
            assert(p.spec_tokens() =~= tokens@);
        }
        Ok(p)
    }

    /// The pool's token list, as a fresh vector.
    pub fn tokens(&self) -> (r: Vec<u64>)
        requires
            self.wf(),
        ensures
            r@ == self.spec_tokens(),
    {
        let mut r: Vec<u64> = Vec::new();
        r.push(self.token_ids[0]);
        r.push(self.token_ids[1]);
        proof {
            assert(r@ =~= self.spec_tokens());
        }
        r
    }

    /// The reserves, as a fresh vector.
    pub fn get_amounts(&self) -> (r: Vec<u128>)
        requires
            self.wf(),
        ensures
            r@ == self.spec_amounts(),
    {
        let mut r: Vec<u128> = Vec::new();
        r.push(self.amounts[0]);
        r.push(self.amounts[1]);
        proof {
            assert(r@ =~= self.spec_amounts());
        }
        r
    }

    /// The total LP share supply.
    pub fn share_total_supply(&self) -> (r: u128)
        ensures
            r == self.spec_total_shares(),
    {
        self.shares_total_supply
    }

    /// The swap fee in basis points.
    pub fn get_fee(&self) -> (r: u32)
        ensures
            r == self.spec_fee(),
    {
        self.total_fee
    }

    /// The account's LP share balance.
    pub fn share_balance_of(&self, account: u64) -> (r: u128)
        requires
            self.wf(),
        ensures
            r == self.share_of(account),
    {
        match self.shares.get(account) {
            Some(b) => *b,
            None => 0,
        }
    }

    /// An independent copy with the same model.
    pub fn duplicate(&self) -> (r: SimplePool)
        requires
            self.wf(),
        ensures
            r.wf(),
            r.spec_tokens() == self.spec_tokens(),
            r.spec_amounts() == self.spec_amounts(),
            r.spec_fee() == self.spec_fee(),
            r.spec_total_shares() == self.spec_total_shares(),
            forall|a: u64| r.share_of(a) == self.share_of(a),
            forall|a: u64| r.lp_registered(a) == self.lp_registered(a),
    {
        SimplePool {
            token_ids: self.tokens(),
            amounts: self.get_amounts(),
            total_fee: self.total_fee,
            shares: self.shares.duplicate(),
            shares_total_supply: self.shares_total_supply,
        }
    }

    /// Opens an empty LP share record; fails when one already exists.
    pub fn share_register(&mut self, account_id: u64) -> (r: Result<(), ExchangeError>)
        requires
            old(self).wf(),
        ensures
            final(self).wf(),
            match r {
                Ok(()) => {
                    &&& !old(self).lp_registered(account_id)
                    &&& final(self).lp_registered(account_id)
                    &&& forall|a: u64|
                        a != account_id ==> final(self).lp_registered(a) == old(self).lp_registered(a)
                    &&& forall|a: u64| final(self).share_of(a) == old(self).share_of(a)
                    &&& final(self).spec_tokens() == old(self).spec_tokens()
                    &&& final(self).spec_amounts() == old(self).spec_amounts()
                    &&& final(self).spec_fee() == old(self).spec_fee()
                    &&& final(self).spec_total_shares() == old(self).spec_total_shares()
                },
                Err(e) => {
                    &&& *final(self) == *old(self)
                    &&& e == ExchangeError::LpAlreadyRegistered
                    &&& old(self).lp_registered(account_id)
                },
            },
    {
        if self.shares.contains_key(account_id) {
            return Err(ExchangeError::LpAlreadyRegistered);
        }
        self.shares.insert(account_id, 0);
        proof {
            lemma_sum_push(old(self).shares.vals_seq(), 0);
            assert forall|a: u64| final(self).share_of(a) == old(self).share_of(a) && (a
                != account_id ==> final(self).lp_registered(a) == old(self).lp_registered(a)) by {
                if a != account_id {
                    crate::table::lemma_insert_other(old(self).shares, self.shares, account_id, 0, a);
                } else {
                    self.shares.lemma_idx_of(a);
                }
            }
        }
        Ok(())
    }

    /// Mints LP shares to an account, opening its record if needed.
    /// Minting nothing changes nothing.
    fn mint_shares(&mut self, account: u64, amount: u128) -> (r: Result<(), ExchangeError>)
        requires
            old(self).wf(),
            amount > 0 ==> old(self).spec_amounts()[0] > 0 && old(self).spec_amounts()[1] > 0,
        ensures
            final(self).wf(),
            final(self).spec_tokens() == old(self).spec_tokens(),
            final(self).spec_amounts() == old(self).spec_amounts(),
            final(self).spec_fee() == old(self).spec_fee(),
            match r {
                Ok(()) => {
                    &&& old(self).spec_total_shares() + amount < pow128()
                    &&& final(self).spec_total_shares() == old(self).spec_total_shares() + amount
                    &&& final(self).share_of(account) == old(self).share_of(account) + amount
                    &&& forall|a: u64|
                        a != account ==> final(self).share_of(a) == old(self).share_of(a)
                    &&& forall|a: u64|
                        final(self).lp_registered(a) == (old(self).lp_registered(a) || (a
                            == account && amount > 0))
                },
                Err(e) => {
                    &&& *final(self) == *old(self)
                    &&& e == ExchangeError::MathOverflow
                    &&& old(self).spec_total_shares() + amount >= pow128()
                },
            },
    {
        if amount == 0 {
            return Ok(());
        }
        match self.shares_total_supply.checked_add(amount) {
            None => Err(ExchangeError::MathOverflow),
            Some(new_supply) => {
                let bal = self.share_balance_of(account);
                proof {
                    if old(self).shares.has(account) {
                        old(self).shares.lemma_idx_of(account);
                        lemma_sum_elem_le(
                            old(self).shares.vals_seq(),
                            old(self).shares.idx_of(account),
                        );
                    }
                }
                self.shares.insert(account, bal + amount);
                self.shares_total_supply = new_supply;
                proof {
                    if old(self).shares.has(account) {
                        lemma_sum_update(
                            old(self).shares.vals_seq(),
                            old(self).shares.idx_of(account),
                            (bal + amount) as u128,
                        );
                    } else {
                        lemma_sum_push(old(self).shares.vals_seq(), (bal + amount) as u128);
                    }
                    assert forall|a: u64| a != account implies final(self).share_of(a) == old(self).share_of(a) && final(self).lp_registered(a) == old(self).lp_registered(
                        a,
                    ) by {
                        crate::table::lemma_insert_other(
                            old(self).shares,
                            self.shares,
                            account,
                            (bal + amount) as u128,
                            a,
                        );
                    }
                }
                Ok(())
            },
        }
    }

    /// Moves LP shares between two distinct registered accounts.
    pub fn share_transfer(&mut self, sender: u64, receiver: u64, amount: u128) -> (r: Result<
        (),
        ExchangeError,
    >)
        requires
            old(self).wf(),
        ensures
            final(self).wf(),
            final(self).spec_tokens() == old(self).spec_tokens(),
            final(self).spec_amounts() == old(self).spec_amounts(),
            final(self).spec_fee() == old(self).spec_fee(),
            final(self).spec_total_shares() == old(self).spec_total_shares(),
            match r {
                Ok(()) => {
                    &&& sender != receiver
                    &&& amount <= old(self).share_of(sender)
                    &&& old(self).lp_registered(sender)
                    &&& old(self).lp_registered(receiver)
                    &&& final(self).share_of(sender) == old(self).share_of(sender) - amount
                    &&& final(self).share_of(receiver) == old(self).share_of(receiver) + amount
                    &&& forall|a: u64|
                        a != sender && a != receiver ==> final(self).share_of(a) == old(self).share_of(a)
                    &&& forall|a: u64|
                        final(self).lp_registered(a) == old(self).lp_registered(a)
                },
                Err(e) => {
                    &&& *final(self) == *old(self)
                    &&& (e == ExchangeError::TransferToSelf <==> sender == receiver)
                    &&& (e == ExchangeError::InsufficientLpBalance <==> sender != receiver && (
                    !old(self).lp_registered(sender) || amount > old(self).share_of(sender)))
                    &&& (e == ExchangeError::UnregisteredToken <==> sender != receiver && old(self).lp_registered(sender) && amount <= old(self).share_of(sender) && !old(self).lp_registered(receiver))
                    &&& (e == ExchangeError::TransferToSelf || e
                        == ExchangeError::InsufficientLpBalance || e
                        == ExchangeError::UnregisteredToken)
                },
            },
    {
        if sender == receiver {
            return Err(ExchangeError::TransferToSelf);
        }
        if !self.shares.contains_key(sender) {
            return Err(ExchangeError::InsufficientLpBalance);
        }
        let sender_bal = self.share_balance_of(sender);
        if amount > sender_bal {
            return Err(ExchangeError::InsufficientLpBalance);
        }
        if !self.shares.contains_key(receiver) {
            return Err(ExchangeError::UnregisteredToken);
        }
        let receiver_bal = self.share_balance_of(receiver);
        proof {
            old(self).shares.lemma_idx_of(sender);
            old(self).shares.lemma_idx_of(receiver);
            lemma_sum_two_elems(
                old(self).shares.vals_seq(),
                old(self).shares.idx_of(sender),
                old(self).shares.idx_of(receiver),
            );
        }
        let ghost mid_target = *old(self);
        self.shares.insert(sender, sender_bal - amount);
        let ghost mid = *self;
        self.shares.insert(receiver, receiver_bal + amount);
        proof {
            old(self).shares.lemma_idx_of(sender);
            lemma_sum_update(
                old(self).shares.vals_seq(),
                old(self).shares.idx_of(sender),
                (sender_bal - amount) as u128,
            );
            // receiver's row is unchanged by the sender update
            crate::table::lemma_insert_other(
                old(self).shares,
                mid.shares,
                sender,
                (sender_bal - amount) as u128,
                receiver,
            );
            mid.shares.lemma_idx_of(receiver);
            lemma_sum_update(
                mid.shares.vals_seq(),
                mid.shares.idx_of(receiver),
                (receiver_bal + amount) as u128,
            );
            crate::table::lemma_insert_other(
                mid.shares,
                self.shares,
                receiver,
                (receiver_bal + amount) as u128,
                sender,
            );
            assert forall|a: u64| a != sender && a != receiver implies final(self).share_of(a)
                == old(self).share_of(a) && final(self).lp_registered(a) == old(self).lp_registered(a) by {
                crate::table::lemma_insert_other(
                    old(self).shares,
                    mid.shares,
                    sender,
                    (sender_bal - amount) as u128,
                    a,
                );
                crate::table::lemma_insert_other(
                    mid.shares,
                    self.shares,
                    receiver,
                    (receiver_bal + amount) as u128,
                    a,
                );
            }
        }
        Ok(())
    }
}

/// The gross swap output: `(dx * (FEE_DIVISOR - fee) * y) / (x * FEE_DIVISOR
/// + dx * (FEE_DIVISOR - fee))`, rounded down.
pub open spec fn spec_swap_out(x: int, y: int, dx: int, fee: int) -> int {
    let aif = dx * (FEE_DIVISOR - fee);
    (aif * y) / (x * FEE_DIVISOR + aif)
}

/// The integer square root, as the unique `s` with `s^2 <= v < (s+1)^2`.
pub open spec fn sqrt_floor(v: int) -> int {
    choose|s: int| 0 <= s && #[trigger] (s * s) <= v && v < (s + 1) * (s + 1)
}

/// Any witness of the square-root bounds is the integer square root.
pub proof fn lemma_sqrt_floor_is(v: int, s: int)
    requires
        0 <= s,
        s * s <= v,
        v < (s + 1) * (s + 1),
    ensures
        sqrt_floor(v) == s,
{
    assert(0 <= s && s * s <= v && v < (s + 1) * (s + 1));
    let c = sqrt_floor(v);
    assert(0 <= c && c * c <= v && v < (c + 1) * (c + 1));
    if c < s {
        assert((c + 1) * (c + 1) <= s * s) by (nonlinear_arith)
            requires
                0 <= c,
                c + 1 <= s,
        {
        }
    }
    if s < c {
        assert((s + 1) * (s + 1) <= c * c) by (nonlinear_arith)
            requires
                0 <= s,
                s + 1 <= c,
        {
        }
    }
}

/// Larger values have no smaller integer square root.
pub proof fn lemma_sqrt_bounds_monotone(s1: int, v1: int, s2: int, v2: int)
    requires
        0 <= s1,
        s1 * s1 <= v1,
        v1 < (s1 + 1) * (s1 + 1),
        0 <= s2,
        s2 * s2 <= v2,
        v2 < (s2 + 1) * (s2 + 1),
        v1 <= v2,
    ensures
        s1 <= s2,
{
    if s2 < s1 {
        assert((s2 + 1) * (s2 + 1) <= s1 * s1) by (nonlinear_arith)
            requires
                0 <= s2,
                s2 + 1 <= s1,
        {
        }
    }
}

/// Shares minted from invariant growth `diff` at post-swap invariant
/// `new_inv`: `(diff * ts) / ((new_inv * FEE_DIVISOR) / fee_bp)`, zero when
/// the rate, the growth or the supply is zero.
pub open spec fn spec_growth_mint(diff: int, new_inv: int, ts: int, fee_bp: int) -> int {
    if fee_bp > 0 && diff * ts > 0 && (new_inv * FEE_DIVISOR) / fee_bp > 0 {
        (diff * ts) / ((new_inv * FEE_DIVISOR) / fee_bp)
    } else {
        0
    }
}

/// Minted share amounts are never negative.
pub proof fn lemma_growth_mint_nonneg(diff: int, new_inv: int, ts: int, fee_bp: int)
    ensures
        spec_growth_mint(diff, new_inv, ts, fee_bp) >= 0,
{
    if fee_bp > 0 && diff * ts > 0 && (new_inv * FEE_DIVISOR) / fee_bp > 0 {
        lemma_div_pos_is_pos(diff * ts, (new_inv * FEE_DIVISOR) / fee_bp);
    }
}

/// The swap output stays strictly below the outgoing reserve.
pub proof fn lemma_swap_out_lt_y(x: int, y: int, dx: int, fee: int)
    requires
        x >= 1,
        y >= 1,
        dx >= 1,
        0 <= fee < FEE_DIVISOR,
    ensures
        0 <= spec_swap_out(x, y, dx, fee) < y,
{
    let aif = dx * (FEE_DIVISOR - fee);
    let d = x * FEE_DIVISOR + aif;
    assert(aif >= 1) by (nonlinear_arith)
        requires
            aif == dx * (FEE_DIVISOR - fee),
            dx >= 1,
            FEE_DIVISOR - fee >= 1,
    {
    }
    assert(x * FEE_DIVISOR >= 1) by (nonlinear_arith)
        requires
            x >= 1,
    {
    }
    lemma_mul_nonnegative(aif, y);
    lemma_div_pos_is_pos(aif * y, d);
    assert(aif * y < d * y) by (nonlinear_arith)
        requires
            aif >= 1,
            y >= 1,
            d >= aif + 1,
    {
    }
    lemma_multiply_divide_lt(aif * y, d, y);
}

/// Constant-product monotonicity: a swap never shrinks `x * y`.
pub proof fn lemma_k_monotone(x: int, y: int, dx: int, fee: int)
    requires
        x >= 1,
        y >= 1,
        dx >= 1,
        0 <= fee < FEE_DIVISOR,
    ensures
        (x + dx) * (y - spec_swap_out(x, y, dx, fee)) >= x * y,
{
    let aif = dx * (FEE_DIVISOR - fee);
    let d = x * FEE_DIVISOR + aif;
    let dy = spec_swap_out(x, y, dx, fee);
    assert(aif >= 1) by (nonlinear_arith)
        requires
            aif == dx * (FEE_DIVISOR - fee),
            dx >= 1,
            FEE_DIVISOR - fee >= 1,
    {
    }
    assert(x * FEE_DIVISOR >= 1) by (nonlinear_arith)
        requires
            x >= 1,
    {
    }
    assert(aif <= dx * FEE_DIVISOR) by (nonlinear_arith)
        requires
            aif == dx * (FEE_DIVISOR - fee),
            dx >= 1,
            fee >= 0,
    {
    }
    lemma_mul_nonnegative(aif, y);
    lemma_fundamental_div_mod(aif * y, d);
    lemma_mod_division_less_than_divisor(aif * y, d);
    assert(dy * d <= aif * y) by {
        lemma_mul_is_commutative(dy, d);
    }
    // dy * d <= aif * y, hence the product cannot shrink
    assert((x + dx) * (y - dy) >= x * y) by (nonlinear_arith)
        requires
            d == x * FEE_DIVISOR + aif,
            aif == dx * (FEE_DIVISOR - fee),
            dy * d <= aif * y,
            aif <= dx * FEE_DIVISOR,
            dy >= 0,
            x >= 1,
            y >= 1,
            dx >= 1,
            fee >= 0,
            FEE_DIVISOR - fee >= 1,
    {
    }
}

/// The first reason a quote for `dx` of `token_in` against `token_out`
/// fails, if any: unknown token, same token, zero amount, an empty
/// reserve, or a numerator beyond 256 bits.
pub open spec fn spec_return_error(
    p: SimplePool,
    token_in: u64,
    dx: u128,
    token_out: u64,
) -> Option<ExchangeError> {
    if !p.has_token(token_in) || !p.has_token(token_out) {
        Some(ExchangeError::UnknownToken)
    } else if token_in == token_out {
        Some(ExchangeError::SameToken)
    } else if dx == 0 {
        Some(ExchangeError::ZeroAmount)
    } else {
        let x = p.spec_amounts()[p.tok_idx(token_in)] as int;
        let y = p.spec_amounts()[p.tok_idx(token_out)] as int;
        if x == 0 || y == 0 {
            Some(ExchangeError::ZeroLiquidity)
        } else if dx * (FEE_DIVISOR - p.spec_fee()) * y >= pow256() {
            Some(ExchangeError::MathOverflow)
        } else {
            None
        }
    }
}

/// The quoted output of a swap on the pool, where the quote succeeds.
pub open spec fn spec_return_amount(p: SimplePool, token_in: u64, dx: u128, token_out: u64) -> int {
    spec_swap_out(
        p.spec_amounts()[p.tok_idx(token_in)] as int,
        p.spec_amounts()[p.tok_idx(token_out)] as int,
        dx as int,
        p.spec_fee(),
    )
}

impl SimplePool {
    /// The row of a token in the pool's token list.
    fn token_index(&self, token: u64) -> (r: Option<usize>)
        requires
            self.wf(),
        ensures
            match r {
                Some(i) => self.has_token(token) && i == self.tok_idx(token) && i < 2
                    && self.spec_tokens()[i as int] == token,
                None => !self.has_token(token),
            },
    {
        if self.token_ids[0] == token {
            Some(0)
        } else if self.token_ids[1] == token {
            Some(1)
        } else {
            None
        }
    }

    /// Quotes the output of swapping `amount_in` of `token_in` for
    /// `token_out` at the current reserves, without touching the pool.
    pub fn get_return(&self, token_in: u64, amount_in: u128, token_out: u64) -> (r: Result<
        u128,
        ExchangeError,
    >)
        requires
            self.wf(),
        ensures
            match r {
                Ok(dy) => {
                    &&& spec_return_error(*self, token_in, amount_in, token_out) is None
                    &&& dy == spec_return_amount(*self, token_in, amount_in, token_out)
                    &&& dy < self.spec_amounts()[self.tok_idx(token_out)]
                },
                Err(e) => spec_return_error(*self, token_in, amount_in, token_out) == Some(e),
            },
    {
        let in_idx = match self.token_index(token_in) {
            Some(i) => i,
            None => {
                return Err(ExchangeError::UnknownToken);
            },
        };
        let out_idx = match self.token_index(token_out) {
            Some(i) => i,
            None => {
                return Err(ExchangeError::UnknownToken);
            },
        };
        if token_in == token_out {
            return Err(ExchangeError::SameToken);
        }
        if amount_in == 0 {
            return Err(ExchangeError::ZeroAmount);
        }
        let x = self.amounts[in_idx];
        let y = self.amounts[out_idx];
        if x == 0 || y == 0 {
            return Err(ExchangeError::ZeroLiquidity);
        }
        let aif = mul_wide(amount_in, (FEE_DIVISOR - self.total_fee) as u128);
        let num = match u256_checked_mul(aif, u256_from(y)) {
            Some(n) => n,
            None => {
                return Err(ExchangeError::MathOverflow);
            },
        };
        let xfd = mul_wide(x, FEE_DIVISOR as u128);
        let denom = match u256_checked_add(xfd, aif) {
            Some(d) => d,
            None => {
                proof {
                    lemma_mul_upper_bound(x as int, pow128() - 1, FEE_DIVISOR as int, FEE_DIVISOR as int);
                    lemma_mul_upper_bound(
                        amount_in as int,
                        pow128() - 1,
                        (FEE_DIVISOR - self.total_fee) as int,
                        FEE_DIVISOR as int,
                    );
                    assert((pow128() - 1) * (FEE_DIVISOR as int) + (pow128() - 1) * (
                    FEE_DIVISOR as int) < pow256()) by (nonlinear_arith)
                        requires
                            pow256() == pow128() * pow128(),
                            pow128() > 2 * FEE_DIVISOR,
                            FEE_DIVISOR >= 1,
                    {
                    }
                    assert(false);
                }
                return Err(ExchangeError::MathOverflow);
            },
        };
        proof {
            lemma_swap_out_lt_y(x as int, y as int, amount_in as int, self.spec_fee());
        }
        let (q, _rem) = u256_divmod(num, denom);
        proof {
            lemma_fundamental_div_mod_converse(num.val(), denom.val(), q.val(), _rem.val());
            num.lemma_val_bounds();
            assert(q.val() == spec_return_amount(*self, token_in, amount_in, token_out));
        }
        let dy = match u256_as_u128(q) {
            Some(v) => v,
            None => {
                proof {
                    assert(false);
                }
                return Err(ExchangeError::MathOverflow);
            },
        };
        Ok(dy)
    }
}

/// The post-swap invariant root `sqrt(x' * y')` for a successful quote.
pub open spec fn spec_new_inv(p: SimplePool, token_in: u64, dx: u128, token_out: u64) -> int {
    let x = p.spec_amounts()[p.tok_idx(token_in)] as int;
    let y = p.spec_amounts()[p.tok_idx(token_out)] as int;
    let dy = spec_return_amount(p, token_in, dx, token_out);
    sqrt_floor((x + dx) * (y - dy))
}

/// The pre-swap invariant root `sqrt(x * y)`.
pub open spec fn spec_prev_inv(p: SimplePool, token_in: u64, token_out: u64) -> int {
    let x = p.spec_amounts()[p.tok_idx(token_in)] as int;
    let y = p.spec_amounts()[p.tok_idx(token_out)] as int;
    sqrt_floor(x * y)
}

/// The total admin-fee shares a successful swap mints, at the exchange
/// rate over the measured invariant growth.  The referral's cut comes out
/// of this total.
pub open spec fn spec_admin_mint_total(
    p: SimplePool,
    token_in: u64,
    dx: u128,
    token_out: u64,
    fees: AdminFees,
) -> int {
    spec_growth_mint(
        spec_new_inv(p, token_in, dx, token_out) - spec_prev_inv(p, token_in, token_out),
        spec_new_inv(p, token_in, dx, token_out),
        p.spec_total_shares(),
        fees.exchange_fee as int,
    )
}

/// The referral's cut of the admin-fee shares: the referral rate's portion
/// of the total, and only for a referral that already holds an LP record.
/// Without a registered referral the cut reverts to the exchange.
pub open spec fn spec_referral_mint(
    p: SimplePool,
    token_in: u64,
    dx: u128,
    token_out: u64,
    fees: AdminFees,
) -> int {
    match fees.referral_id {
        Some(rid) => if p.lp_registered(rid) {
            spec_admin_mint_total(p, token_in, dx, token_out, fees) * (fees.referral_fee as int)
                / (FEE_DIVISOR as int)
        } else {
            0
        },
        None => 0,
    }
}

/// The exchange account's share of the minted admin fee: the total less
/// the referral's cut.
pub open spec fn spec_exchange_mint(
    p: SimplePool,
    token_in: u64,
    dx: u128,
    token_out: u64,
    fees: AdminFees,
) -> int {
    spec_admin_mint_total(p, token_in, dx, token_out, fees) - spec_referral_mint(
        p,
        token_in,
        dx,
        token_out,
        fees,
    )
}

/// The first reason a swap fails, if any: a failing quote, slippage, or an
/// overflow of the incoming reserve or the share supply.
pub open spec fn spec_swap_error(
    p: SimplePool,
    token_in: u64,
    dx: u128,
    token_out: u64,
    min_amount_out: u128,
    fees: AdminFees,
) -> Option<ExchangeError> {
    match spec_return_error(p, token_in, dx, token_out) {
        Some(e) => Some(e),
        None => {
            let x = p.spec_amounts()[p.tok_idx(token_in)] as int;
            let dy = spec_return_amount(p, token_in, dx, token_out);
            if dy < min_amount_out {
                Some(ExchangeError::InsufficientOutput)
            } else if x + dx >= pow128() {
                Some(ExchangeError::MathOverflow)
            } else if p.spec_total_shares() + spec_admin_mint_total(p, token_in, dx, token_out,
                fees) >= pow128() {
                Some(ExchangeError::MathOverflow)
            } else {
                None
            }
        },
    }
}

/// Shares owed for invariant growth `diff` at rate `fee_bp`, computed in
/// 256-bit arithmetic; fails only when the result exceeds `u128`.
fn compute_growth_mint(diff: u128, ts: u128, new_inv: u128, fee_bp: u32) -> (r: Result<
    u128,
    ExchangeError,
>)
    requires
        fee_bp <= FEE_DIVISOR,
        fee_bp > 0 && diff > 0 ==> new_inv >= 1,
    ensures
        match r {
            Ok(m) => m == spec_growth_mint(diff as int, new_inv as int, ts as int, fee_bp as int),
            Err(e) => {
                &&& e == ExchangeError::MathOverflow
                &&& spec_growth_mint(diff as int, new_inv as int, ts as int, fee_bp as int)
                    >= pow128()
            },
        },
{
    if fee_bp == 0 || diff == 0 || ts == 0 {
        proof {
            if diff > 0 && ts > 0 {
                lemma_mul_strictly_positive(diff as int, ts as int);
            }
            lemma_mul_by_zero_is_zero(diff as int);
            lemma_mul_by_zero_is_zero(ts as int);
        }
        return Ok(0);
    }
    proof {
        lemma_mul_strictly_positive(diff as int, ts as int);
    }
    let num = mul_wide(diff, ts);
    let denom_num = mul_wide(new_inv, FEE_DIVISOR as u128);
    let (denom, _r1) = u256_divmod(denom_num, u256_from(fee_bp as u128));
    proof {
        lemma_fundamental_div_mod_converse(
            denom_num.val(),
            fee_bp as int,
            denom.val(),
            _r1.val(),
        );
        lemma_mul_inequality(1, new_inv as int, FEE_DIVISOR as int);
        lemma_mul_is_commutative(new_inv as int, FEE_DIVISOR as int);
        lemma_div_is_ordered(fee_bp as int, new_inv as int * FEE_DIVISOR as int, fee_bp as int);
        lemma_div_by_self(fee_bp as int);
    }
    let (q, _r2) = u256_divmod(num, denom);
    proof {
        lemma_fundamental_div_mod_converse(num.val(), denom.val(), q.val(), _r2.val());
    }
    match u256_as_u128(q) {
        Some(m) => Ok(m),
        None => Err(ExchangeError::MathOverflow),
    }
}

impl SimplePool {
    /// Swaps `amount_in` of `token_in` for at least `min_amount_out` of
    /// `token_out`, minting admin-fee shares out of the measured invariant
    /// growth; a registered referral takes its rate's cut of that mint,
    /// and otherwise the cut stays with the exchange.  Any failure leaves
    /// the pool untouched.
    pub fn swap(
        &mut self,
        token_in: u64,
        amount_in: u128,
        token_out: u64,
        min_amount_out: u128,
        fees: &AdminFees,
    ) -> (r: Result<u128, ExchangeError>)
        requires
            old(self).wf(),
            fees.wf(),
        ensures
            final(self).wf(),
            match r {
                Ok(dy) => {
                    &&& spec_swap_error(
                        *old(self),
                        token_in,
                        amount_in,
                        token_out,
                        min_amount_out,
                        *fees,
                    ) is None
                    &&& dy == spec_return_amount(*old(self), token_in, amount_in, token_out)
                    &&& dy >= min_amount_out
                    &&& final(self).spec_tokens() == old(self).spec_tokens()
                    &&& final(self).spec_fee() == old(self).spec_fee()
                    &&& final(self).spec_amounts() == old(self).spec_amounts().update(
                        old(self).tok_idx(token_in),
                        (old(self).spec_amounts()[old(self).tok_idx(token_in)] + amount_in) as u128,
                    ).update(
                        old(self).tok_idx(token_out),
                        (old(self).spec_amounts()[old(self).tok_idx(token_out)] - dy) as u128,
                    )
                    &&& final(self).spec_total_shares() == old(self).spec_total_shares()
                        + spec_exchange_mint(*old(self), token_in, amount_in, token_out, *fees)
                        + spec_referral_mint(*old(self), token_in, amount_in, token_out, *fees)
                    &&& forall|a: u64|
                        final(self).share_of(a) == old(self).share_of(a) + (
                        if a == fees.exchange_id {
                            spec_exchange_mint(*old(self), token_in, amount_in, token_out, *fees)
                        } else {
                            0int
                        }) + (
                        if fees.referral_id == Some(a) {
                            spec_referral_mint(*old(self), token_in, amount_in, token_out, *fees)
                        } else {
                            0int
                        })
                    &&& forall|a: u64|
                        final(self).lp_registered(a) == (old(self).lp_registered(a) || (a
                            == fees.exchange_id && spec_exchange_mint(
                            *old(self),
                            token_in,
                            amount_in,
                            token_out,
                            *fees,
                        ) > 0) || (fees.referral_id == Some(a) && spec_referral_mint(
                            *old(self),
                            token_in,
                            amount_in,
                            token_out,
                            *fees,
                        ) > 0))
                },
                Err(e) => {
                    &&& *final(self) == *old(self)
                    &&& spec_swap_error(
                        *old(self),
                        token_in,
                        amount_in,
                        token_out,
                        min_amount_out,
                        *fees,
                    ) == Some(e)
                },
            },
    {
        let dy = match self.get_return(token_in, amount_in, token_out) {
            Ok(d) => d,
            Err(e) => {
                return Err(e);
            },
        };
        if dy < min_amount_out {
            return Err(ExchangeError::InsufficientOutput);
        }
        let in_idx = self.token_index(token_in).unwrap();
        let out_idx = self.token_index(token_out).unwrap();
        let x = self.amounts[in_idx];
        let y = self.amounts[out_idx];
        let new_x = match x.checked_add(amount_in) {
            Some(v) => v,
            None => {
                return Err(ExchangeError::MathOverflow);
            },
        };
        let new_y = y - dy;
        let prev_inv = isqrt_u256(mul_wide(x, y));
        let new_inv = isqrt_u256(mul_wide(new_x, new_y));
        proof {
            lemma_k_monotone(x as int, y as int, amount_in as int, self.spec_fee());
            lemma_sqrt_bounds_monotone(
                prev_inv as int,
                x as int * y as int,
                new_inv as int,
                new_x as int * new_y as int,
            );
            lemma_sqrt_floor_is(x as int * y as int, prev_inv as int);
            lemma_sqrt_floor_is(new_x as int * new_y as int, new_inv as int);
            assert(prev_inv as int == spec_prev_inv(*self, token_in, token_out));
            assert(new_inv as int == spec_new_inv(*self, token_in, amount_in, token_out));
            if new_inv == 0 {
                assert((new_x as int) * (new_y as int) >= 1) by (nonlinear_arith)
                    requires
                        new_x >= 1,
                        new_y >= 1,
                {
                }
                assert((new_inv as int + 1) * (new_inv as int + 1) == 1) by (nonlinear_arith)
                    requires
                        new_inv == 0,
                {
                }
                assert(false);
            }
        }
        let diff = new_inv - prev_inv;
        let ts0 = self.shares_total_supply;
        proof {
            lemma_growth_mint_nonneg(
                spec_new_inv(*self, token_in, amount_in, token_out) - spec_prev_inv(*self, token_in, token_out),
                spec_new_inv(*self, token_in, amount_in, token_out),
                self.spec_total_shares(),
                fees.exchange_fee as int,
            );
        }
        // the whole admin fee, at the exchange rate; the referral's cut
        // comes out of it
        let mint_total = match compute_growth_mint(diff, ts0, new_inv, fees.exchange_fee) {
            Ok(m) => m,
            Err(e) => {
                return Err(ExchangeError::MathOverflow);
            },
        };
        let referral_registered: bool = match fees.referral_id {
            Some(rid) => self.shares.contains_key(rid),
            None => false,
        };
        let mint_referral = if referral_registered {
            crate::math::fee_part(mint_total, fees.referral_fee)
        } else {
            0
        };
        let mint_exchange = mint_total - mint_referral;
        // the new supply must fit before anything is committed
        let _supply_1 = match ts0.checked_add(mint_total) {
            Some(v) => v,
            None => {
                return Err(ExchangeError::MathOverflow);
            },
        };
        let ghost pre = *self;
        self.amounts.set(in_idx, new_x);
        self.amounts.set(out_idx, new_y);
        proof {
            assert(self.wf());
        }
        let ghost mid = *self;
        let res_e = self.mint_shares(fees.exchange_id, mint_exchange);
        proof {
            assert(res_e is Ok);
        }
        let ghost mid2 = *self;
        if referral_registered && mint_referral > 0 {
            let rid = match fees.referral_id {
                Some(rid) => rid,
                None => {
                    proof {
                        assert(false);
                    }
                    0
                },
            };
            let res_r = self.mint_shares(rid, mint_referral);
            proof {
                assert(res_r is Ok);
            }
        }
        proof {
            assert(final(self).spec_amounts() =~= old(self).spec_amounts().update(
                old(self).tok_idx(token_in),
                new_x,
            ).update(old(self).tok_idx(token_out), new_y));
            assert forall|a: u64|
                final(self).share_of(a) == old(self).share_of(a) + (
                if a == fees.exchange_id {
                    spec_exchange_mint(*old(self), token_in, amount_in, token_out, *fees)
                } else {
                    0int
                }) + (
                if fees.referral_id == Some(a) {
                    spec_referral_mint(*old(self), token_in, amount_in, token_out, *fees)
                } else {
                    0int
                }) by {
                assert(mid.share_of(a) == old(self).share_of(a));
            }
        }
        Ok(dy)
    }
}

/// The shares a deposit of `[a0, a1]` is worth against reserves `[x, y]`
/// and supply `ts`: the smaller of the two proportional entitlements.
pub open spec fn spec_fair_shares(a0: int, a1: int, x: int, y: int, ts: int) -> int {
    let r0 = a0 * ts / x;
    let r1 = a1 * ts / y;
    if r0 <= r1 {
        r0
    } else {
        r1
    }
}

/// The deposit consumed for `r` minted shares against reserve `x`:
/// `r * x / ts`, rounded up so the pool never under-collects.
pub open spec fn spec_consumed(r: int, x: int, ts: int) -> int {
    (r * x + ts - 1) / ts
}

/// The payout of `s` burned shares against reserve `x`: `s * x / ts`,
/// rounded down so the pool never over-pays.
pub open spec fn spec_payout(s: int, x: int, ts: int) -> int {
    s * x / ts
}

/// The consumed deposit never exceeds the amount offered.
pub proof fn lemma_consumed_le(a: int, x: int, ts: int, r: int)
    requires
        ts >= 1,
        x >= 1,
        0 <= r <= a * ts / x,
        a >= 0,
    ensures
        0 <= spec_consumed(r, x, ts) <= a,
{
    let q = a * ts / x;
    lemma_mul_nonnegative(a, ts);
    lemma_fundamental_div_mod(a * ts, x);
    lemma_mod_division_less_than_divisor(a * ts, x);
    // r * x <= q * x <= a * ts
    lemma_mul_inequality(r, q, x);
    assert(q * x <= a * ts) by (nonlinear_arith)
        requires
            a * ts == x * q + (a * ts) % x,
            (a * ts) % x >= 0,
    {
    }
    lemma_mul_nonnegative(r, x);
    lemma_div_is_ordered(r * x + ts - 1, a * ts + ts - 1, ts);
    lemma_fundamental_div_mod_converse(a * ts + ts - 1, ts, a, ts - 1);
    lemma_div_pos_is_pos(r * x + ts - 1, ts);
}

/// The payout of a partial burn stays below the reserve, strictly when the
/// burn is partial and the reserve is live.
pub proof fn lemma_payout_le(s: int, x: int, ts: int)
    requires
        ts >= 1,
        0 <= s <= ts,
        x >= 0,
    ensures
        0 <= spec_payout(s, x, ts) <= x,
        s < ts && x >= 1 ==> spec_payout(s, x, ts) < x,
{
    lemma_mul_nonnegative(s, x);
    lemma_div_pos_is_pos(s * x, ts);
    lemma_mul_inequality(s, ts, x);
    lemma_div_is_ordered(s * x, ts * x, ts);
    lemma_mul_is_commutative(ts, x);
    lemma_div_by_multiple(x, ts);
    lemma_mul_is_commutative(x, ts);
    if s < ts && x >= 1 {
        assert(s * x < ts * x) by (nonlinear_arith)
            requires
                s < ts,
                x >= 1,
        {
        }
        lemma_multiply_divide_lt(s * x, ts, x);
    }
}

/// A burn of `s` of `ts` shares pays `a` with `ts * a <= s * x
/// < ts * (a + 1)`: the proportional entitlement, floored, and never more
/// than the reserve.  This pins what a full balanced remove returns.
pub proof fn lemma_remove_entitlement(s: int, x: int, ts: int)
    requires
        ts >= 1,
        0 <= s <= ts,
        x >= 0,
    ensures
        ts * spec_payout(s, x, ts) <= s * x < ts * (spec_payout(s, x, ts) + 1),
        spec_payout(s, x, ts) <= x,
{
    lemma_payout_le(s, x, ts);
    lemma_mul_nonnegative(s, x);
    lemma_fundamental_div_mod(s * x, ts);
    lemma_mod_division_less_than_divisor(s * x, ts);
    lemma_mul_is_distributive_add(ts, spec_payout(s, x, ts), 1);
}

/// A balanced deposit keeps the reserve ratio up to one rounding unit:
/// the cross products of the new reserves differ by less than one reserve
/// on either side.
pub proof fn lemma_balanced_add_ratio(x: int, y: int, ts: int, r: int)
    requires
        x >= 1,
        y >= 1,
        ts >= 1,
        r >= 0,
    ensures
        (x + spec_consumed(r, x, ts)) * y < (y + spec_consumed(r, y, ts)) * x + y,
        (y + spec_consumed(r, y, ts)) * x < (x + spec_consumed(r, x, ts)) * y + x,
{
    let c0 = spec_consumed(r, x, ts);
    let c1 = spec_consumed(r, y, ts);
    lemma_mul_nonnegative(r, x);
    lemma_mul_nonnegative(r, y);
    lemma_fundamental_div_mod(r * x + ts - 1, ts);
    lemma_mod_division_less_than_divisor(r * x + ts - 1, ts);
    lemma_fundamental_div_mod(r * y + ts - 1, ts);
    lemma_mod_division_less_than_divisor(r * y + ts - 1, ts);
    // r*x <= c0*ts <= r*x + ts - 1, and the same for c1
    assert((x + c0) * y < (y + c1) * x + y && (y + c1) * x < (x + c0) * y + x)
        by (nonlinear_arith)
        requires
            r * x <= c0 * ts <= r * x + ts - 1,
            r * y <= c1 * ts <= r * y + ts - 1,
            x >= 1,
            y >= 1,
            ts >= 1,
    {
    }
}

/// Round-trip bound: swapping `dx` of one token for the other and the whole
/// proceeds straight back never returns more than `dx`.
pub proof fn lemma_round_trip_no_gain(x: int, y: int, dx: int, fee: int)
    requires
        x >= 1,
        y >= 1,
        dx >= 1,
        0 <= fee < FEE_DIVISOR,
    ensures
        spec_swap_out(
            y - spec_swap_out(x, y, dx, fee),
            x + dx,
            spec_swap_out(x, y, dx, fee),
            fee,
        ) <= dx,
{
    let out1 = spec_swap_out(x, y, dx, fee);
    lemma_swap_out_lt_y(x, y, dx, fee);
    let x2 = y - out1;
    let y2 = x + dx;
    let aif1 = dx * (FEE_DIVISOR - fee);
    let d1 = x * FEE_DIVISOR + aif1;
    let aif2 = out1 * (FEE_DIVISOR - fee);
    let d2 = x2 * FEE_DIVISOR + aif2;
    if out1 == 0 {
        lemma_mul_by_zero_is_zero(FEE_DIVISOR - fee);
        assert(aif2 * y2 == 0) by {
            lemma_mul_by_zero_is_zero(y2);
        }
        lemma_div_of0(d2);
    } else {
        assert(aif1 >= 1) by (nonlinear_arith)
            requires
                aif1 == dx * (FEE_DIVISOR - fee),
                dx >= 1,
                FEE_DIVISOR - fee >= 1,
        {
        }
        assert(x * FEE_DIVISOR >= 1) by (nonlinear_arith)
            requires
                x >= 1,
        {
        }
        lemma_mul_nonnegative(aif1, y);
        lemma_fundamental_div_mod(aif1 * y, d1);
        lemma_mod_division_less_than_divisor(aif1 * y, d1);
        assert(out1 * d1 <= aif1 * y) by {
            lemma_mul_is_commutative(out1, d1);
        }
        assert(x2 * FEE_DIVISOR >= 1) by (nonlinear_arith)
            requires
                x2 >= 1,
        {
        }
        assert(aif2 * y2 <= dx * d2) by (nonlinear_arith)
            requires
                out1 * d1 <= aif1 * y,
                d1 == x * FEE_DIVISOR + aif1,
                aif1 == dx * (FEE_DIVISOR - fee),
                aif2 == out1 * (FEE_DIVISOR - fee),
                d2 == x2 * FEE_DIVISOR + aif2,
                x2 == y - out1,
                y2 == x + dx,
                1 <= out1 < y,
                x >= 1,
                y >= 1,
                dx >= 1,
                0 <= fee,
                FEE_DIVISOR - fee >= 1,
        {
        }
        lemma_div_is_ordered(aif2 * y2, dx * d2, d2);
        lemma_div_by_multiple(dx, d2);
        lemma_mul_is_commutative(dx, d2);
    }
}

/// The first reason a balanced deposit of `amounts` fails, if any.
pub open spec fn spec_add_liquidity_error(p: SimplePool, amounts: Seq<u128>) -> Option<
    ExchangeError,
> {
    if amounts.len() != 2 {
        Some(ExchangeError::WrongTokenCount)
    } else if amounts[0] == 0 || amounts[1] == 0 {
        Some(ExchangeError::ZeroAmount)
    } else if p.spec_total_shares() == 0 {
        if p.spec_amounts()[0] + amounts[0] >= pow128() || p.spec_amounts()[1] + amounts[1]
            >= pow128() {
            Some(ExchangeError::MathOverflow)
        } else {
            None
        }
    } else {
        let x = p.spec_amounts()[0] as int;
        let y = p.spec_amounts()[1] as int;
        let ts = p.spec_total_shares();
        if amounts[0] * ts / x >= pow128() || amounts[1] * ts / y >= pow128() {
            Some(ExchangeError::MathOverflow)
        } else {
            let r = spec_fair_shares(amounts[0] as int, amounts[1] as int, x, y, ts);
            if x + spec_consumed(r, x, ts) >= pow128() || y + spec_consumed(r, y, ts) >= pow128()
                || ts + r >= pow128() {
                Some(ExchangeError::MathOverflow)
            } else {
                None
            }
        }
    }
}

/// The shares a successful balanced deposit mints.
pub open spec fn spec_add_liquidity_mint(p: SimplePool, amounts: Seq<u128>) -> int {
    if p.spec_total_shares() == 0 {
        INIT_SHARES_SUPPLY as int
    } else {
        spec_fair_shares(
            amounts[0] as int,
            amounts[1] as int,
            p.spec_amounts()[0] as int,
            p.spec_amounts()[1] as int,
            p.spec_total_shares(),
        )
    }
}

/// What a successful balanced deposit consumes of each offered amount.
pub open spec fn spec_add_liquidity_taken(p: SimplePool, amounts: Seq<u128>, i: int) -> int {
    if p.spec_total_shares() == 0 {
        amounts[i] as int
    } else {
        spec_consumed(
            spec_add_liquidity_mint(p, amounts),
            p.spec_amounts()[i] as int,
            p.spec_total_shares(),
        )
    }
}

impl SimplePool {
    /// Adds balanced liquidity.  The first deposit is taken as offered and
    /// mints [`INIT_SHARES_SUPPLY`]; a later deposit is trimmed to the
    /// pool's ratio, consuming `ceil(r * reserve / supply)` per token for
    /// `r` minted shares.  Returns the consumed amounts and the minted
    /// shares; failure leaves the pool untouched.
    pub fn add_liquidity(&mut self, sender_id: u64, amounts: &Vec<u128>) -> (r: Result<
        (Vec<u128>, u128),
        ExchangeError,
    >)
        requires
            old(self).wf(),
        ensures
            final(self).wf(),
            match r {
                Ok((taken, minted)) => {
                    &&& spec_add_liquidity_error(*old(self), amounts@) is None
                    &&& taken@.len() == 2
                    &&& minted == spec_add_liquidity_mint(*old(self), amounts@)
                    &&& taken@[0] == spec_add_liquidity_taken(*old(self), amounts@, 0)
                    &&& taken@[1] == spec_add_liquidity_taken(*old(self), amounts@, 1)
                    &&& taken@[0] <= amounts@[0] && taken@[1] <= amounts@[1]
                    &&& final(self).spec_tokens() == old(self).spec_tokens()
                    &&& final(self).spec_fee() == old(self).spec_fee()
                    &&& final(self).spec_amounts() =~= seq![
                        (old(self).spec_amounts()[0] + taken@[0]) as u128,
                        (old(self).spec_amounts()[1] + taken@[1]) as u128,
                    ]
                    &&& final(self).spec_total_shares() == old(self).spec_total_shares() + minted
                    &&& final(self).share_of(sender_id) == old(self).share_of(sender_id) + minted
                    &&& forall|a: u64|
                        a != sender_id ==> final(self).share_of(a) == old(self).share_of(a)
                    &&& forall|a: u64|
                        final(self).lp_registered(a) == (old(self).lp_registered(a) || (a
                            == sender_id && minted > 0))
                },
                Err(e) => {
                    &&& *final(self) == *old(self)
                    &&& spec_add_liquidity_error(*old(self), amounts@) == Some(e)
                },
            },
    {
        if amounts.len() != 2 {
            return Err(ExchangeError::WrongTokenCount);
        }
        let a0 = amounts[0];
        let a1 = amounts[1];
        if a0 == 0 || a1 == 0 {
            return Err(ExchangeError::ZeroAmount);
        }
        if self.shares_total_supply == 0 {
            let n0 = match self.amounts[0].checked_add(a0) {
                Some(v) => v,
                None => {
                    return Err(ExchangeError::MathOverflow);
                },
            };
            let n1 = match self.amounts[1].checked_add(a1) {
                Some(v) => v,
                None => {
                    return Err(ExchangeError::MathOverflow);
                },
            };
            self.amounts.set(0, n0);
            self.amounts.set(1, n1);
            let res = self.mint_shares(sender_id, INIT_SHARES_SUPPLY);
            proof {
                assert(res is Ok);
            }
            let mut taken: Vec<u128> = Vec::new();
            taken.push(a0);
            taken.push(a1);
            return Ok((taken, INIT_SHARES_SUPPLY));
        }
        let x = self.amounts[0];
        let y = self.amounts[1];
        let ts = self.shares_total_supply;
        let r0 = match mul_div_floor(a0, ts, x) {
            Some(v) => v,
            None => {
                return Err(ExchangeError::MathOverflow);
            },
        };
        let r1 = match mul_div_floor(a1, ts, y) {
            Some(v) => v,
            None => {
                proof {
                    lemma_mul_nonnegative(a0 as int, ts as int);
                    lemma_div_pos_is_pos(a0 as int * ts as int, x as int);
                }
                return Err(ExchangeError::MathOverflow);
            },
        };
        let fair = if r0 <= r1 {
            r0
        } else {
            r1
        };
        proof {
            lemma_consumed_le(a0 as int, x as int, ts as int, fair as int);
            lemma_consumed_le(a1 as int, y as int, ts as int, fair as int);
        }
        let c0 = match mul_div_ceil(fair, x, ts) {
            Some(v) => v,
            None => {
                proof {
                    assert(false);
                }
                return Err(ExchangeError::MathOverflow);
            },
        };
        let c1 = match mul_div_ceil(fair, y, ts) {
            Some(v) => v,
            None => {
                proof {
                    assert(false);
                }
                return Err(ExchangeError::MathOverflow);
            },
        };
        let new_x = match x.checked_add(c0) {
            Some(v) => v,
            None => {
                return Err(ExchangeError::MathOverflow);
            },
        };
        let new_y = match y.checked_add(c1) {
            Some(v) => v,
            None => {
                return Err(ExchangeError::MathOverflow);
            },
        };
        let _new_ts = match ts.checked_add(fair) {
            Some(v) => v,
            None => {
                return Err(ExchangeError::MathOverflow);
            },
        };
        self.amounts.set(0, new_x);
        self.amounts.set(1, new_y);
        let res = self.mint_shares(sender_id, fair);
        proof {
            assert(res is Ok);
        }
        let mut taken: Vec<u128> = Vec::new();
        taken.push(c0);
        taken.push(c1);
        Ok((taken, fair))
    }

    /// The first reason removing `shares` against `min_amounts` fails.
    pub open spec fn spec_remove_error(
        p: SimplePool,
        sender_id: u64,
        shares: u128,
        min_amounts: Seq<u128>,
    ) -> Option<ExchangeError> {
        if min_amounts.len() != 2 {
            Some(ExchangeError::WrongTokenCount)
        } else if shares == 0 {
            Some(ExchangeError::ZeroAmount)
        } else if p.share_of(sender_id) < shares {
            Some(ExchangeError::InsufficientLpBalance)
        } else if spec_payout(shares as int, p.spec_amounts()[0] as int, p.spec_total_shares())
            < min_amounts[0] || spec_payout(
            shares as int,
            p.spec_amounts()[1] as int,
            p.spec_total_shares(),
        ) < min_amounts[1] {
            Some(ExchangeError::InsufficientOutput)
        } else {
            None
        }
    }

    /// Burns `shares` of the sender's LP shares for the proportional,
    /// floored payout of each reserve; each payout must reach the caller's
    /// minimum.  Failure leaves the pool untouched.
    pub fn remove_liquidity(&mut self, sender_id: u64, shares: u128, min_amounts: &Vec<u128>) -> (r:
        Result<Vec<u128>, ExchangeError>)
        requires
            old(self).wf(),
        ensures
            final(self).wf(),
            match r {
                Ok(paid) => {
                    &&& Self::spec_remove_error(*old(self), sender_id, shares, min_amounts@)
                        is None
                    &&& paid@.len() == 2
                    &&& paid@[0] == spec_payout(
                        shares as int,
                        old(self).spec_amounts()[0] as int,
                        old(self).spec_total_shares(),
                    )
                    &&& paid@[1] == spec_payout(
                        shares as int,
                        old(self).spec_amounts()[1] as int,
                        old(self).spec_total_shares(),
                    )
                    &&& paid@[0] >= min_amounts@[0] && paid@[1] >= min_amounts@[1]
                    &&& paid@[0] <= old(self).spec_amounts()[0] && paid@[1] <= old(
                        self,
                    ).spec_amounts()[1]
                    &&& final(self).spec_tokens() == old(self).spec_tokens()
                    &&& final(self).spec_fee() == old(self).spec_fee()
                    &&& final(self).spec_amounts() =~= seq![
                        (old(self).spec_amounts()[0] - paid@[0]) as u128,
                        (old(self).spec_amounts()[1] - paid@[1]) as u128,
                    ]
                    &&& final(self).spec_total_shares() == old(self).spec_total_shares() - shares
                    &&& final(self).share_of(sender_id) == old(self).share_of(sender_id) - shares
                    &&& final(self).lp_registered(sender_id)
                    &&& forall|a: u64|
                        a != sender_id ==> final(self).share_of(a) == old(self).share_of(a)
                    &&& forall|a: u64|
                        final(self).lp_registered(a) == old(self).lp_registered(a)
                },
                Err(e) => {
                    &&& *final(self) == *old(self)
                    &&& Self::spec_remove_error(*old(self), sender_id, shares, min_amounts@)
                        == Some(e)
                },
            },
    {
        if min_amounts.len() != 2 {
            return Err(ExchangeError::WrongTokenCount);
        }
        if shares == 0 {
            return Err(ExchangeError::ZeroAmount);
        }
        let bal = self.share_balance_of(sender_id);
        if bal < shares {
            return Err(ExchangeError::InsufficientLpBalance);
        }
        proof {
            self.shares.lemma_idx_of(sender_id);
            lemma_sum_elem_le(self.shares.vals_seq(), self.shares.idx_of(sender_id));
        }
        let ts = self.shares_total_supply;
        let x = self.amounts[0];
        let y = self.amounts[1];
        proof {
            lemma_payout_le(shares as int, x as int, ts as int);
            lemma_payout_le(shares as int, y as int, ts as int);
        }
        let p0 = match mul_div_floor(shares, x, ts) {
            Some(v) => v,
            None => {
                proof {
                    assert(false);
                }
                return Err(ExchangeError::MathOverflow);
            },
        };
        let p1 = match mul_div_floor(shares, y, ts) {
            Some(v) => v,
            None => {
                proof {
                    assert(false);
                }
                return Err(ExchangeError::MathOverflow);
            },
        };
        if p0 < min_amounts[0] || p1 < min_amounts[1] {
            return Err(ExchangeError::InsufficientOutput);
        }
        self.amounts.set(0, x - p0);
        self.amounts.set(1, y - p1);
        self.shares.insert(sender_id, bal - shares);
        self.shares_total_supply = ts - shares;
        proof {
            old(self).shares.lemma_idx_of(sender_id);
            lemma_sum_update(
                old(self).shares.vals_seq(),
                old(self).shares.idx_of(sender_id),
                (bal - shares) as u128,
            );
            assert forall|a: u64| a != sender_id implies final(self).share_of(a) == old(self).share_of(a) by {
                crate::table::lemma_insert_other(
                    old(self).shares,
                    self.shares,
                    sender_id,
                    (bal - shares) as u128,
                    a,
                );
            }
        }
        let mut paid: Vec<u128> = Vec::new();
        paid.push(p0);
        paid.push(p1);
        Ok(paid)
    }
}

} // verus!
