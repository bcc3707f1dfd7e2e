//! The admin-fee routing descriptor shared by all pool kinds, and the
//! closed sum type over the pool kinds.

use vstd::prelude::*;
use crate::errors::ExchangeError;
use crate::math::FEE_DIVISOR;
use crate::simple_pool::SimplePool;
use crate::stable_swap::StableSwapPool;

verus! {

/// Where the exchange-owned and referral portions of a swap fee go.
///
/// Both rates are basis points of [`FEE_DIVISOR`], and the rates never
/// exceed the divisor.
pub struct AdminFees {
    /// Basis points of the fee growth minted to the exchange account.
    pub exchange_fee: u32,
    /// The exchange's own account id, receiver of exchange fee shares.
    pub exchange_id: u64,
    /// Basis points of the fee growth minted to the referral.
    pub referral_fee: u32,
    /// The referral account, if the request named one.
    pub referral_id: Option<u64>,
}

impl AdminFees {
    /// Both fee rates stay within the divisor.
    pub open spec fn wf(self) -> bool {
        self.exchange_fee <= FEE_DIVISOR && self.referral_fee <= FEE_DIVISOR
    }

    /// Fees for a liquidity operation: only the exchange rate applies.
    pub fn new(exchange_fee: u32, exchange_id: u64) -> (r: AdminFees)
        requires
            exchange_fee <= FEE_DIVISOR,
        ensures
            r.wf(),
            r.exchange_fee == exchange_fee,
            r.exchange_id == exchange_id,
            r.referral_fee == 0,
            r.referral_id is None,
    {
        AdminFees { exchange_fee, exchange_id, referral_fee: 0, referral_id: None }
    }
}

/// A pool of the registry: constant-product or stable-swap.
pub enum Pool {
    SimplePool(SimplePool),
    StableSwapPool(StableSwapPool),
}

impl Pool {
    /// Well-formed: the underlying pool is.
    pub open spec fn wf(self) -> bool {
        match self {
            Pool::SimplePool(p) => p.wf(),
            Pool::StableSwapPool(p) => p.wf(),
        }
    }

    /// The pool's token list.
    pub open spec fn spec_tokens(self) -> Seq<u64> {
        match self {
            Pool::SimplePool(p) => p.spec_tokens(),
            Pool::StableSwapPool(p) => p.spec_tokens(),
        }
    }

    /// The total LP share supply.
    pub open spec fn spec_total_shares(self) -> int {
        match self {
            Pool::SimplePool(p) => p.spec_total_shares(),
            Pool::StableSwapPool(p) => p.spec_total_shares(),
        }
    }

    /// The account's LP share balance.
    pub open spec fn share_of(self, account: u64) -> int {
        match self {
            Pool::SimplePool(p) => p.share_of(account),
            Pool::StableSwapPool(p) => p.share_of(account),
        }
    }

    /// Whether the account holds an LP share record.
    pub open spec fn lp_registered(self, account: u64) -> bool {
        match self {
            Pool::SimplePool(p) => p.lp_registered(account),
            Pool::StableSwapPool(p) => p.lp_registered(account),
        }
    }

    /// The raw custody reserve of a token; a token the pool does not hold
    /// counts as zero.
    pub open spec fn reserve_of(self, t: u64) -> int {
        match self {
            Pool::SimplePool(p) => if p.has_token(t) {
                p.spec_amounts()[p.tok_idx(t)] as int
            } else {
                0
            },
            Pool::StableSwapPool(p) => if p.has_token(t) {
                p.spec_amounts()[p.tok_idx(t)] as int
            } else {
                0
            },
        }
    }

    /// The pool's token list, as a fresh vector.
    pub fn tokens(&self) -> (r: Vec<u64>)
        requires
            self.wf(),
        ensures
            r@ == self.spec_tokens(),
    {
        match self {
            Pool::SimplePool(p) => p.tokens(),
            Pool::StableSwapPool(p) => p.tokens(),
        }
    }

    /// The total LP share supply.
    pub fn share_total_supply(&self) -> (r: u128)
        ensures
            r == self.spec_total_shares(),
    {
        match self {
            Pool::SimplePool(p) => p.share_total_supply(),
            Pool::StableSwapPool(p) => p.share_total_supply(),
        }
    }

    /// The account's LP share balance.
    pub fn share_balance_of(&self, account: u64) -> (r: u128)
        requires
            self.wf(),
        ensures
            r == self.share_of(account),
    {
        match self {
            Pool::SimplePool(p) => p.share_balance_of(account),
            Pool::StableSwapPool(p) => p.share_balance_of(account),
        }
    }

    /// The raw reserves, aligned with the token list.
    pub open spec fn spec_reserves(self) -> Seq<u128> {
        match self {
            Pool::SimplePool(p) => p.spec_amounts(),
            Pool::StableSwapPool(p) => p.spec_amounts(),
        }
    }

    /// The raw reserves, as a fresh vector.
    pub fn get_amounts(&self) -> (r: Vec<u128>)
        requires
            self.wf(),
        ensures
            r@ == self.spec_reserves(),
    {
        match self {
            Pool::SimplePool(p) => p.get_amounts(),
            Pool::StableSwapPool(p) => p.get_amounts(),
        }
    }

    /// Quotes the output of a swap at the current reserves without touching
    /// the pool.
    pub fn get_return(&self, token_in: u64, amount_in: u128, token_out: u64) -> (r: Result<
        u128,
        ExchangeError,
    >)
        requires
            self.wf(),
        ensures
            (*self) is SimplePool ==> match r {
                Ok(out) => out == crate::simple_pool::spec_return_amount(
                    (*self)->SimplePool_0,
                    token_in,
                    amount_in,
                    token_out,
                ),
                Err(e) => crate::simple_pool::spec_return_error(
                    (*self)->SimplePool_0,
                    token_in,
                    amount_in,
                    token_out,
                ) == Some(e),
            },
            (*self) is StableSwapPool ==> match r {
                Ok(out) => Some(out as int) == crate::stable_swap::spec_stable_out(
                    (*self)->StableSwapPool_0,
                    token_in,
                    amount_in,
                    token_out,
                ),
                Err(e) => {
                    let p = (*self)->StableSwapPool_0;
                    &&& (e == ExchangeError::UnknownToken <==> !p.has_token(token_in)
                        || !p.has_token(token_out))
                    &&& (e == ExchangeError::SameToken <==> p.has_token(token_in) && p.has_token(
                        token_out,
                    ) && token_in == token_out)
                    &&& (e == ExchangeError::ZeroAmount <==> p.has_token(token_in) && p.has_token(
                        token_out,
                    ) && token_in != token_out && amount_in == 0)
                    &&& (e == ExchangeError::UnknownToken || e == ExchangeError::SameToken || e
                        == ExchangeError::ZeroAmount || e == ExchangeError::ZeroLiquidity || e
                        == ExchangeError::ComputeDFailed || e == ExchangeError::ComputeYFailed || e
                        == ExchangeError::MathOverflow || e == ExchangeError::InsufficientOutput)
                },
            },
    {
        match self {
            Pool::SimplePool(p) => p.get_return(token_in, amount_in, token_out),
            Pool::StableSwapPool(p) => {
                // quote on a scratch copy; a zero admin rate leaves the
                // output formula untouched
                let mut scratch = p.duplicate();
                let fees = AdminFees::new(0, 0);
                scratch.swap(token_in, amount_in, token_out, 0, &fees)
            },
        }
    }

    /// An independent copy with the same model.
    pub fn duplicate(&self) -> (r: Pool)
        requires
            self.wf(),
        ensures
            r.wf(),
            r.spec_tokens() == self.spec_tokens(),
            r.spec_total_shares() == self.spec_total_shares(),
            forall|a: u64| r.share_of(a) == self.share_of(a),
            forall|a: u64| r.lp_registered(a) == self.lp_registered(a),
            forall|t: u64| r.reserve_of(t) == self.reserve_of(t),
            r is SimplePool <==> self is SimplePool,
            r is SimplePool ==> simple_model_eq(r->SimplePool_0, self->SimplePool_0),
            r is StableSwapPool ==> stable_model_eq(r->StableSwapPool_0, self->StableSwapPool_0),
    {
        match self {
            Pool::SimplePool(p) => Pool::SimplePool(p.duplicate()),
            Pool::StableSwapPool(p) => Pool::StableSwapPool(p.duplicate()),
        }
    }

    /// Opens an empty LP share record; fails when one already exists.
    pub fn share_register(&mut self, account_id: u64) -> (r: Result<(), ExchangeError>)
        requires
            old(self).wf(),
        ensures
            final(self).wf(),
            final(self).spec_tokens() == old(self).spec_tokens(),
            forall|t: u64| final(self).reserve_of(t) == old(self).reserve_of(t),
            final(self).spec_total_shares() == old(self).spec_total_shares(),
            (*final(self)) is SimplePool <==> (*old(self)) is SimplePool,
            (*old(self)) is SimplePool ==> ((*final(self))->SimplePool_0).spec_fee() == ((*old(
                self,
            ))->SimplePool_0).spec_fee(),
            (*old(self)) is StableSwapPool ==> ((*final(self))->StableSwapPool_0).spec_fee() == ((
            *old(self))->StableSwapPool_0).spec_fee() && ((
            *final(self))->StableSwapPool_0).spec_amp() == ((*old(
                self,
            ))->StableSwapPool_0).spec_amp() && ((*final(self))->StableSwapPool_0).spec_decimals()
                == ((*old(self))->StableSwapPool_0).spec_decimals(),
            match r {
                Ok(()) => {
                    &&& !old(self).lp_registered(account_id)
                    &&& final(self).lp_registered(account_id)
                    &&& forall|a: u64| final(self).share_of(a) == old(self).share_of(a)
                },
                Err(e) => {
                    &&& *final(self) == *old(self)
                    &&& e == ExchangeError::LpAlreadyRegistered
                    &&& old(self).lp_registered(account_id)
                },
            },
    {
        match self {
            Pool::SimplePool(p) => p.share_register(account_id),
            Pool::StableSwapPool(p) => p.share_register(account_id),
        }
    }

    /// Moves LP shares between two distinct registered accounts.
    pub fn share_transfer(&mut self, sender: u64, receiver: u64, amount: u128) -> (r: Result<
        (),
        ExchangeError,
    >)
        requires
            old(self).wf(),
        ensures
            final(self).wf(),
            final(self).spec_tokens() == old(self).spec_tokens(),
            forall|t: u64| final(self).reserve_of(t) == old(self).reserve_of(t),
            final(self).spec_total_shares() == old(self).spec_total_shares(),
            match r {
                Ok(()) => {
                    &&& sender != receiver
                    &&& amount <= old(self).share_of(sender)
                    &&& final(self).share_of(sender) == old(self).share_of(sender) - amount
                    &&& final(self).share_of(receiver) == old(self).share_of(receiver) + amount
                    &&& forall|a: u64|
                        a != sender && a != receiver ==> final(self).share_of(a) == old(self).share_of(a)
                },
                Err(e) => {
                    &&& *final(self) == *old(self)
                    &&& (e == ExchangeError::TransferToSelf <==> sender == receiver)
                    &&& (e == ExchangeError::InsufficientLpBalance <==> sender != receiver && (
                    !old(self).lp_registered(sender) || amount > old(self).share_of(sender)))
                    &&& (e == ExchangeError::UnregisteredToken <==> sender != receiver && old(
                        self,
                    ).lp_registered(sender) && amount <= old(self).share_of(sender) && !old(
                        self,
                    ).lp_registered(receiver))
                    &&& (e == ExchangeError::TransferToSelf || e
                        == ExchangeError::InsufficientLpBalance || e
                        == ExchangeError::UnregisteredToken)
                },
            },
    {
        match self {
            Pool::SimplePool(p) => p.share_transfer(sender, receiver, amount),
            Pool::StableSwapPool(p) => p.share_transfer(sender, receiver, amount),
        }
    }

    /// Swaps `amount_in` of `token_in` for at least `min_amount_out` of
    /// `token_out` under the pool's own rule, routing admin fees as shares.
    /// On success the incoming reserve grows by exactly `amount_in` and the
    /// outgoing reserve shrinks by exactly the output; any failure leaves
    /// the pool untouched.
    pub fn swap(
        &mut self,
        token_in: u64,
        amount_in: u128,
        token_out: u64,
        min_amount_out: u128,
        fees: &AdminFees,
    ) -> (r: Result<u128, ExchangeError>)
        requires
            old(self).wf(),
            fees.wf(),
        ensures
            final(self).wf(),
            final(self).spec_tokens() == old(self).spec_tokens(),
            (*final(self)) is SimplePool <==> (*old(self)) is SimplePool,
            match r {
                Ok(out) => {
                    &&& spec_swap_step(
                        *old(self),
                        *final(self),
                        token_in,
                        amount_in,
                        token_out,
                        min_amount_out,
                        *fees,
                        out,
                    )
                    &&& out >= min_amount_out
                    &&& token_in != token_out
                    &&& forall|t: u64|
                        final(self).reserve_of(t) == old(self).reserve_of(t) + (
                        if t == token_in {
                            amount_in as int
                        } else {
                            0int
                        }) - (
                        if t == token_out {
                            out as int
                        } else {
                            0int
                        })
                    &&& ((*old(self)) is SimplePool ==> {
                        let p = (*old(self))->SimplePool_0;
                        &&& crate::simple_pool::spec_swap_error(
                            p,
                            token_in,
                            amount_in,
                            token_out,
                            min_amount_out,
                            *fees,
                        ) is None
                        &&& out == crate::simple_pool::spec_return_amount(
                            p,
                            token_in,
                            amount_in,
                            token_out,
                        )
                    })
                    &&& ((*old(self)) is StableSwapPool ==> Some(out as int)
                        == crate::stable_swap::spec_stable_out(
                        (*old(self))->StableSwapPool_0,
                        token_in,
                        amount_in,
                        token_out,
                    ))
                },
                Err(e) => {
                    &&& *final(self) == *old(self)
                    &&& e != ExchangeError::Paused
                    &&& e != ExchangeError::NoAmount
                    &&& e != ExchangeError::UnknownPool
                    &&& ((*old(self)) is SimplePool ==> crate::simple_pool::spec_swap_error(
                        (*old(self))->SimplePool_0,
                        token_in,
                        amount_in,
                        token_out,
                        min_amount_out,
                        *fees,
                    ) == Some(e))
                },
            },
    {
        match self {
            Pool::SimplePool(p) => {
                let res = p.swap(token_in, amount_in, token_out, min_amount_out, fees);
                proof {
                    if res is Ok {
                        let po = (*old(self))->SimplePool_0;
                        let out = res.unwrap();
                        po.lemma_wf();
                        p.lemma_wf();
                        assert(po.has_token(token_in) && po.has_token(token_out));
                        let i = po.tok_idx(token_in);
                        let o = po.tok_idx(token_out);
                        let x = po.spec_amounts()[i] as int;
                        let y = po.spec_amounts()[o] as int;
                        assert(crate::simple_pool::spec_return_error(
                            po,
                            token_in,
                            amount_in,
                            token_out,
                        ) is None);
                        assert(x >= 1 && y >= 1 && amount_in >= 1);
                        assert(x + amount_in < crate::math::pow128());
                        crate::simple_pool::lemma_swap_out_lt_y(
                            x,
                            y,
                            amount_in as int,
                            po.spec_fee(),
                        );
                        assert(0 <= out < y);
                        assert(i != o);
                        assert(p.spec_amounts() == po.spec_amounts().update(
                            i,
                            (x + amount_in) as u128,
                        ).update(o, (y - out) as u128));
                        assert forall|t: u64|
                            (Pool::SimplePool(*p)).reserve_of(t) == (*old(self)).reserve_of(t) + (
                            if t == token_in {
                                amount_in as int
                            } else {
                                0int
                            }) - (
                            if t == token_out {
                                out as int
                            } else {
                                0int
                            }) by {
                            assert(p.spec_tokens() == po.spec_tokens());
                        }
                    }
                }
                res
            },
            Pool::StableSwapPool(p) => {
                let res = p.swap(token_in, amount_in, token_out, min_amount_out, fees);
                proof {
                    if res is Ok {
                        let po = (*old(self))->StableSwapPool_0;
                        let out = res.unwrap();
                        po.lemma_wf();
                        p.lemma_wf();
                        po.lemma_tok_idx(token_in);
                        po.lemma_tok_idx(token_out);
                        let i = po.tok_idx(token_in);
                        let o = po.tok_idx(token_out);
                        assert(i != o);
                        assert(p.spec_amounts() == po.spec_amounts().update(
                            i,
                            (po.spec_amounts()[i] + amount_in) as u128,
                        ).update(o, (po.spec_amounts()[o] - out) as u128));
                        assert(po.spec_amounts()[o] >= out);
                        assert(po.spec_amounts()[i] + amount_in < crate::math::pow128());
                        assert forall|t: u64|
                            (Pool::StableSwapPool(*p)).reserve_of(t) == (*old(self)).reserve_of(t)
                                + (
                            if t == token_in {
                                amount_in as int
                            } else {
                                0int
                            }) - (
                            if t == token_out {
                                out as int
                            } else {
                                0int
                            }) by {
                            if po.has_token(t) {
                                po.lemma_tok_idx(t);
                                p.lemma_tok_idx(t);
                            } else {
                                if p.has_token(t) {
                                    p.lemma_tok_idx(t);
                                }
                            }
                        }
                    }
                }
                res
            },
        }
    }
}

/// One successful swap on one pool, as the registry sees it: the output
/// meets the minimum, the named reserves move by exactly the traded
/// amounts, and the output is the one the pool kind's own rule owes.
pub open spec fn spec_swap_step(
    p: Pool,
    p2: Pool,
    token_in: u64,
    amount_in: u128,
    token_out: u64,
    min_amount_out: u128,
    fees: AdminFees,
    out: u128,
) -> bool {
    &&& out >= min_amount_out
    &&& token_in != token_out
    &&& p2.wf()
    &&& p2.spec_tokens() == p.spec_tokens()
    &&& (p2 is SimplePool <==> p is SimplePool)
    &&& forall|t: u64|
        p2.reserve_of(t) == p.reserve_of(t) + (
        if t == token_in {
            amount_in as int
        } else {
            0int
        }) - (
        if t == token_out {
            out as int
        } else {
            0int
        })
    &&& (p is SimplePool ==> crate::simple_pool::spec_swap_error(
        p->SimplePool_0,
        token_in,
        amount_in,
        token_out,
        min_amount_out,
        fees,
    ) is None && out == crate::simple_pool::spec_return_amount(
        p->SimplePool_0,
        token_in,
        amount_in,
        token_out,
    ))
    &&& (p is StableSwapPool ==> Some(out as int) == crate::stable_swap::spec_stable_out(
        p->StableSwapPool_0,
        token_in,
        amount_in,
        token_out,
    ))
}

/// Two simple pools with the same model.
pub open spec fn simple_model_eq(a: SimplePool, b: SimplePool) -> bool {
    &&& a.spec_tokens() == b.spec_tokens()
    &&& a.spec_amounts() == b.spec_amounts()
    &&& a.spec_fee() == b.spec_fee()
    &&& a.spec_total_shares() == b.spec_total_shares()
    &&& forall|x: u64| a.share_of(x) == b.share_of(x)
    &&& forall|x: u64| a.lp_registered(x) == b.lp_registered(x)
}

/// Two stable pools with the same model.
pub open spec fn stable_model_eq(a: StableSwapPool, b: StableSwapPool) -> bool {
    &&& a.spec_tokens() == b.spec_tokens()
    &&& a.spec_decimals() == b.spec_decimals()
    &&& a.spec_c_amounts() == b.spec_c_amounts()
    &&& a.spec_amounts() == b.spec_amounts()
    &&& a.spec_amp() == b.spec_amp()
    &&& a.spec_fee() == b.spec_fee()
    &&& a.spec_total_shares() == b.spec_total_shares()
    &&& forall|x: u64| a.share_of(x) == b.share_of(x)
    &&& forall|x: u64| a.lp_registered(x) == b.lp_registered(x)
}

} // verus!
