//! The pool registry and action executor: every pool and every ledger
//! account is owned here, and each operation either commits entirely or
//! reports an error with the observable state unchanged.
//!
//! The conservation contract: for every token, the sum of all ledger
//! balances and all pool reserves moves only by what `deposit` adds and
//! `withdraw` takes out; swaps and liquidity operations never create or
//! destroy value.

use vstd::prelude::*;
use crate::account::Account;
use crate::errors::ExchangeError;
use crate::math::FEE_DIVISOR;
use crate::pool::{AdminFees, Pool};
use crate::simple_pool::SimplePool;
use crate::stable_swap::StableSwapPool;
use crate::table::Table;

verus! {

/// Whether the exchange accepts mutating requests.
#[derive(Clone, Copy, Debug, PartialEq, Eq, Structural)]
pub enum RunningState {
    Running,
    Paused,
}

impl RunningState {
    /// The state's name.
    pub fn as_str(&self) -> (r: &'static str)
        ensures
            *self is Running ==> r@ == "Running"@,
            *self is Paused ==> r@ == "Paused"@,
    {
        match self {
            RunningState::Running => "Running",
            RunningState::Paused => "Paused",
        }
    }
}

/// One step of a swap chain: trade `amount_in` (or the previous step's
/// output) of `token_in` for at least `min_amount_out` of `token_out` on
/// the pool `pool_id`.
pub struct SwapAction {
    pub pool_id: u64,
    pub token_in: u64,
    pub amount_in: Option<u128>,
    pub token_out: u64,
    pub min_amount_out: u128,
}

/// Whether some action of a chain names the pool id.
pub open spec fn spec_actions_touch(actions: Seq<SwapAction>, i: int) -> bool {
    exists|k: int| 0 <= k < actions.len() && actions[k].pool_id == i
}

/// The input amount an action trades: its own, or the previous output.
pub open spec fn spec_action_amount(action: SwapAction, prev: Option<u128>) -> u128 {
    if action.amount_in is Some {
        action.amount_in.unwrap()
    } else {
        prev.unwrap()
    }
}

/// One executor step: the input amount is resolved, debited from the
/// caller's record, swapped on the named pool under that pool's own rule,
/// and the output is credited.
pub open spec fn spec_action_step(
    pools: Seq<Pool>,
    acct: Account,
    pools2: Seq<Pool>,
    acct2: Account,
    action: SwapAction,
    prev: Option<u128>,
    out: u128,
    fees: AdminFees,
) -> bool {
    let amount_in = spec_action_amount(action, prev);
    &&& (action.amount_in is None ==> prev is Some)
    &&& action.pool_id < pools.len()
    &&& acct.registered(action.token_in)
    &&& acct.registered(action.token_out)
    &&& amount_in <= acct.balance_of(action.token_in)
    &&& acct.balance_of(action.token_out) + out < crate::math::pow128()
    &&& crate::pool::spec_swap_step(
        pools[action.pool_id as int],
        pools2[action.pool_id as int],
        action.token_in,
        amount_in,
        action.token_out,
        action.min_amount_out,
        fees,
        out,
    )
    &&& pools2 == pools.update(action.pool_id as int, pools2[action.pool_id as int])
    &&& acct2.wf()
    &&& forall|t: u64|
        acct2.balance_of(t) == acct.balance_of(t) - (
        if t == action.token_in {
            amount_in as int
        } else {
            0int
        }) + (
        if t == action.token_out {
            out as int
        } else {
            0int
        })
    &&& forall|t: u64| acct2.registered(t) == acct.registered(t)
}

/// The executor's fold: the actions are applied strictly left to right,
/// each step seeing the state its predecessor left and, when it names no
/// amount, taking the predecessor's output as its input.
pub open spec fn spec_actions_fold(
    pools: Seq<Pool>,
    acct: Account,
    prev: Option<u128>,
    actions: Seq<SwapAction>,
    fees: AdminFees,
    pools2: Seq<Pool>,
    acct2: Account,
    prev2: Option<u128>,
) -> bool
    decreases actions.len(),
{
    if actions.len() == 0 {
        &&& pools2 == pools
        &&& acct2 == acct
        &&& prev2 == prev
    } else {
        exists|midp: Seq<Pool>, mida: Account, out: u128|
            #![trigger spec_action_step(pools, acct, midp, mida, actions[0], prev, out, fees)]
            spec_action_step(pools, acct, midp, mida, actions[0], prev, out, fees)
                && spec_actions_fold(
                midp,
                mida,
                Some(out),
                actions.drop_first(),
                fees,
                pools2,
                acct2,
                prev2,
            )
    }
}

/// Extending a folded chain by one more successful step folds the longer
/// chain.
proof fn lemma_fold_snoc(
    pools: Seq<Pool>,
    acct: Account,
    prev: Option<u128>,
    actions: Seq<SwapAction>,
    fees: AdminFees,
    pools2: Seq<Pool>,
    acct2: Account,
    prev2: Option<u128>,
    a: SwapAction,
    pools3: Seq<Pool>,
    acct3: Account,
    out: u128,
)
    requires
        spec_actions_fold(pools, acct, prev, actions, fees, pools2, acct2, prev2),
        spec_action_step(pools2, acct2, pools3, acct3, a, prev2, out, fees),
    ensures
        spec_actions_fold(pools, acct, prev, actions.push(a), fees, pools3, acct3, Some(out)),
    decreases actions.len(),
{
    let acts2 = actions.push(a);
    if actions.len() == 0 {
        assert(acts2[0] == a);
        assert(acts2.drop_first() =~= Seq::<SwapAction>::empty());
        assert(spec_action_step(pools, acct, pools3, acct3, acts2[0], prev, out, fees));
        assert(spec_actions_fold(
            pools3,
            acct3,
            Some(out),
            acts2.drop_first(),
            fees,
            pools3,
            acct3,
            Some(out),
        ));
    } else {
        let (midp, mida, midout) = choose|midp: Seq<Pool>, mida: Account, midout: u128|
            #![trigger spec_action_step(pools, acct, midp, mida, actions[0], prev, midout, fees)]
            spec_action_step(pools, acct, midp, mida, actions[0], prev, midout, fees)
                && spec_actions_fold(
                midp,
                mida,
                Some(midout),
                actions.drop_first(),
                fees,
                pools2,
                acct2,
                prev2,
            );
        lemma_fold_snoc(
            midp,
            mida,
            Some(midout),
            actions.drop_first(),
            fees,
            pools2,
            acct2,
            prev2,
            a,
            pools3,
            acct3,
            out,
        );
        assert(acts2.drop_first() =~= actions.drop_first().push(a));
        assert(acts2[0] == actions[0]);
        assert(spec_action_step(pools, acct, midp, mida, acts2[0], prev, midout, fees));
    }
}

/// A successful run of the executor: starting from copies of the caller's
/// record and the registry, the actions fold left to right under
/// [`spec_actions_fold`], and the final registry and the caller's final
/// balances are exactly the fold's outcome, with `out` the last output.
pub open spec fn spec_executed(
    pre: Contract,
    post: Contract,
    sender_id: u64,
    referral_id: Option<u64>,
    actions: Seq<SwapAction>,
    out: u128,
) -> bool {
    exists|pools_start: Seq<Pool>, acct_start: Account, pools_fin: Seq<Pool>, acct_fin: Account|
        #![trigger spec_actions_fold(
            pools_start,
            acct_start,
            None,
            actions,
            pre.spec_admin_fees(referral_id),
            pools_fin,
            acct_fin,
            Some(out),
        )]
        {
            &&& pools_start.len() == pre.num_pools()
            &&& forall|i: int|
                0 <= i < pools_start.len() ==> pool_model_eq(
                    #[trigger] pools_start[i],
                    pre.pool_at(i),
                )
            &&& forall|t: u64| acct_start.balance_of(t) == pre.deposit_of(sender_id, t)
            &&& forall|t: u64| acct_start.registered(t) == pre.token_registered(sender_id, t)
            &&& spec_actions_fold(
                pools_start,
                acct_start,
                None,
                actions,
                pre.spec_admin_fees(referral_id),
                pools_fin,
                acct_fin,
                Some(out),
            )
            &&& pools_fin.len() == post.num_pools()
            &&& forall|i: int| 0 <= i < pools_fin.len() ==> post.pool_at(i) == #[trigger] pools_fin[i]
            &&& forall|t: u64| post.deposit_of(sender_id, t) == acct_fin.balance_of(t)
        }
}

/// The sum of one token's balance over a sequence of accounts.
pub open spec fn sum_acct(s: Seq<Account>, t: u64) -> int
    decreases s.len(),
{
    if s.len() == 0 {
        0
    } else {
        sum_acct(s.drop_last(), t) + s.last().balance_of(t)
    }
}

/// The sum of one token's reserve over a sequence of pools.
pub open spec fn sum_pools(s: Seq<Pool>, t: u64) -> int
    decreases s.len(),
{
    if s.len() == 0 {
        0
    } else {
        sum_pools(s.drop_last(), t) + s.last().reserve_of(t)
    }
}

/// Replacing one account shifts the sum by its balance difference.
pub proof fn lemma_sum_acct_update(s: Seq<Account>, i: int, v: Account, t: u64)
    requires
        0 <= i < s.len(),
    ensures
        sum_acct(s.update(i, v), t) == sum_acct(s, t) - s[i].balance_of(t) + v.balance_of(t),
    decreases s.len(),
{
    let u = s.update(i, v);
    if i == s.len() - 1 {
        assert(u.drop_last() =~= s.drop_last());
        assert(u.last() == v);
    } else {
        assert(u.drop_last() =~= s.drop_last().update(i, v));
        lemma_sum_acct_update(s.drop_last(), i, v, t);
        assert(u.last() == s.last());
    }
}

/// Appending one account adds its balance to the sum.
pub proof fn lemma_sum_acct_push(s: Seq<Account>, v: Account, t: u64)
    ensures
        sum_acct(s.push(v), t) == sum_acct(s, t) + v.balance_of(t),
{
    assert(s.push(v).drop_last() =~= s);
}

/// Replacing one pool shifts the sum by its reserve difference.
pub proof fn lemma_sum_pools_update(s: Seq<Pool>, i: int, v: Pool, t: u64)
    requires
        0 <= i < s.len(),
    ensures
        sum_pools(s.update(i, v), t) == sum_pools(s, t) - s[i].reserve_of(t) + v.reserve_of(t),
    decreases s.len(),
{
    let u = s.update(i, v);
    if i == s.len() - 1 {
        assert(u.drop_last() =~= s.drop_last());
        assert(u.last() == v);
    } else {
        assert(u.drop_last() =~= s.drop_last().update(i, v));
        lemma_sum_pools_update(s.drop_last(), i, v, t);
        assert(u.last() == s.last());
    }
}

/// Appending one pool adds its reserve to the sum.
pub proof fn lemma_sum_pools_push(s: Seq<Pool>, v: Pool, t: u64)
    ensures
        sum_pools(s.push(v), t) == sum_pools(s, t) + v.reserve_of(t),
{
    assert(s.push(v).drop_last() =~= s);
}

/// Two pools with the same observable model.
pub open spec fn pool_model_eq(a: Pool, b: Pool) -> bool {
    &&& a.spec_tokens() == b.spec_tokens()
    &&& a.spec_total_shares() == b.spec_total_shares()
    &&& forall|x: u64| a.share_of(x) == b.share_of(x)
    &&& forall|x: u64| a.lp_registered(x) == b.lp_registered(x)
    &&& forall|t: u64| a.reserve_of(t) == b.reserve_of(t)
}

/// The exchange: a registry of pools, a custody ledger per account, and
/// the governance switches.
pub struct Contract {
    owner_id: u64,
    exchange_id: u64,
    exchange_fee: u32,
    referral_fee: u32,
    pools: Vec<Pool>,
    accounts: Table<Account>,
    state: RunningState,
}

impl Contract {
    /// Well-formed: the ledger and every pool are.
    pub closed spec fn wf(self) -> bool {
        &&& self.accounts.wf()
        &&& forall|i: int|
            0 <= i < self.accounts.vals_seq().len() ==> (
            #[trigger] self.accounts.vals_seq()[i]).wf()
        &&& forall|i: int|
            0 <= i < self.accounts.vals_seq().len() ==> !(
            #[trigger] self.accounts.vals_seq()[i]).spec_auto_register()
        &&& forall|i: int| 0 <= i < self.pools@.len() ==> (#[trigger] self.pools@[i]).wf()
        &&& self.exchange_fee <= FEE_DIVISOR
        &&& self.referral_fee <= FEE_DIVISOR
    }

    /// Whether mutating entry points are accepted.
    pub closed spec fn running(self) -> bool {
        self.state is Running
    }

    /// How many pools the registry holds.
    pub closed spec fn num_pools(self) -> int {
        self.pools@.len() as int
    }

    /// The pool stored under an id.
    pub closed spec fn pool_at(self, i: int) -> Pool {
        self.pools@[i]
    }

    /// Whether the account has a ledger record.
    pub closed spec fn has_account(self, account: u64) -> bool {
        self.accounts.has(account)
    }

    /// An account's available balance of a token; no record counts as zero.
    pub closed spec fn deposit_of(self, account: u64, token: u64) -> int {
        if self.accounts.has(account) {
            self.accounts.spec_get(account).balance_of(token)
        } else {
            0
        }
    }

    /// The total of a token across all ledger balances and pool reserves.
    pub closed spec fn token_total(self, t: u64) -> int {
        sum_acct(self.accounts.vals_seq(), t) + sum_pools(self.pools@, t)
    }

    /// The owner account.
    pub closed spec fn spec_owner(self) -> u64 {
        self.owner_id
    }

    /// The exchange's own account, receiver of admin-fee shares.
    pub closed spec fn spec_exchange_id(self) -> u64 {
        self.exchange_id
    }

    /// The admin-fee rate, in basis points, applied by swaps and stable
    /// liquidity changes.
    pub closed spec fn spec_exchange_fee(self) -> int {
        self.exchange_fee as int
    }

    /// The referral rate, in basis points, carved out of the admin fee.
    pub closed spec fn spec_referral_fee(self) -> int {
        self.referral_fee as int
    }

    /// The admin-fee routing a swap request uses: the stored exchange and
    /// referral rates, the exchange account, and the request's referral.
    pub closed spec fn spec_admin_fees(self, referral_id: Option<u64>) -> AdminFees {
        AdminFees {
            exchange_fee: self.exchange_fee,
            exchange_id: self.exchange_id,
            referral_fee: self.referral_fee,
            referral_id,
        }
    }

    /// The admin-fee routing of a liquidity operation: the exchange rate
    /// only, no referral.
    pub closed spec fn spec_liquidity_fees(self) -> AdminFees {
        AdminFees {
            exchange_fee: self.exchange_fee,
            exchange_id: self.exchange_id,
            referral_fee: 0,
            referral_id: None,
        }
    }

    /// Whether the account has registered the token with its ledger record.
    pub closed spec fn token_registered(self, account: u64, token: u64) -> bool {
        self.accounts.has(account) && self.accounts.spec_get(account).registered(token)
    }

    /// What well-formedness guarantees of the parts: every pool is
    /// well-formed (the pool kinds' own facts follow via their `lemma_wf`),
    /// and the fee rates stay within the divisor.
    pub proof fn lemma_wf_parts(self)
        requires
            self.wf(),
        ensures
            forall|i: int| 0 <= i < self.num_pools() ==> (#[trigger] self.pool_at(i)).wf(),
            0 <= self.spec_exchange_fee() <= FEE_DIVISOR,
            0 <= self.spec_referral_fee() <= FEE_DIVISOR,
    {
    }

    /// A fresh exchange with no pools and no accounts.  Fee rates must stay
    /// within the divisor.
    pub fn new(owner_id: u64, exchange_id: u64, exchange_fee: u32, referral_fee: u32) -> (r:
        Result<Contract, ExchangeError>)
        ensures
            match r {
                Ok(c) => {
                    &&& exchange_fee <= FEE_DIVISOR && referral_fee <= FEE_DIVISOR
                    &&& c.wf()
                    &&& c.running()
                    &&& c.num_pools() == 0
                    &&& c.spec_owner() == owner_id
                    &&& c.spec_exchange_id() == exchange_id
                    &&& c.spec_exchange_fee() == exchange_fee
                    &&& c.spec_referral_fee() == referral_fee
                    &&& forall|a: u64| !c.has_account(a)
                    &&& forall|a: u64, t: u64| c.deposit_of(a, t) == 0
                    &&& forall|t: u64| c.token_total(t) == 0
                },
                Err(e) => {
                    &&& e == ExchangeError::NotAllowed
                    &&& exchange_fee > FEE_DIVISOR || referral_fee > FEE_DIVISOR
                },
            },
    {
        if exchange_fee > FEE_DIVISOR || referral_fee > FEE_DIVISOR {
            return Err(ExchangeError::NotAllowed);
        }
        let c = Contract {
            owner_id,
            exchange_id,
            exchange_fee,
            referral_fee,
            pools: Vec::new(),
            accounts: Table::new(),
            state: RunningState::Running,
        };
        Ok(c)
    }

    /// Pauses or resumes the exchange; only the owner may.
    pub fn set_state(&mut self, caller: u64, state: RunningState) -> (r: Result<
        (),
        ExchangeError,
    >)
        requires
            old(self).wf(),
        ensures
            final(self).wf(),
            final(self).num_pools() == old(self).num_pools(),
            final(self).spec_owner() == old(self).spec_owner(),
            final(self).spec_exchange_id() == old(self).spec_exchange_id(),
            final(self).spec_exchange_fee() == old(self).spec_exchange_fee(),
            final(self).spec_referral_fee() == old(self).spec_referral_fee(),
            forall|i: int|
                0 <= i < old(self).num_pools() ==> final(self).pool_at(i) == old(self).pool_at(i),
            forall|a: u64, t: u64| final(self).deposit_of(a, t) == old(self).deposit_of(a, t),
            forall|t: u64| final(self).token_total(t) == old(self).token_total(t),
            match r {
                Ok(()) => caller == old(self).spec_owner() && final(self).running() == (
                state is Running),
                Err(e) => {
                    &&& *final(self) == *old(self)
                    &&& e == ExchangeError::NotAllowed
                    &&& caller != old(self).spec_owner()
                },
            },
    {
        if caller != self.owner_id {
            return Err(ExchangeError::NotAllowed);
        }
        self.state = state;
        Ok(())
    }

    /// Fails with `Paused` unless the exchange is running.
    fn check_running(&self) -> (r: Result<(), ExchangeError>)
        ensures
            match r {
                Ok(()) => self.running(),
                Err(e) => e == ExchangeError::Paused && !self.running(),
            },
    {
        match self.state {
            RunningState::Running => Ok(()),
            RunningState::Paused => Err(ExchangeError::Paused),
        }
    }

    /// An account's available balance of a token.
    pub fn get_deposit(&self, account_id: u64, token_id: u64) -> (r: u128)
        requires
            self.wf(),
        ensures
            r == self.deposit_of(account_id, token_id),
    {
        match self.accounts.get(account_id) {
            Some(a) => {
                proof {
                    self.accounts.lemma_idx_of(account_id);
                }
                a.get_balance(token_id)
            },
            None => 0,
        }
    }

    /// The LP share supply of a pool.
    pub fn get_pool_total_shares(&self, pool_id: u64) -> (r: Result<u128, ExchangeError>)
        requires
            self.wf(),
        ensures
            match r {
                Ok(v) => pool_id < self.num_pools() && v == self.pool_at(
                    pool_id as int,
                ).spec_total_shares(),
                Err(e) => e == ExchangeError::UnknownPool && pool_id >= self.num_pools(),
            },
    {
        if pool_id >= self.pools.len() as u64 {
            return Err(ExchangeError::UnknownPool);
        }
        let p = &self.pools[pool_id as usize];
        Ok(p.share_total_supply())
    }

    /// An account's LP share balance in a pool.
    pub fn get_pool_shares(&self, pool_id: u64, account_id: u64) -> (r: Result<
        u128,
        ExchangeError,
    >)
        requires
            self.wf(),
        ensures
            match r {
                Ok(v) => pool_id < self.num_pools() && v == self.pool_at(pool_id as int).share_of(
                    account_id,
                ),
                Err(e) => e == ExchangeError::UnknownPool && pool_id >= self.num_pools(),
            },
    {
        if pool_id >= self.pools.len() as u64 {
            return Err(ExchangeError::UnknownPool);
        }
        let p = &self.pools[pool_id as usize];
        Ok(p.share_balance_of(account_id))
    }

    /// Opens a ledger record for the caller if needed and registers the
    /// listed tokens with it.
    pub fn register_tokens(&mut self, sender_id: u64, tokens: &Vec<u64>) -> (r: Result<
        (),
        ExchangeError,
    >)
        requires
            old(self).wf(),
        ensures
            final(self).wf(),
            final(self).running() == old(self).running(),
            final(self).spec_owner() == old(self).spec_owner(),
            final(self).spec_exchange_id() == old(self).spec_exchange_id(),
            final(self).spec_exchange_fee() == old(self).spec_exchange_fee(),
            final(self).spec_referral_fee() == old(self).spec_referral_fee(),
            final(self).num_pools() == old(self).num_pools(),
            forall|i: int|
                0 <= i < old(self).num_pools() ==> final(self).pool_at(i) == old(self).pool_at(i),
            forall|a: u64, t: u64| final(self).deposit_of(a, t) == old(self).deposit_of(a, t),
            forall|t: u64| final(self).token_total(t) == old(self).token_total(t),
            match r {
                Ok(()) => {
                    &&& old(self).running()
                    &&& final(self).has_account(sender_id)
                    &&& forall|t: u64|
                        final(self).token_registered(sender_id, t) == (old(self).token_registered(
                            sender_id,
                            t,
                        ) || tokens@.contains(t))
                    &&& forall|a: u64, t: u64|
                        a != sender_id ==> final(self).token_registered(a, t) == old(
                            self,
                        ).token_registered(a, t)
                },
                Err(e) => *final(self) == *old(self) && e == ExchangeError::Paused && !old(
                    self,
                ).running(),
            },
    {
        if let Err(e) = self.check_running() {
            return Err(e);
        }
        let mut acct = match self.accounts.get(sender_id) {
            Some(a) => {
                proof {
                    self.accounts.lemma_idx_of(sender_id);
                }
                let dup = a.duplicate();
                proof {
                    assert(!dup.spec_auto_register());
                }
                dup
            },
            None => Account::new(false),
        };
        acct.register_tokens(tokens);
        let ghost pre_accounts = self.accounts;
        self.accounts.insert(sender_id, acct);
        proof {
            lemma_ledger_insert(pre_accounts, self.accounts, sender_id);
            lemma_ledger_insert_auto(pre_accounts, self.accounts, sender_id);
        }
        Ok(())
    }

}

impl Contract {
    /// Credits a deposit received for the account; the token must already
    /// be registered with it.
    pub fn deposit(&mut self, sender_id: u64, token_id: u64, amount: u128) -> (r: Result<
        (),
        ExchangeError,
    >)
        requires
            old(self).wf(),
        ensures
            final(self).wf(),
            final(self).running() == old(self).running(),
            final(self).spec_owner() == old(self).spec_owner(),
            final(self).spec_exchange_id() == old(self).spec_exchange_id(),
            final(self).spec_exchange_fee() == old(self).spec_exchange_fee(),
            final(self).spec_referral_fee() == old(self).spec_referral_fee(),
            final(self).num_pools() == old(self).num_pools(),
            forall|i: int|
                0 <= i < old(self).num_pools() ==> final(self).pool_at(i) == old(self).pool_at(i),
            match r {
                Ok(()) => {
                    &&& old(self).running()
                    &&& final(self).deposit_of(sender_id, token_id) == old(self).deposit_of(
                        sender_id,
                        token_id,
                    ) + amount
                    &&& forall|a: u64, t: u64|
                        !(a == sender_id && t == token_id) ==> final(self).deposit_of(a, t) == old(
                            self,
                        ).deposit_of(a, t)
                    &&& forall|t: u64|
                        final(self).token_total(t) == old(self).token_total(t) + (
                        if t == token_id {
                            amount as int
                        } else {
                            0int
                        })
                },
                Err(e) => {
                    &&& *final(self) == *old(self)
                    &&& (e == ExchangeError::Paused <==> !old(self).running())
                    &&& (e == ExchangeError::UnregisteredToken <==> old(self).running() && !old(
                        self,
                    ).token_registered(sender_id, token_id))
                    &&& (e == ExchangeError::MathOverflow <==> old(self).running() && old(
                        self,
                    ).token_registered(sender_id, token_id) && old(self).deposit_of(
                        sender_id,
                        token_id,
                    ) + amount >= crate::math::pow128())
                    &&& (e == ExchangeError::Paused || e == ExchangeError::UnregisteredToken || e
                        == ExchangeError::MathOverflow)
                },
            },
    {
        if let Err(e) = self.check_running() {
            return Err(e);
        }
        let mut acct = match self.accounts.get(sender_id) {
            Some(a) => {
                proof {
                    self.accounts.lemma_idx_of(sender_id);
                }
                let dup = a.duplicate();
                proof {
                    assert(!dup.spec_auto_register());
                }
                dup
            },
            None => {
                return Err(ExchangeError::UnregisteredToken);
            },
        };
        if let Err(e) = acct.deposit(token_id, amount) {
            return Err(e);
        }
        let ghost pre = self.accounts;
        self.accounts.insert(sender_id, acct);
        proof {
            lemma_ledger_insert(pre, self.accounts, sender_id);
        }
        Ok(())
    }

    /// Debits a withdrawal from the account; the host pays the tokens out.
    pub fn withdraw(&mut self, sender_id: u64, token_id: u64, amount: u128) -> (r: Result<
        (),
        ExchangeError,
    >)
        requires
            old(self).wf(),
        ensures
            final(self).wf(),
            final(self).running() == old(self).running(),
            final(self).spec_owner() == old(self).spec_owner(),
            final(self).spec_exchange_id() == old(self).spec_exchange_id(),
            final(self).spec_exchange_fee() == old(self).spec_exchange_fee(),
            final(self).spec_referral_fee() == old(self).spec_referral_fee(),
            final(self).num_pools() == old(self).num_pools(),
            forall|i: int|
                0 <= i < old(self).num_pools() ==> final(self).pool_at(i) == old(self).pool_at(i),
            match r {
                Ok(()) => {
                    &&& old(self).running()
                    &&& amount <= old(self).deposit_of(sender_id, token_id)
                    &&& final(self).deposit_of(sender_id, token_id) == old(self).deposit_of(
                        sender_id,
                        token_id,
                    ) - amount
                    &&& forall|a: u64, t: u64|
                        !(a == sender_id && t == token_id) ==> final(self).deposit_of(a, t) == old(
                            self,
                        ).deposit_of(a, t)
                    &&& forall|t: u64|
                        final(self).token_total(t) == old(self).token_total(t) - (
                        if t == token_id {
                            amount as int
                        } else {
                            0int
                        })
                },
                Err(e) => {
                    &&& *final(self) == *old(self)
                    &&& (e == ExchangeError::Paused <==> !old(self).running())
                    &&& (e == ExchangeError::UnregisteredToken <==> old(self).running() && !old(
                        self,
                    ).token_registered(sender_id, token_id))
                    &&& (e == ExchangeError::InsufficientBalance <==> old(self).running() && old(
                        self,
                    ).token_registered(sender_id, token_id) && amount > old(self).deposit_of(
                        sender_id,
                        token_id,
                    ))
                    &&& (e == ExchangeError::Paused || e == ExchangeError::UnregisteredToken || e
                        == ExchangeError::InsufficientBalance)
                },
            },
    {
        if let Err(e) = self.check_running() {
            return Err(e);
        }
        let mut acct = match self.accounts.get(sender_id) {
            Some(a) => {
                proof {
                    self.accounts.lemma_idx_of(sender_id);
                }
                let dup = a.duplicate();
                proof {
                    assert(!dup.spec_auto_register());
                }
                dup
            },
            None => {
                return Err(ExchangeError::UnregisteredToken);
            },
        };
        if let Err(e) = acct.withdraw(token_id, amount) {
            return Err(e);
        }
        let ghost pre = self.accounts;
        self.accounts.insert(sender_id, acct);
        proof {
            lemma_ledger_insert(pre, self.accounts, sender_id);
        }
        Ok(())
    }

    /// Drops the listed tokens from the caller's ledger record; every one
    /// must be registered with a zero balance.
    pub fn unregister_tokens(&mut self, sender_id: u64, tokens: &Vec<u64>) -> (r: Result<
        (),
        ExchangeError,
    >)
        requires
            old(self).wf(),
        ensures
            final(self).wf(),
            final(self).running() == old(self).running(),
            final(self).spec_owner() == old(self).spec_owner(),
            final(self).spec_exchange_id() == old(self).spec_exchange_id(),
            final(self).spec_exchange_fee() == old(self).spec_exchange_fee(),
            final(self).spec_referral_fee() == old(self).spec_referral_fee(),
            final(self).num_pools() == old(self).num_pools(),
            forall|i: int|
                0 <= i < old(self).num_pools() ==> final(self).pool_at(i) == old(self).pool_at(i),
            forall|t: u64| final(self).token_total(t) == old(self).token_total(t),
            match r {
                Ok(()) => {
                    &&& old(self).running()
                    &&& forall|t: u64|
                        tokens@.contains(t) ==> old(self).token_registered(sender_id, t) && old(
                            self,
                        ).deposit_of(sender_id, t) == 0
                    &&& forall|t: u64|
                        final(self).token_registered(sender_id, t) == (old(self).token_registered(
                            sender_id,
                            t,
                        ) && !tokens@.contains(t))
                    &&& forall|a: u64, t: u64|
                        a != sender_id ==> final(self).token_registered(a, t) == old(
                            self,
                        ).token_registered(a, t)
                    &&& forall|a: u64, t: u64|
                        final(self).deposit_of(a, t) == old(self).deposit_of(a, t)
                },
                Err(e) => {
                    &&& *final(self) == *old(self)
                    &&& (e == ExchangeError::Paused <==> !old(self).running())
                    &&& (e == ExchangeError::UnregisteredToken ==> !old(self).has_account(
                        sender_id,
                    ) || exists|t: u64|
                        #[trigger] tokens@.contains(t) && !old(self).token_registered(
                            sender_id,
                            t,
                        ))
                    &&& (e == ExchangeError::InsufficientBalance ==> exists|t: u64|
                        #[trigger] tokens@.contains(t) && old(self).deposit_of(sender_id, t) != 0)
                    &&& (e == ExchangeError::Paused || e == ExchangeError::UnregisteredToken || e
                        == ExchangeError::InsufficientBalance)
                },
            },
    {
        if let Err(e) = self.check_running() {
            return Err(e);
        }
        let mut acct = match self.accounts.get(sender_id) {
            Some(a) => {
                proof {
                    self.accounts.lemma_idx_of(sender_id);
                }
                let dup = a.duplicate();
                proof {
                    assert(!dup.spec_auto_register());
                }
                dup
            },
            None => {
                return Err(ExchangeError::UnregisteredToken);
            },
        };
        if let Err(e) = acct.unregister_tokens(tokens) {
            return Err(e);
        }
        let ghost pre = self.accounts;
        self.accounts.insert(sender_id, acct);
        proof {
            lemma_ledger_insert(pre, self.accounts, sender_id);
        }
        Ok(())
    }

    /// Adds a constant-product pool over two tokens and returns its id.
    pub fn add_simple_pool(&mut self, tokens: &Vec<u64>, fee: u32) -> (r: Result<
        u64,
        ExchangeError,
    >)
        requires
            old(self).wf(),
        ensures
            final(self).wf(),
            final(self).running() == old(self).running(),
            final(self).spec_owner() == old(self).spec_owner(),
            final(self).spec_exchange_id() == old(self).spec_exchange_id(),
            final(self).spec_exchange_fee() == old(self).spec_exchange_fee(),
            final(self).spec_referral_fee() == old(self).spec_referral_fee(),
            forall|a: u64, t: u64| final(self).deposit_of(a, t) == old(self).deposit_of(a, t),
            forall|t: u64| final(self).token_total(t) == old(self).token_total(t),
            match r {
                Ok(id) => {
                    &&& old(self).running()
                    &&& tokens@.len() == 2
                    &&& tokens@[0] != tokens@[1]
                    &&& fee < FEE_DIVISOR
                    &&& id == old(self).num_pools()
                    &&& final(self).num_pools() == old(self).num_pools() + 1
                    &&& forall|i: int|
                        0 <= i < old(self).num_pools() ==> final(self).pool_at(i) == old(
                            self,
                        ).pool_at(i)
                    &&& final(self).pool_at(id as int) is SimplePool
                    &&& final(self).pool_at(id as int).spec_tokens() == tokens@
                    &&& final(self).pool_at(id as int).spec_total_shares() == 0
                    &&& (final(self).pool_at(id as int)->SimplePool_0).spec_fee() == fee
                    &&& forall|t: u64| final(self).pool_at(id as int).reserve_of(t) == 0
                    &&& final(self).pool_at(id as int).lp_registered(
                        old(self).spec_exchange_id(),
                    )
                },
                Err(e) => {
                    &&& *final(self) == *old(self)
                    &&& (e == ExchangeError::Paused <==> !old(self).running())
                    &&& (e == ExchangeError::WrongTokenCount <==> old(self).running()
                        && tokens@.len() != 2)
                    &&& (e == ExchangeError::TokenDuplicates <==> old(self).running()
                        && tokens@.len() == 2 && tokens@[0] == tokens@[1])
                    &&& (e == ExchangeError::NotAllowed <==> old(self).running() && tokens@.len()
                        == 2 && tokens@[0] != tokens@[1] && fee >= FEE_DIVISOR)
                    &&& (e == ExchangeError::Paused || e == ExchangeError::WrongTokenCount || e
                        == ExchangeError::TokenDuplicates || e == ExchangeError::NotAllowed)
                },
            },
    {
        if let Err(e) = self.check_running() {
            return Err(e);
        }
        let sp = match SimplePool::new(tokens, fee) {
            Ok(p) => p,
            Err(e) => {
                return Err(e);
            },
        };
        let mut pool = Pool::SimplePool(sp);
        let reg = pool.share_register(self.exchange_id);
        proof {
            assert(reg is Ok);
        }
        let id = self.pools.len() as u64;
        let ghost pre_pools = self.pools@;
        self.pools.push(pool);
        proof {
            assert forall|t: u64| final(self).token_total(t) == old(self).token_total(t) by {
                lemma_sum_pools_push(pre_pools, self.pools@.last(), t);
            }
        }
        Ok(id)
    }

    /// Adds a stable-swap pool; only the owner may, because the
    /// configuration needs care.
    pub fn add_stable_swap_pool(
        &mut self,
        caller: u64,
        tokens: &Vec<u64>,
        decimals: &Vec<u8>,
        fee: u32,
        amp_factor: u64,
    ) -> (r: Result<u64, ExchangeError>)
        requires
            old(self).wf(),
        ensures
            final(self).wf(),
            final(self).running() == old(self).running(),
            final(self).spec_owner() == old(self).spec_owner(),
            final(self).spec_exchange_id() == old(self).spec_exchange_id(),
            final(self).spec_exchange_fee() == old(self).spec_exchange_fee(),
            final(self).spec_referral_fee() == old(self).spec_referral_fee(),
            forall|a: u64, t: u64| final(self).deposit_of(a, t) == old(self).deposit_of(a, t),
            forall|t: u64| final(self).token_total(t) == old(self).token_total(t),
            match r {
                Ok(id) => {
                    &&& old(self).running()
                    &&& caller == old(self).spec_owner()
                    &&& 2 <= tokens@.len() <= 4
                    &&& decimals@.len() == tokens@.len()
                    &&& forall|i: int, j: int|
                        0 <= i < j < tokens@.len() ==> tokens@[i] != tokens@[j]
                    &&& forall|i: int|
                        0 <= i < decimals@.len() ==> decimals@[i]
                            <= crate::stable_swap::TARGET_DECIMALS
                    &&& amp_factor >= 1
                    &&& fee < FEE_DIVISOR
                    &&& id == old(self).num_pools()
                    &&& final(self).num_pools() == old(self).num_pools() + 1
                    &&& forall|i: int|
                        0 <= i < old(self).num_pools() ==> final(self).pool_at(i) == old(
                            self,
                        ).pool_at(i)
                    &&& final(self).pool_at(id as int) is StableSwapPool
                    &&& final(self).pool_at(id as int).spec_tokens() == tokens@
                    &&& final(self).pool_at(id as int).spec_total_shares() == 0
                    &&& (final(self).pool_at(id as int)->StableSwapPool_0).spec_fee() == fee
                    &&& (final(self).pool_at(id as int)->StableSwapPool_0).spec_amp()
                        == amp_factor
                    &&& (final(self).pool_at(id as int)->StableSwapPool_0).spec_decimals()
                        == decimals@
                    &&& forall|t: u64| final(self).pool_at(id as int).reserve_of(t) == 0
                    &&& final(self).pool_at(id as int).lp_registered(
                        old(self).spec_exchange_id(),
                    )
                },
                Err(e) => {
                    &&& *final(self) == *old(self)
                    &&& (e == ExchangeError::Paused <==> !old(self).running())
                    &&& (old(self).running() && caller != old(self).spec_owner() ==> e
                        == ExchangeError::NotAllowed)
                    &&& (old(self).running() && caller == old(self).spec_owner() ==> {
                        &&& (e == ExchangeError::WrongTokenCount <==> (tokens@.len() < 2
                            || tokens@.len() > 4 || decimals@.len() != tokens@.len()))
                        &&& (e == ExchangeError::MathOverflow <==> 2 <= tokens@.len() <= 4
                            && decimals@.len() == tokens@.len() && exists|i: int|
                            0 <= i < decimals@.len() && decimals@[i]
                                > crate::stable_swap::TARGET_DECIMALS)
                        &&& (e == ExchangeError::NotAllowed ==> amp_factor < 1 || fee
                            >= FEE_DIVISOR)
                    })
                    &&& (e == ExchangeError::Paused || e == ExchangeError::WrongTokenCount || e
                        == ExchangeError::TokenDuplicates || e == ExchangeError::MathOverflow || e
                        == ExchangeError::NotAllowed)
                },
            },
    {
        if let Err(e) = self.check_running() {
            return Err(e);
        }
        if caller != self.owner_id {
            return Err(ExchangeError::NotAllowed);
        }
        let sp = match StableSwapPool::new(tokens, decimals, amp_factor as u128, fee) {
            Ok(p) => p,
            Err(e) => {
                return Err(e);
            },
        };
        let mut pool = Pool::StableSwapPool(sp);
        let reg = pool.share_register(self.exchange_id);
        proof {
            assert(reg is Ok);
        }
        let id = self.pools.len() as u64;
        let ghost pre_pools = self.pools@;
        self.pools.push(pool);
        proof {
            assert forall|t: u64| final(self).token_total(t) == old(self).token_total(t) by {
                lemma_sum_pools_push(pre_pools, self.pools@.last(), t);
                if self.pools@.last().reserve_of(t) != 0 {
                    let p = self.pools@.last()->StableSwapPool_0;
                    p.lemma_tok_idx(t);
                }
            }
        }
        Ok(id)
    }
}

impl Contract {
    /// Opens an LP share record in a pool for the account.
    pub fn register_lp(&mut self, pool_id: u64, account_id: u64) -> (r: Result<(), ExchangeError>)
        requires
            old(self).wf(),
        ensures
            final(self).wf(),
            final(self).running() == old(self).running(),
            final(self).spec_owner() == old(self).spec_owner(),
            final(self).spec_exchange_id() == old(self).spec_exchange_id(),
            final(self).spec_exchange_fee() == old(self).spec_exchange_fee(),
            final(self).spec_referral_fee() == old(self).spec_referral_fee(),
            final(self).num_pools() == old(self).num_pools(),
            forall|a: u64, t: u64| final(self).deposit_of(a, t) == old(self).deposit_of(a, t),
            forall|t: u64| final(self).token_total(t) == old(self).token_total(t),
            match r {
                Ok(()) => {
                    &&& old(self).running()
                    &&& pool_id < old(self).num_pools()
                    &&& !old(self).pool_at(pool_id as int).lp_registered(account_id)
                    &&& final(self).pool_at(pool_id as int).lp_registered(account_id)
                    &&& forall|a: u64|
                        final(self).pool_at(pool_id as int).share_of(a) == old(self).pool_at(
                            pool_id as int,
                        ).share_of(a)
                    &&& forall|i: int|
                        0 <= i < old(self).num_pools() && i != pool_id ==> final(self).pool_at(i)
                            == old(self).pool_at(i)
                },
                Err(e) => {
                    &&& forall|i: int|
                        0 <= i < old(self).num_pools() ==> pool_model_eq(
                            final(self).pool_at(i),
                            old(self).pool_at(i),
                        )
                    &&& (e == ExchangeError::Paused <==> !old(self).running())
                    &&& (e == ExchangeError::UnknownPool <==> old(self).running() && pool_id
                        >= old(self).num_pools())
                    &&& (e == ExchangeError::LpAlreadyRegistered <==> old(self).running()
                        && pool_id < old(self).num_pools() && old(self).pool_at(
                        pool_id as int,
                    ).lp_registered(account_id))
                    &&& (e == ExchangeError::Paused || e == ExchangeError::UnknownPool || e
                        == ExchangeError::LpAlreadyRegistered)
                },
            },
    {
        if let Err(e) = self.check_running() {
            return Err(e);
        }
        if pool_id >= self.pools.len() as u64 {
            return Err(ExchangeError::UnknownPool);
        }
        let pid = pool_id as usize;
        let ghost pre_pools = self.pools@;
        let mut pool = self.pools.remove(pid);
        let res = pool.share_register(account_id);
        self.pools.insert(pid, pool);
        proof {
            assert(self.pools@ =~= pre_pools.update(pid as int, self.pools@[pid as int]));
            assert forall|t: u64| final(self).token_total(t) == old(self).token_total(t) by {
                lemma_sum_pools_update(pre_pools, pid as int, self.pools@[pid as int], t);
            }
        }
        res
    }

    /// Moves LP shares of a pool between two distinct registered accounts.
    pub fn transfer_shares(
        &mut self,
        sender_id: u64,
        pool_id: u64,
        receiver_id: u64,
        amount: u128,
    ) -> (r: Result<(), ExchangeError>)
        requires
            old(self).wf(),
        ensures
            final(self).wf(),
            final(self).running() == old(self).running(),
            final(self).spec_owner() == old(self).spec_owner(),
            final(self).spec_exchange_id() == old(self).spec_exchange_id(),
            final(self).spec_exchange_fee() == old(self).spec_exchange_fee(),
            final(self).spec_referral_fee() == old(self).spec_referral_fee(),
            final(self).num_pools() == old(self).num_pools(),
            forall|a: u64, t: u64| final(self).deposit_of(a, t) == old(self).deposit_of(a, t),
            forall|t: u64| final(self).token_total(t) == old(self).token_total(t),
            match r {
                Ok(()) => {
                    &&& old(self).running()
                    &&& pool_id < old(self).num_pools()
                    &&& sender_id != receiver_id
                    &&& final(self).pool_at(pool_id as int).share_of(sender_id) == old(
                        self,
                    ).pool_at(pool_id as int).share_of(sender_id) - amount
                    &&& final(self).pool_at(pool_id as int).share_of(receiver_id) == old(
                        self,
                    ).pool_at(pool_id as int).share_of(receiver_id) + amount
                    &&& forall|i: int|
                        0 <= i < old(self).num_pools() && i != pool_id ==> final(self).pool_at(i)
                            == old(self).pool_at(i)
                },
                Err(e) => {
                    &&& forall|i: int|
                        0 <= i < old(self).num_pools() ==> pool_model_eq(
                            final(self).pool_at(i),
                            old(self).pool_at(i),
                        )
                    &&& (e == ExchangeError::Paused <==> !old(self).running())
                    &&& (e == ExchangeError::UnknownPool <==> old(self).running() && pool_id
                        >= old(self).num_pools())
                    &&& (old(self).running() && pool_id < old(self).num_pools() ==> {
                        let p = old(self).pool_at(pool_id as int);
                        &&& (e == ExchangeError::TransferToSelf <==> sender_id == receiver_id)
                        &&& (e == ExchangeError::InsufficientLpBalance <==> sender_id
                            != receiver_id && (!p.lp_registered(sender_id) || amount > p.share_of(
                            sender_id,
                        )))
                        &&& (e == ExchangeError::UnregisteredToken <==> sender_id != receiver_id
                            && p.lp_registered(sender_id) && amount <= p.share_of(sender_id)
                            && !p.lp_registered(receiver_id))
                    })
                    &&& (e == ExchangeError::Paused || e == ExchangeError::UnknownPool || e
                        == ExchangeError::TransferToSelf || e
                        == ExchangeError::InsufficientLpBalance || e
                        == ExchangeError::UnregisteredToken)
                },
            },
    {
        if let Err(e) = self.check_running() {
            return Err(e);
        }
        if pool_id >= self.pools.len() as u64 {
            return Err(ExchangeError::UnknownPool);
        }
        let pid = pool_id as usize;
        let ghost pre_pools = self.pools@;
        let mut pool = self.pools.remove(pid);
        let res = pool.share_transfer(sender_id, receiver_id, amount);
        self.pools.insert(pid, pool);
        proof {
            assert(self.pools@ =~= pre_pools.update(pid as int, self.pools@[pid as int]));
            assert forall|t: u64| final(self).token_total(t) == old(self).token_total(t) by {
                lemma_sum_pools_update(pre_pools, pid as int, self.pools@[pid as int], t);
            }
        }
        res
    }

    /// Quotes a swap on a pool without changing anything.
    pub fn get_return(&self, pool_id: u64, token_in: u64, amount_in: u128, token_out: u64) -> (r:
        Result<u128, ExchangeError>)
        requires
            self.wf(),
        ensures
            match r {
                Ok(out) => {
                    &&& pool_id < self.num_pools()
                    &&& (self.pool_at(pool_id as int) is SimplePool ==> out
                        == crate::simple_pool::spec_return_amount(
                        self.pool_at(pool_id as int)->SimplePool_0,
                        token_in,
                        amount_in,
                        token_out,
                    ))
                    &&& (self.pool_at(pool_id as int) is StableSwapPool ==> Some(out as int)
                        == crate::stable_swap::spec_stable_out(
                        self.pool_at(pool_id as int)->StableSwapPool_0,
                        token_in,
                        amount_in,
                        token_out,
                    ))
                },
                Err(e) => {
                    &&& (e == ExchangeError::UnknownPool <==> pool_id >= self.num_pools())
                    &&& (pool_id < self.num_pools() && self.pool_at(pool_id as int) is SimplePool
                        ==> crate::simple_pool::spec_return_error(
                        self.pool_at(pool_id as int)->SimplePool_0,
                        token_in,
                        amount_in,
                        token_out,
                    ) == Some(e))
                },
            },
    {
        if pool_id >= self.pools.len() as u64 {
            return Err(ExchangeError::UnknownPool);
        }
        let p = &self.pools[pool_id as usize];
        p.get_return(token_in, amount_in, token_out)
    }

    /// The raw reserves of a pool, aligned with its token list.
    pub fn get_pool_amounts(&self, pool_id: u64) -> (r: Result<Vec<u128>, ExchangeError>)
        requires
            self.wf(),
        ensures
            match r {
                Ok(v) => pool_id < self.num_pools() && v@ == self.pool_at(
                    pool_id as int,
                ).spec_reserves(),
                Err(e) => e == ExchangeError::UnknownPool && pool_id >= self.num_pools(),
            },
    {
        if pool_id >= self.pools.len() as u64 {
            return Err(ExchangeError::UnknownPool);
        }
        let p = &self.pools[pool_id as usize];
        Ok(p.get_amounts())
    }

    /// The token list of a pool.
    pub fn get_pool_tokens(&self, pool_id: u64) -> (r: Result<Vec<u64>, ExchangeError>)
        requires
            self.wf(),
        ensures
            match r {
                Ok(v) => pool_id < self.num_pools() && v@ == self.pool_at(
                    pool_id as int,
                ).spec_tokens(),
                Err(e) => e == ExchangeError::UnknownPool && pool_id >= self.num_pools(),
            },
    {
        if pool_id >= self.pools.len() as u64 {
            return Err(ExchangeError::UnknownPool);
        }
        let p = &self.pools[pool_id as usize];
        Ok(p.tokens())
    }

    /// Executes a chain of swap actions on the caller's ledger balances,
    /// each action feeding the next; the whole chain commits or nothing
    /// does.  No token value is created or destroyed.
    #[verifier::spinoff_prover]
    #[verifier::rlimit(60)]
    pub fn execute_actions(
        &mut self,
        sender_id: u64,
        referral_id: Option<u64>,
        actions: &Vec<SwapAction>,
    ) -> (r: Result<u128, ExchangeError>)
        requires
            old(self).wf(),
        ensures
            final(self).wf(),
            final(self).running() == old(self).running(),
            final(self).spec_owner() == old(self).spec_owner(),
            final(self).spec_exchange_id() == old(self).spec_exchange_id(),
            final(self).spec_exchange_fee() == old(self).spec_exchange_fee(),
            final(self).spec_referral_fee() == old(self).spec_referral_fee(),
            final(self).num_pools() == old(self).num_pools(),
            match r {
                Ok(out) => {
                    &&& old(self).running()
                    &&& old(self).has_account(sender_id)
                    &&& actions@.len() > 0
                    &&& out >= actions@.last().min_amount_out
                    &&& spec_executed(
                        *old(self),
                        *final(self),
                        sender_id,
                        referral_id,
                        actions@,
                        out,
                    )
                    &&& forall|i: int|
                        0 <= i < old(self).num_pools() && !spec_actions_touch(actions@, i)
                            ==> pool_model_eq(final(self).pool_at(i), old(self).pool_at(i))
                    &&& forall|t: u64| final(self).token_total(t) == old(self).token_total(t)
                    &&& forall|a: u64, t: u64|
                        a != sender_id ==> final(self).deposit_of(a, t) == old(self).deposit_of(
                            a,
                            t,
                        )
                },
                Err(e) => {
                    &&& *final(self) == *old(self)
                    &&& (e == ExchangeError::Paused <==> !old(self).running())
                    &&& (e == ExchangeError::NoAmount <==> old(self).running() && (actions@.len()
                        == 0 || (old(self).has_account(sender_id)
                        && actions@[0].amount_in is None)))
                    &&& (e == ExchangeError::UnknownPool ==> exists|k: int|
                        0 <= k < actions@.len() && (#[trigger] actions@[k]).pool_id >= old(
                            self,
                        ).num_pools())
                },
            },
    {
        if let Err(e) = self.check_running() {
            return Err(e);
        }
        if actions.len() == 0 {
            return Err(ExchangeError::NoAmount);
        }
        let mut acct = match self.accounts.get(sender_id) {
            Some(a) => {
                proof {
                    self.accounts.lemma_idx_of(sender_id);
                }
                let dup = a.duplicate();
                proof {
                    assert(!dup.spec_auto_register());
                }
                dup
            },
            None => {
                return Err(ExchangeError::UnregisteredToken);
            },
        };
        let ghost acct_start = acct;
        // a scratch copy of the registry; committed only on full success
        let n_pools = self.pools.len();
        let mut pools_new: Vec<Pool> = Vec::new();
        let mut i: usize = 0;
        while i < n_pools
            invariant
                old(self).wf(),
                *self == *old(self),
                i <= n_pools == self.pools@.len(),
                pools_new@.len() == i,
                forall|j: int| 0 <= j < i ==> (#[trigger] pools_new@[j]).wf(),
                forall|j: int, t: u64|
                    0 <= j < i ==> #[trigger] pools_new@[j].reserve_of(t)
                        == self.pools@[j].reserve_of(t),
                forall|j: int|
                    0 <= j < i ==> pool_model_eq(#[trigger] pools_new@[j], self.pools@[j]),
            decreases n_pools - i,
        {
            let p = &self.pools[i];
            pools_new.push(p.duplicate());
            i = i + 1;
        }
        proof {
            lemma_sum_pools_pointwise(pools_new@, self.pools@);
        }
        let ghost pools_start = pools_new@;
        let fees = AdminFees {
            exchange_fee: self.exchange_fee,
            exchange_id: self.exchange_id,
            referral_fee: self.referral_fee,
            referral_id,
        };
        proof {
            assert(fees == old(self).spec_admin_fees(referral_id));
        }
        let n_actions = actions.len();
        let mut k: usize = 0;
        let mut prev: u128 = 0;
        let ghost gprev: Option<u128> = None;
        proof {
            assert(actions@.subrange(0, 0) =~= Seq::<SwapAction>::empty());
        }
        while k < n_actions
            invariant
                old(self).wf(),
                old(self).running(),
                *self == *old(self),
                self.accounts.has(sender_id),
                fees == old(self).spec_admin_fees(referral_id),
                acct.wf(),
                !acct.spec_auto_register(),
                k <= n_actions == actions@.len(),
                pools_new@.len() == self.pools@.len(),
                pools_start.len() == self.pools@.len(),
                forall|j: int| 0 <= j < pools_new@.len() ==> (#[trigger] pools_new@[j]).wf(),
                forall|j: int|
                    0 <= j < pools_new@.len() && !spec_actions_touch(actions@, j)
                        ==> pool_model_eq(#[trigger] pools_new@[j], old(self).pool_at(j)),
                forall|t: u64|
                    acct.balance_of(t) + sum_pools(pools_new@, t) == old(self).deposit_of(
                        sender_id,
                        t,
                    ) + sum_pools(old(self).pools@, t),
                k > 0 ==> prev >= actions@[k - 1].min_amount_out,
                gprev == (if k == 0 {
                    None::<u128>
                } else {
                    Some(prev)
                }),
                spec_actions_fold(
                    pools_start,
                    acct_start,
                    None,
                    actions@.subrange(0, k as int),
                    fees,
                    pools_new@,
                    acct,
                    gprev,
                ),
            decreases n_actions - k,
        {
            let ghost step_pools = pools_new@;
            let ghost step_acct = acct;
            let ghost gprev0 = gprev;
            let action = &actions[k];
            let amount_in = match action.amount_in {
                Some(v) => v,
                None => {
                    if k == 0 {
                        return Err(ExchangeError::NoAmount);
                    }
                    prev
                },
            };
            if action.pool_id >= pools_new.len() as u64 {
                proof {
                    let gk = k as int;
                    assert(0 <= gk < actions@.len() && actions@[gk].pool_id >= old(
                        self,
                    ).num_pools());
                }
                return Err(ExchangeError::UnknownPool);
            }
            let pid = action.pool_id as usize;
            proof {
                let gk = k as int;
                assert(actions@[gk].pool_id == pid);
                assert(spec_actions_touch(actions@, pid as int));
            }
            if let Err(e) = acct.withdraw(action.token_in, amount_in) {
                return Err(e);
            }
            let ghost pools_mid = pools_new@;
            let mut pool = pools_new.remove(pid);
            let res = pool.swap(
                action.token_in,
                amount_in,
                action.token_out,
                action.min_amount_out,
                &fees,
            );
            pools_new.insert(pid, pool);
            proof {
                assert(pools_new@ =~= pools_mid.update(pid as int, pools_new@[pid as int]));
            }
            let out = match res {
                Ok(v) => v,
                Err(e) => {
                    return Err(e);
                },
            };
            proof {
                assert forall|t: u64|
                    sum_pools(pools_new@, t) == sum_pools(pools_mid, t) + (
                    if t == action.token_in {
                        amount_in as int
                    } else {
                        0int
                    }) - (
                    if t == action.token_out {
                        out as int
                    } else {
                        0int
                    }) by {
                    lemma_sum_pools_update(pools_mid, pid as int, pools_new@[pid as int], t);
                }
            }
            if let Err(e) = acct.deposit(action.token_out, out) {
                return Err(e);
            }
            proof {
                assert(spec_action_amount(actions@[k as int], gprev0) == amount_in);
                assert forall|t: u64|
                    acct.balance_of(t) == step_acct.balance_of(t) - (
                    if t == action.token_in {
                        amount_in as int
                    } else {
                        0int
                    }) + (
                    if t == action.token_out {
                        out as int
                    } else {
                        0int
                    }) by {
                }
                assert(spec_action_step(
                    step_pools,
                    step_acct,
                    pools_new@,
                    acct,
                    actions@[k as int],
                    gprev0,
                    out,
                    fees,
                ));
                lemma_fold_snoc(
                    pools_start,
                    acct_start,
                    None,
                    actions@.subrange(0, k as int),
                    fees,
                    step_pools,
                    step_acct,
                    gprev0,
                    actions@[k as int],
                    pools_new@,
                    acct,
                    out,
                );
                assert(actions@.subrange(0, k + 1) =~= actions@.subrange(0, k as int).push(
                    actions@[k as int],
                ));
            }
            prev = out;
            proof {
                gprev = Some(out);
            }
            k = k + 1;
        }
        // commit
        proof {
            assert(actions@.subrange(0, n_actions as int) =~= actions@);
        }
        let ghost pools_fin = pools_new@;
        let ghost acct_fin = acct;
        let ghost pre_accounts = self.accounts;
        self.pools = pools_new;
        self.accounts.insert(sender_id, acct);
        proof {
            lemma_ledger_insert(pre_accounts, self.accounts, sender_id);
            lemma_ledger_insert_auto(pre_accounts, self.accounts, sender_id);
            assert(spec_actions_fold(
                pools_start,
                acct_start,
                None,
                actions@,
                old(self).spec_admin_fees(referral_id),
                pools_fin,
                acct_fin,
                Some(prev),
            ));
            assert(pools_start.len() == old(self).num_pools());
            assert(forall|i: int|
                0 <= i < pools_start.len() ==> pool_model_eq(
                    #[trigger] pools_start[i],
                    old(self).pool_at(i),
                ));
            assert(forall|t: u64|
                acct_start.balance_of(t) == old(self).deposit_of(sender_id, t));
            assert(forall|t: u64|
                acct_start.registered(t) == old(self).token_registered(sender_id, t));
            assert(pools_fin.len() == final(self).num_pools());
            assert(forall|i: int|
                0 <= i < pools_fin.len() ==> final(self).pool_at(i) == #[trigger] pools_fin[i]);
            assert(forall|t: u64|
                final(self).deposit_of(sender_id, t) == acct_fin.balance_of(t));
            assert(spec_executed(
                *old(self),
                *final(self),
                sender_id,
                referral_id,
                actions@,
                prev,
            ));

        }
        Ok(prev)
    }

    /// Executes a chain of swap actions: the entry point for trades.
    pub fn swap(
        &mut self,
        actions: &Vec<SwapAction>,
        referral_id: Option<u64>,
        sender_id: u64,
    ) -> (r: Result<u128, ExchangeError>)
        requires
            old(self).wf(),
        ensures
            final(self).wf(),
            final(self).running() == old(self).running(),
            final(self).spec_owner() == old(self).spec_owner(),
            final(self).spec_exchange_id() == old(self).spec_exchange_id(),
            final(self).spec_exchange_fee() == old(self).spec_exchange_fee(),
            final(self).spec_referral_fee() == old(self).spec_referral_fee(),
            final(self).num_pools() == old(self).num_pools(),
            match r {
                Ok(out) => {
                    &&& old(self).running()
                    &&& old(self).has_account(sender_id)
                    &&& actions@.len() > 0
                    &&& out >= actions@.last().min_amount_out
                    &&& spec_executed(
                        *old(self),
                        *final(self),
                        sender_id,
                        referral_id,
                        actions@,
                        out,
                    )
                    &&& forall|i: int|
                        0 <= i < old(self).num_pools() && !spec_actions_touch(actions@, i)
                            ==> pool_model_eq(final(self).pool_at(i), old(self).pool_at(i))
                    &&& forall|t: u64| final(self).token_total(t) == old(self).token_total(t)
                    &&& forall|a: u64, t: u64|
                        a != sender_id ==> final(self).deposit_of(a, t) == old(self).deposit_of(
                            a,
                            t,
                        )
                },
                Err(e) => {
                    &&& *final(self) == *old(self)
                    &&& (e == ExchangeError::Paused <==> !old(self).running())
                    &&& (e == ExchangeError::NoAmount <==> old(self).running() && (actions@.len()
                        == 0 || (old(self).has_account(sender_id)
                        && actions@[0].amount_in is None)))
                    &&& (e == ExchangeError::UnknownPool ==> exists|k: int|
                        0 <= k < actions@.len() && (#[trigger] actions@[k]).pool_id >= old(
                            self,
                        ).num_pools())
                },
            },
    {
        self.execute_actions(sender_id, referral_id, actions)
    }
}

impl Contract {
    /// Adds balanced liquidity to a constant-product pool from the
    /// caller's ledger balances; returns the minted shares.  The consumed
    /// amounts must reach `min_amounts` where given.
    pub fn add_liquidity(
        &mut self,
        sender_id: u64,
        pool_id: u64,
        amounts: &Vec<u128>,
        min_amounts: Option<Vec<u128>>,
    ) -> (r: Result<u128, ExchangeError>)
        requires
            old(self).wf(),
        ensures
            final(self).wf(),
            final(self).running() == old(self).running(),
            final(self).spec_owner() == old(self).spec_owner(),
            final(self).spec_exchange_id() == old(self).spec_exchange_id(),
            final(self).spec_exchange_fee() == old(self).spec_exchange_fee(),
            final(self).spec_referral_fee() == old(self).spec_referral_fee(),
            final(self).num_pools() == old(self).num_pools(),
            match r {
                Ok(minted) => {
                    &&& old(self).running()
                    &&& pool_id < old(self).num_pools()
                    &&& old(self).pool_at(pool_id as int) is SimplePool
                    &&& final(self).pool_at(pool_id as int) is SimplePool
                    &&& {
                        let po = old(self).pool_at(pool_id as int)->SimplePool_0;
                        let pn = final(self).pool_at(pool_id as int)->SimplePool_0;
                        &&& crate::simple_pool::spec_add_liquidity_error(po, amounts@) is None
                        &&& minted == crate::simple_pool::spec_add_liquidity_mint(po, amounts@)
                        &&& forall|k: int|
                            0 <= k < 2 ==> pn.spec_amounts()[k] == po.spec_amounts()[k]
                                + crate::simple_pool::spec_add_liquidity_taken(po, amounts@, k)
                        &&& forall|k: int|
                            0 <= k < 2 ==> final(self).deposit_of(
                                sender_id,
                                po.spec_tokens()[k],
                            ) == old(self).deposit_of(sender_id, po.spec_tokens()[k])
                                - crate::simple_pool::spec_add_liquidity_taken(po, amounts@, k)
                        &&& forall|a: u64|
                            pn.lp_registered(a) == (po.lp_registered(a) || (a == sender_id
                                && minted > 0))
                        &&& pn.spec_fee() == po.spec_fee()
                        &&& (min_amounts is Some ==> min_amounts.unwrap()@.len() == 2
                            && forall|k: int|
                            0 <= k < 2 ==> crate::simple_pool::spec_add_liquidity_taken(
                                po,
                                amounts@,
                                k,
                            ) >= min_amounts.unwrap()@[k])
                    }
                    &&& final(self).pool_at(pool_id as int).spec_total_shares() == old(
                        self,
                    ).pool_at(pool_id as int).spec_total_shares() + minted
                    &&& final(self).pool_at(pool_id as int).share_of(sender_id) == old(
                        self,
                    ).pool_at(pool_id as int).share_of(sender_id) + minted
                    &&& forall|a: u64|
                        a != sender_id ==> final(self).pool_at(pool_id as int).share_of(a) == old(
                            self,
                        ).pool_at(pool_id as int).share_of(a)
                    &&& forall|i: int|
                        0 <= i < old(self).num_pools() && i != pool_id ==> final(self).pool_at(i)
                            == old(self).pool_at(i)
                    &&& forall|t: u64| final(self).token_total(t) == old(self).token_total(t)
                    &&& forall|a: u64, t: u64|
                        a != sender_id ==> final(self).deposit_of(a, t) == old(self).deposit_of(
                            a,
                            t,
                        )
                },
                Err(e) => {
                    &&& *final(self) == *old(self)
                    &&& (e == ExchangeError::Paused <==> !old(self).running())
                    &&& (e == ExchangeError::UnknownPool <==> old(self).running() && pool_id
                        >= old(self).num_pools())
                    &&& (e == ExchangeError::NotAllowed <==> old(self).running() && pool_id < old(
                        self,
                    ).num_pools() && old(self).pool_at(pool_id as int) is StableSwapPool)
                    &&& (old(self).running() && pool_id < old(self).num_pools() && old(
                        self,
                    ).pool_at(pool_id as int) is SimplePool ==> {
                        let po = old(self).pool_at(pool_id as int)->SimplePool_0;
                        crate::simple_pool::spec_add_liquidity_error(po, amounts@) == Some(e) || (
                        crate::simple_pool::spec_add_liquidity_error(po, amounts@) is None && (e
                            == ExchangeError::WrongTokenCount || e
                            == ExchangeError::InsufficientOutput || e
                            == ExchangeError::UnregisteredToken || e
                            == ExchangeError::InsufficientBalance))
                    })
                    &&& (e == ExchangeError::UnregisteredToken ==> !old(self).has_account(
                        sender_id,
                    ) || exists|k: int|
                        0 <= k < old(self).pool_at(pool_id as int).spec_tokens().len()
                            && !old(self).token_registered(
                            sender_id,
                            #[trigger] old(self).pool_at(pool_id as int).spec_tokens()[k],
                        ))
                    &&& (e == ExchangeError::InsufficientOutput ==> old(self).pool_at(
                        pool_id as int,
                    ) is SimplePool && min_amounts is Some
                        && crate::simple_pool::spec_add_liquidity_error(
                        old(self).pool_at(pool_id as int)->SimplePool_0,
                        amounts@,
                    ) is None && (min_amounts.unwrap()@.len() != 2 || exists|k: int|
                        0 <= k < 2 && crate::simple_pool::spec_add_liquidity_taken(
                            old(self).pool_at(pool_id as int)->SimplePool_0,
                            amounts@,
                            k,
                        ) < #[trigger] min_amounts.unwrap()@[k]))
                    &&& (e == ExchangeError::InsufficientBalance ==> old(self).has_account(
                        sender_id,
                    ) && exists|k: int|
                        0 <= k < 2 && crate::simple_pool::spec_add_liquidity_taken(
                            old(self).pool_at(pool_id as int)->SimplePool_0,
                            amounts@,
                            k,
                        ) > old(self).deposit_of(
                            sender_id,
                            #[trigger] old(self).pool_at(pool_id as int).spec_tokens()[k],
                        ))
                    &&& (e == ExchangeError::WrongTokenCount && old(self).running() && pool_id
                        < old(self).num_pools() && old(self).pool_at(pool_id as int) is SimplePool
                        ==> crate::simple_pool::spec_add_liquidity_error(
                        old(self).pool_at(pool_id as int)->SimplePool_0,
                        amounts@,
                    ) == Some(ExchangeError::WrongTokenCount) || (min_amounts is Some
                        && min_amounts.unwrap()@.len() != 2))
                },
            },
    {
        if let Err(e) = self.check_running() {
            return Err(e);
        }
        if pool_id >= self.pools.len() as u64 {
            return Err(ExchangeError::UnknownPool);
        }
        let pid = pool_id as usize;
        let work = self.pools[pid].duplicate();
        let mut sp = match work {
            Pool::SimplePool(sp) => sp,
            Pool::StableSwapPool(_) => {
                return Err(ExchangeError::NotAllowed);
            },
        };
        proof {
            sp.lemma_wf();
        }
        let tokens = sp.tokens();
        let (taken, minted) = match sp.add_liquidity(sender_id, amounts) {
            Ok(v) => v,
            Err(e) => {
                return Err(e);
            },
        };
        if let Some(mins) = min_amounts {
            if mins.len() != 2 {
                return Err(ExchangeError::WrongTokenCount);
            }
            if taken[0] < mins[0] || taken[1] < mins[1] {
                return Err(ExchangeError::InsufficientOutput);
            }
        }
        // debit the consumed amounts from the caller's ledger record
        let mut acct = match self.accounts.get(sender_id) {
            Some(a) => {
                proof {
                    self.accounts.lemma_idx_of(sender_id);
                }
                let dup = a.duplicate();
                proof {
                    assert(!dup.spec_auto_register());
                }
                dup
            },
            None => {
                return Err(ExchangeError::UnregisteredToken);
            },
        };
        if let Err(e) = acct.withdraw(tokens[0], taken[0]) {
            return Err(e);
        }
        if let Err(e) = acct.withdraw(tokens[1], taken[1]) {
            return Err(e);
        }
        // commit
        let ghost pre_pools = self.pools@;
        let ghost pre_accounts = self.accounts;
        let ghost old_pool = self.pools@[pid as int];
        self.pools.set(pid, Pool::SimplePool(sp));
        self.accounts.insert(sender_id, acct);
        proof {
            lemma_ledger_insert(pre_accounts, self.accounts, sender_id);
            lemma_ledger_insert_auto(pre_accounts, self.accounts, sender_id);
            let po = old_pool->SimplePool_0;
            po.lemma_wf();
            assert forall|t: u64| final(self).token_total(t) == old(self).token_total(t) by {
                lemma_sum_pools_update(pre_pools, pid as int, self.pools@[pid as int], t);
            }
        }
        Ok(minted)
    }

    /// Adds liquidity in any combination to a stable-swap pool from the
    /// caller's ledger balances; fails when fewer than `min_shares` would
    /// be minted.
    pub fn add_stable_liquidity(
        &mut self,
        sender_id: u64,
        pool_id: u64,
        amounts: &Vec<u128>,
        min_shares: u128,
    ) -> (r: Result<u128, ExchangeError>)
        requires
            old(self).wf(),
        ensures
            final(self).wf(),
            final(self).running() == old(self).running(),
            final(self).spec_owner() == old(self).spec_owner(),
            final(self).spec_exchange_id() == old(self).spec_exchange_id(),
            final(self).spec_exchange_fee() == old(self).spec_exchange_fee(),
            final(self).spec_referral_fee() == old(self).spec_referral_fee(),
            final(self).num_pools() == old(self).num_pools(),
            (old(self).running() && pool_id < old(self).num_pools() && old(self).pool_at(
                pool_id as int,
            ) is StableSwapPool && {
                let po = old(self).pool_at(pool_id as int)->StableSwapPool_0;
                &&& amounts@.len() == po.spec_c_amounts().len()
                &&& crate::stable_swap::spec_stable_add_fits(
                    po,
                    amounts@,
                    old(self).spec_liquidity_fees(),
                )
                &&& crate::stable_swap::spec_stable_add_mint(po, amounts@) >= min_shares
                &&& old(self).has_account(sender_id)
                &&& forall|k: int|
                    0 <= k < po.spec_tokens().len() ==> old(self).token_registered(
                        sender_id,
                        #[trigger] po.spec_tokens()[k],
                    )
                &&& forall|k: int|
                    0 <= k < po.spec_tokens().len() ==> (#[trigger] amounts@[k]) <= old(
                        self,
                    ).deposit_of(sender_id, po.spec_tokens()[k])
            }) ==> r is Ok,
            match r {
                Ok(minted) => {
                    &&& old(self).running()
                    &&& pool_id < old(self).num_pools()
                    &&& old(self).pool_at(pool_id as int) is StableSwapPool
                    &&& final(self).pool_at(pool_id as int) is StableSwapPool
                    &&& minted >= min_shares
                    &&& {
                        let po = old(self).pool_at(pool_id as int)->StableSwapPool_0;
                        let pn = final(self).pool_at(pool_id as int)->StableSwapPool_0;
                        &&& amounts@.len() == po.spec_c_amounts().len()
                        &&& pn.spec_tokens() == po.spec_tokens()
                        &&& forall|k: int|
                            0 <= k < po.spec_c_amounts().len() ==> pn.spec_c_amounts()[k]
                                == po.spec_c_amounts()[k] + amounts@[k] * crate::math::pow10(
                                (crate::stable_swap::TARGET_DECIMALS - po.spec_decimals()[k]) as nat,
                            )
                        &&& forall|k: int|
                            0 <= k < po.spec_amounts().len() ==> pn.spec_amounts()[k]
                                == po.spec_amounts()[k] + amounts@[k]
                        &&& (po.spec_total_shares() == 0 ==> Some(minted as int)
                            == crate::stable_swap::spec_compute_d(
                            pn.spec_c_amounts(),
                            po.spec_amp(),
                        ) && pn.spec_total_shares() == minted)
                        &&& (po.spec_total_shares() > 0 ==> {
                            let d0 = crate::stable_swap::spec_compute_d(
                                po.spec_c_amounts(),
                                po.spec_amp(),
                            ).unwrap();
                            let d1 = crate::stable_swap::spec_compute_d(
                                pn.spec_c_amounts(),
                                po.spec_amp(),
                            ).unwrap();
                            let reduced = crate::stable_swap::spec_imbalance_reduced(
                                po.spec_c_amounts(),
                                pn.spec_c_amounts(),
                                d0,
                                d1,
                                po.spec_fee(),
                                po.spec_c_amounts().len(),
                            ).unwrap();
                            let d2 = crate::stable_swap::spec_compute_d(
                                reduced,
                                po.spec_amp(),
                            ).unwrap();
                            let adm = crate::stable_swap::spec_admin_fee_mint(
                                po.spec_total_shares() + minted,
                                d2,
                                d1,
                                old(self).spec_exchange_fee(),
                            );
                            &&& minted == crate::stable_swap::spec_d_growth_mint(
                                po.spec_total_shares(),
                                d0,
                                d2,
                            )
                            &&& pn.spec_total_shares() == po.spec_total_shares() + minted + adm
                            &&& pn.share_of(sender_id) == po.share_of(sender_id) + minted + (
                            if sender_id == old(self).spec_exchange_id() {
                                adm
                            } else {
                                0int
                            })
                            &&& pn.share_of(old(self).spec_exchange_id()) == po.share_of(
                                old(self).spec_exchange_id(),
                            ) + adm + (
                            if sender_id == old(self).spec_exchange_id() {
                                minted as int
                            } else {
                                0int
                            })
                        })
                        &&& forall|k: int|
                            0 <= k < po.spec_tokens().len() ==> final(self).deposit_of(
                                sender_id,
                                po.spec_tokens()[k],
                            ) == old(self).deposit_of(sender_id, po.spec_tokens()[k])
                                - amounts@[k]
                    }
                    &&& forall|i: int|
                        0 <= i < old(self).num_pools() && i != pool_id ==> final(self).pool_at(i)
                            == old(self).pool_at(i)
                    &&& forall|t: u64| final(self).token_total(t) == old(self).token_total(t)
                    &&& forall|a: u64, t: u64|
                        a != sender_id ==> final(self).deposit_of(a, t) == old(self).deposit_of(
                            a,
                            t,
                        )
                },
                Err(e) => {
                    &&& *final(self) == *old(self)
                    &&& (e == ExchangeError::Paused <==> !old(self).running())
                    &&& (e == ExchangeError::UnknownPool <==> old(self).running() && pool_id
                        >= old(self).num_pools())
                    &&& (e == ExchangeError::NotAllowed <==> old(self).running() && pool_id < old(
                        self,
                    ).num_pools() && old(self).pool_at(pool_id as int) is SimplePool)
                    &&& (old(self).running() && pool_id < old(self).num_pools() && old(
                        self,
                    ).pool_at(pool_id as int) is StableSwapPool ==> (e
                        == ExchangeError::WrongTokenCount <==> amounts@.len() != old(self).pool_at(
                        pool_id as int,
                    )->StableSwapPool_0.spec_c_amounts().len()))
                    &&& (e == ExchangeError::UnregisteredToken ==> !old(self).has_account(
                        sender_id,
                    ) || exists|k: int|
                        0 <= k < old(self).pool_at(pool_id as int).spec_tokens().len()
                            && !old(self).token_registered(
                            sender_id,
                            #[trigger] old(self).pool_at(pool_id as int).spec_tokens()[k],
                        ))
                    &&& (e == ExchangeError::InsufficientBalance ==> old(self).has_account(
                        sender_id,
                    ) && exists|k: int|
                        0 <= k < old(self).pool_at(pool_id as int).spec_tokens().len()
                            && (#[trigger] amounts@[k]) > old(self).deposit_of(
                            sender_id,
                            old(self).pool_at(pool_id as int).spec_tokens()[k],
                        ))
                },
            },
    {
        if let Err(e) = self.check_running() {
            return Err(e);
        }
        if pool_id >= self.pools.len() as u64 {
            return Err(ExchangeError::UnknownPool);
        }
        let pid = pool_id as usize;
        let work = self.pools[pid].duplicate();
        let mut sp = match work {
            Pool::StableSwapPool(sp) => sp,
            Pool::SimplePool(_) => {
                return Err(ExchangeError::NotAllowed);
            },
        };
        proof {
            sp.lemma_wf();
        }
        let tokens = sp.tokens();
        let ghost po = old(self).pool_at(pid as int)->StableSwapPool_0;
        let fees = AdminFees::new(self.exchange_fee, self.exchange_id);
        proof {
            assert(fees == old(self).spec_liquidity_fees());
            crate::stable_swap::lemma_stable_specs_model_eq(po, sp, sender_id, amounts@, fees);
        }
        let minted = match sp.add_stable_liquidity(sender_id, amounts, min_shares, &fees) {
            Ok(v) => v,
            Err(e) => {
                return Err(e);
            },
        };
        // debit the deposited amounts from the caller's ledger record
        let mut acct = match self.accounts.get(sender_id) {
            Some(a) => {
                proof {
                    self.accounts.lemma_idx_of(sender_id);
                }
                let dup = a.duplicate();
                proof {
                    assert(!dup.spec_auto_register());
                }
                dup
            },
            None => {
                return Err(ExchangeError::UnregisteredToken);
            },
        };
        let n = tokens.len();
        let ghost acct0 = acct;
        let mut i: usize = 0;
        while i < n
            invariant
                old(self).wf(),
                old(self).running(),
                *self == *old(self),
                self.accounts.has(sender_id),
                pool_id < old(self).num_pools(),
                old(self).pool_at(pool_id as int) is StableSwapPool,
                amounts@.len() == old(self).pool_at(
                    pool_id as int,
                )->StableSwapPool_0.spec_c_amounts().len(),
                tokens@ == old(self).pool_at(pool_id as int).spec_tokens(),
                acct.wf(),
                !acct.spec_auto_register(),
                i <= n == tokens@.len(),
                amounts@.len() == n,
                forall|a: int, b: int|
                    0 <= a < b < tokens@.len() ==> tokens@[a] != tokens@[b],
                forall|t: u64| acct0.balance_of(t) == old(self).deposit_of(sender_id, t),
                forall|t: u64|
                    acct0.registered(t) == old(self).token_registered(sender_id, t),
                forall|t: u64| acct.registered(t) == acct0.registered(t),
                forall|t: u64|
                    acct.balance_of(t) == acct0.balance_of(t) - sum_withdrawn(
                        tokens@,
                        amounts@,
                        t,
                        i as int,
                    ),
            decreases n - i,
        {
            proof {
                lemma_sum_withdrawn_step(tokens@, amounts@, i as int);
            }
            if let Err(e) = acct.withdraw(tokens[i], amounts[i]) {
                proof {
                    let gi = i as int;
                    lemma_sum_withdrawn_only(tokens@, amounts@, tokens@[gi], gi, gi);
                    assert(acct.balance_of(tokens@[gi]) == acct0.balance_of(tokens@[gi]));
                    if e == ExchangeError::UnregisteredToken {
                        assert(!old(self).token_registered(sender_id, tokens@[gi]));
                    }
                    if e == ExchangeError::InsufficientBalance {
                        assert(amounts@[gi] > old(self).deposit_of(sender_id, tokens@[gi]));
                    }
                }
                return Err(e);
            }
            proof {
                assert forall|t: u64|
                    acct.balance_of(t) == acct0.balance_of(t) - sum_withdrawn(
                        tokens@,
                        amounts@,
                        t,
                        i + 1,
                    ) by {
                    lemma_sum_withdrawn_step(tokens@, amounts@, i as int);
                }
            }
            i = i + 1;
        }
        // commit
        let ghost pre_pools = self.pools@;
        let ghost pre_accounts = self.accounts;
        let ghost old_pool = self.pools@[pid as int];
        self.pools.set(pid, Pool::StableSwapPool(sp));
        self.accounts.insert(sender_id, acct);
        proof {
            lemma_ledger_insert(pre_accounts, self.accounts, sender_id);
            lemma_ledger_insert_auto(pre_accounts, self.accounts, sender_id);
            let po = old_pool->StableSwapPool_0;
            po.lemma_wf();
            assert forall|t: u64| final(self).token_total(t) == old(self).token_total(t) by {
                lemma_sum_pools_update(pre_pools, pid as int, self.pools@[pid as int], t);
                (self.pools@[pid as int]->StableSwapPool_0).lemma_wf();
                lemma_stable_reserve_delta(po, self.pools@[pid as int]->StableSwapPool_0, amounts@, t);
            }
            assert forall|k: int| 0 <= k < po.spec_tokens().len() implies final(self).deposit_of(
                sender_id,
                po.spec_tokens()[k],
            ) == old(self).deposit_of(sender_id, po.spec_tokens()[k]) - amounts@[k] by {
                lemma_sum_withdrawn_only(
                    tokens@,
                    amounts@,
                    tokens@[k],
                    k,
                    tokens@.len() as int,
                );
            }
        }
        Ok(minted)
    }
}

impl Contract {
    /// Burns the caller's LP shares of a pool for the proportional payout
    /// of every reserve, credited to the caller's ledger balances.
    #[verifier::spinoff_prover]
    #[verifier::rlimit(60)]
    pub fn remove_liquidity(
        &mut self,
        sender_id: u64,
        pool_id: u64,
        shares: u128,
        min_amounts: &Vec<u128>,
    ) -> (r: Result<Vec<u128>, ExchangeError>)
        requires
            old(self).wf(),
        ensures
            final(self).wf(),
            final(self).running() == old(self).running(),
            final(self).spec_owner() == old(self).spec_owner(),
            final(self).spec_exchange_id() == old(self).spec_exchange_id(),
            final(self).spec_exchange_fee() == old(self).spec_exchange_fee(),
            final(self).spec_referral_fee() == old(self).spec_referral_fee(),
            final(self).num_pools() == old(self).num_pools(),
            match r {
                Ok(paid) => {
                    &&& old(self).running()
                    &&& pool_id < old(self).num_pools()
                    &&& shares > 0
                    &&& shares <= old(self).pool_at(pool_id as int).share_of(sender_id)
                    &&& paid@.len() == old(self).pool_at(pool_id as int).spec_tokens().len()
                    &&& min_amounts@.len() == paid@.len()
                    &&& forall|k: int|
                        0 <= k < paid@.len() ==> paid@[k] >= min_amounts@[k]
                    &&& final(self).pool_at(pool_id as int).spec_total_shares() == old(
                        self,
                    ).pool_at(pool_id as int).spec_total_shares() - shares
                    &&& final(self).pool_at(pool_id as int).share_of(sender_id) == old(
                        self,
                    ).pool_at(pool_id as int).share_of(sender_id) - shares
                    &&& forall|a: u64|
                        a != sender_id ==> final(self).pool_at(pool_id as int).share_of(a) == old(
                            self,
                        ).pool_at(pool_id as int).share_of(a)
                    &&& forall|a: u64|
                        final(self).pool_at(pool_id as int).lp_registered(a) == old(self).pool_at(
                            pool_id as int,
                        ).lp_registered(a)
                    &&& ((old(self).pool_at(pool_id as int)) is SimplePool ==> {
                        let po = old(self).pool_at(pool_id as int)->SimplePool_0;
                        let pn = final(self).pool_at(pool_id as int)->SimplePool_0;
                        &&& forall|k: int|
                            0 <= k < 2 ==> #[trigger] paid@[k]
                                == crate::simple_pool::spec_payout(
                                shares as int,
                                po.spec_amounts()[k] as int,
                                po.spec_total_shares(),
                            )
                        &&& forall|k: int|
                            0 <= k < 2 ==> pn.spec_amounts()[k] == po.spec_amounts()[k]
                                - paid@[k]
                    })
                    &&& ((old(self).pool_at(pool_id as int)) is StableSwapPool ==> {
                        let po = old(self).pool_at(pool_id as int)->StableSwapPool_0;
                        let pn = final(self).pool_at(pool_id as int)->StableSwapPool_0;
                        forall|k: int|
                            0 <= k < po.spec_c_amounts().len() ==> {
                                let c_pay = crate::simple_pool::spec_payout(
                                    shares as int,
                                    po.spec_c_amounts()[k] as int,
                                    po.spec_total_shares(),
                                );
                                &&& #[trigger] paid@[k] == c_pay / crate::math::pow10(
                                    (crate::stable_swap::TARGET_DECIMALS
                                        - po.spec_decimals()[k]) as nat,
                                )
                                &&& pn.spec_c_amounts()[k] == po.spec_c_amounts()[k] - c_pay
                                &&& pn.spec_amounts()[k] == po.spec_amounts()[k] - paid@[k]
                            }
                    })
                    &&& forall|k: int|
                        0 <= k < paid@.len() ==> final(self).deposit_of(
                            sender_id,
                            old(self).pool_at(pool_id as int).spec_tokens()[k],
                        ) == old(self).deposit_of(
                            sender_id,
                            old(self).pool_at(pool_id as int).spec_tokens()[k],
                        ) + paid@[k]
                    &&& forall|i: int|
                        0 <= i < old(self).num_pools() && i != pool_id ==> final(self).pool_at(i)
                            == old(self).pool_at(i)
                    &&& forall|t: u64| final(self).token_total(t) == old(self).token_total(t)
                    &&& forall|a: u64, t: u64|
                        a != sender_id ==> final(self).deposit_of(a, t) == old(self).deposit_of(
                            a,
                            t,
                        )
                },
                Err(e) => {
                    &&& *final(self) == *old(self)
                    &&& (e == ExchangeError::Paused <==> !old(self).running())
                    &&& (e == ExchangeError::UnknownPool <==> old(self).running() && pool_id
                        >= old(self).num_pools())
                    &&& (old(self).running() && pool_id < old(self).num_pools() && (old(
                        self,
                    ).pool_at(pool_id as int)) is SimplePool ==> (
                    crate::simple_pool::SimplePool::spec_remove_error(
                        old(self).pool_at(pool_id as int)->SimplePool_0,
                        sender_id,
                        shares,
                        min_amounts@,
                    ) == Some(e) || (crate::simple_pool::SimplePool::spec_remove_error(
                        old(self).pool_at(pool_id as int)->SimplePool_0,
                        sender_id,
                        shares,
                        min_amounts@,
                    ) is None && (e == ExchangeError::UnregisteredToken || e
                        == ExchangeError::MathOverflow))))
                    &&& (e == ExchangeError::UnregisteredToken ==> !old(self).has_account(
                        sender_id,
                    ) || exists|k: int|
                        0 <= k < old(self).pool_at(pool_id as int).spec_tokens().len()
                            && !old(self).token_registered(
                            sender_id,
                            #[trigger] old(self).pool_at(pool_id as int).spec_tokens()[k],
                        ))
                    &&& (e == ExchangeError::MathOverflow && old(self).running() && pool_id < old(
                        self,
                    ).num_pools() && old(self).pool_at(pool_id as int) is SimplePool ==> exists|
                        k: int,
                    |
                        0 <= k < 2 && old(self).deposit_of(
                            sender_id,
                            #[trigger] old(self).pool_at(pool_id as int).spec_tokens()[k],
                        ) + crate::simple_pool::spec_payout(
                            shares as int,
                            (old(self).pool_at(pool_id as int)->SimplePool_0).spec_amounts()[k] as int,
                            old(self).pool_at(pool_id as int).spec_total_shares(),
                        ) >= crate::math::pow128())
                    &&& (old(self).running() && pool_id < old(self).num_pools() && old(
                        self,
                    ).pool_at(pool_id as int) is StableSwapPool ==> {
                        let po = old(self).pool_at(pool_id as int)->StableSwapPool_0;
                        &&& (e == ExchangeError::WrongTokenCount <==> min_amounts@.len()
                            != po.spec_c_amounts().len())
                        &&& (e == ExchangeError::ZeroAmount <==> min_amounts@.len()
                            == po.spec_c_amounts().len() && shares == 0)
                        &&& (e == ExchangeError::InsufficientLpBalance <==> min_amounts@.len()
                            == po.spec_c_amounts().len() && shares > 0 && shares > po.share_of(
                            sender_id,
                        ))
                        &&& (e == ExchangeError::InsufficientOutput ==> exists|k: int|
                            0 <= k < po.spec_c_amounts().len()
                                && #[trigger] min_amounts@[k] > crate::simple_pool::spec_payout(
                                shares as int,
                                po.spec_c_amounts()[k] as int,
                                po.spec_total_shares(),
                            ) / crate::math::pow10(
                                (crate::stable_swap::TARGET_DECIMALS
                                    - po.spec_decimals()[k]) as nat,
                            ))
                    })
                },
            },
    {
        if let Err(e) = self.check_running() {
            return Err(e);
        }
        if pool_id >= self.pools.len() as u64 {
            return Err(ExchangeError::UnknownPool);
        }
        let pid = pool_id as usize;
        let work = self.pools[pid].duplicate();
        let (tokens, paid, committed): (Vec<u64>, Vec<u128>, Pool) = match work {
            Pool::SimplePool(mut sp) => {
                proof {
                    sp.lemma_wf();
                }
                let tokens = sp.tokens();
                let paid = match sp.remove_liquidity(sender_id, shares, min_amounts) {
                    Ok(v) => v,
                    Err(e) => {
                        return Err(e);
                    },
                };
                (tokens, paid, Pool::SimplePool(sp))
            },
            Pool::StableSwapPool(mut sp) => {
                proof {
                    sp.lemma_wf();
                }
                let tokens = sp.tokens();
                let paid = match sp.remove_liquidity(sender_id, shares, min_amounts) {
                    Ok(v) => v,
                    Err(e) => {
                        return Err(e);
                    },
                };
                (tokens, paid, Pool::StableSwapPool(sp))
            },
        };
        // credit the payouts to the caller's ledger record
        let mut acct = match self.accounts.get(sender_id) {
            Some(a) => {
                proof {
                    self.accounts.lemma_idx_of(sender_id);
                }
                let dup = a.duplicate();
                proof {
                    assert(!dup.spec_auto_register());
                }
                dup
            },
            None => {
                return Err(ExchangeError::UnregisteredToken);
            },
        };
        let n = tokens.len();
        let ghost acct0 = acct;
        let mut i: usize = 0;
        #[verifier::loop_isolation(false)]
        while i < n
            invariant
                acct.wf(),
                !acct.spec_auto_register(),
                i <= n,
                forall|t: u64|
                    acct.balance_of(t) == acct0.balance_of(t) + sum_withdrawn(
                        tokens@,
                        paid@,
                        t,
                        i as int,
                    ),
                forall|t: u64| acct0.registered(t) ==> acct.registered(t),
            decreases n - i,
        {
            proof {
                lemma_sum_withdrawn_step(tokens@, paid@, i as int);
            }
            if let Err(e) = acct.deposit(tokens[i], paid[i]) {
                proof {
                    let gi = i as int;
                    if e == ExchangeError::UnregisteredToken {
                        assert(!old(self).token_registered(sender_id, tokens@[gi]));
                    }
                    if e == ExchangeError::MathOverflow {
                        lemma_sum_withdrawn_only(tokens@, paid@, tokens@[gi], gi, gi);
                        assert(acct.balance_of(tokens@[gi]) == acct0.balance_of(tokens@[gi]));
                        assert(old(self).deposit_of(sender_id, tokens@[gi]) + paid@[gi]
                            >= crate::math::pow128());
                    }
                }
                return Err(e);
            }
            proof {
                assert forall|t: u64|
                    acct.balance_of(t) == acct0.balance_of(t) + sum_withdrawn(
                        tokens@,
                        paid@,
                        t,
                        i + 1,
                    ) by {
                    lemma_sum_withdrawn_step(tokens@, paid@, i as int);
                }
            }
            i = i + 1;
        }
        // commit
        let ghost pre_pools = self.pools@;
        let ghost pre_accounts = self.accounts;
        let ghost old_pool = self.pools@[pid as int];
        self.pools.set(pid, committed);
        self.accounts.insert(sender_id, acct);
        proof {
            lemma_ledger_insert(pre_accounts, self.accounts, sender_id);
            lemma_ledger_insert_auto(pre_accounts, self.accounts, sender_id);
            let po_any = old_pool;
            assert forall|k: int| 0 <= k < tokens@.len() implies final(self).deposit_of(
                sender_id,
                tokens@[k],
            ) == old(self).deposit_of(sender_id, tokens@[k]) + paid@[k] by {
                lemma_sum_withdrawn_only(tokens@, paid@, tokens@[k], k, tokens@.len() as int);
            }
            assert forall|t: u64| final(self).token_total(t) == old(self).token_total(t) by {
                lemma_sum_pools_update(pre_pools, pid as int, self.pools@[pid as int], t);
                if old_pool is SimplePool {
                    let po = old_pool->SimplePool_0;
                    po.lemma_wf();
                    (self.pools@[pid as int]->SimplePool_0).lemma_wf();
                    lemma_simple_reserve_delta_sub(
                        po,
                        self.pools@[pid as int]->SimplePool_0,
                        paid@,
                        t,
                    );
                } else {
                    let po = old_pool->StableSwapPool_0;
                    po.lemma_wf();
                    (self.pools@[pid as int]->StableSwapPool_0).lemma_wf();
                    lemma_stable_reserve_delta_sub(
                        po,
                        self.pools@[pid as int]->StableSwapPool_0,
                        paid@,
                        t,
                    );
                }
            }
        }
        Ok(paid)
    }

    /// Removes an exact token combination from a stable-swap pool, burning
    /// at most `max_burn_shares` of the caller's shares; the withdrawn
    /// amounts are credited to the caller's ledger balances.
    pub fn remove_liquidity_by_tokens(
        &mut self,
        sender_id: u64,
        pool_id: u64,
        amounts: &Vec<u128>,
        max_burn_shares: u128,
    ) -> (r: Result<u128, ExchangeError>)
        requires
            old(self).wf(),
        ensures
            final(self).wf(),
            final(self).running() == old(self).running(),
            final(self).spec_owner() == old(self).spec_owner(),
            final(self).spec_exchange_id() == old(self).spec_exchange_id(),
            final(self).spec_exchange_fee() == old(self).spec_exchange_fee(),
            final(self).spec_referral_fee() == old(self).spec_referral_fee(),
            final(self).num_pools() == old(self).num_pools(),
            (old(self).running() && pool_id < old(self).num_pools() && old(self).pool_at(
                pool_id as int,
            ) is StableSwapPool && {
                let po = old(self).pool_at(pool_id as int)->StableSwapPool_0;
                &&& amounts@.len() == po.spec_c_amounts().len()
                &&& crate::stable_swap::spec_stable_remove_fits(
                    po,
                    sender_id,
                    amounts@,
                    old(self).spec_liquidity_fees(),
                )
                &&& crate::stable_swap::spec_stable_burn(po, amounts@) <= max_burn_shares
                &&& old(self).has_account(sender_id)
                &&& forall|k: int|
                    0 <= k < po.spec_tokens().len() ==> old(self).token_registered(
                        sender_id,
                        #[trigger] po.spec_tokens()[k],
                    )
                &&& forall|k: int|
                    0 <= k < po.spec_tokens().len() ==> old(self).deposit_of(
                        sender_id,
                        #[trigger] po.spec_tokens()[k],
                    ) + amounts@[k] < crate::math::pow128()
            }) ==> r is Ok,
            match r {
                Ok(burned) => {
                    &&& old(self).running()
                    &&& pool_id < old(self).num_pools()
                    &&& old(self).pool_at(pool_id as int) is StableSwapPool
                    &&& final(self).pool_at(pool_id as int) is StableSwapPool
                    &&& burned <= max_burn_shares
                    &&& {
                        let po = old(self).pool_at(pool_id as int)->StableSwapPool_0;
                        let pn = final(self).pool_at(pool_id as int)->StableSwapPool_0;
                        let d0 = crate::stable_swap::spec_compute_d(
                            po.spec_c_amounts(),
                            po.spec_amp(),
                        ).unwrap();
                        let d1 = crate::stable_swap::spec_compute_d(
                            pn.spec_c_amounts(),
                            po.spec_amp(),
                        ).unwrap();
                        let reduced = crate::stable_swap::spec_imbalance_reduced(
                            po.spec_c_amounts(),
                            pn.spec_c_amounts(),
                            d0,
                            d1,
                            po.spec_fee(),
                            po.spec_c_amounts().len(),
                        ).unwrap();
                        let d2 = crate::stable_swap::spec_compute_d(
                            reduced,
                            po.spec_amp(),
                        ).unwrap();
                        let ts = po.spec_total_shares();
                        let adm = crate::stable_swap::spec_admin_fee_mint(
                            ts - burned,
                            d2,
                            d1,
                            old(self).spec_exchange_fee(),
                        );
                        &&& amounts@.len() == po.spec_c_amounts().len()
                        &&& forall|k: int|
                            0 <= k < po.spec_c_amounts().len() ==> pn.spec_c_amounts()[k]
                                == po.spec_c_amounts()[k] - amounts@[k] * crate::math::pow10(
                                (crate::stable_swap::TARGET_DECIMALS - po.spec_decimals()[k]) as nat,
                            )
                        &&& forall|k: int|
                            0 <= k < po.spec_amounts().len() ==> pn.spec_amounts()[k]
                                == po.spec_amounts()[k] - amounts@[k]
                        &&& burned == (if d0 > d2 {
                            (ts * (d0 - d2) + d0 - 1) / d0
                        } else {
                            0int
                        })
                        &&& pn.spec_total_shares() == ts - burned + adm
                        &&& pn.share_of(sender_id) == po.share_of(sender_id) - burned + (
                        if sender_id == old(self).spec_exchange_id() {
                            adm
                        } else {
                            0int
                        })
                        &&& forall|k: int|
                            0 <= k < po.spec_tokens().len() ==> final(self).deposit_of(
                                sender_id,
                                po.spec_tokens()[k],
                            ) == old(self).deposit_of(sender_id, po.spec_tokens()[k])
                                + amounts@[k]
                    }
                    &&& forall|i: int|
                        0 <= i < old(self).num_pools() && i != pool_id ==> final(self).pool_at(i)
                            == old(self).pool_at(i)
                    &&& forall|t: u64| final(self).token_total(t) == old(self).token_total(t)
                    &&& forall|a: u64, t: u64|
                        a != sender_id ==> final(self).deposit_of(a, t) == old(self).deposit_of(
                            a,
                            t,
                        )
                },
                Err(e) => {
                    &&& *final(self) == *old(self)
                    &&& (e == ExchangeError::Paused <==> !old(self).running())
                    &&& (e == ExchangeError::UnknownPool <==> old(self).running() && pool_id
                        >= old(self).num_pools())
                    &&& (e == ExchangeError::NotAllowed <==> old(self).running() && pool_id < old(
                        self,
                    ).num_pools() && old(self).pool_at(pool_id as int) is SimplePool)
                    &&& (old(self).running() && pool_id < old(self).num_pools() && old(
                        self,
                    ).pool_at(pool_id as int) is StableSwapPool ==> (e
                        == ExchangeError::WrongTokenCount <==> amounts@.len() != old(self).pool_at(
                        pool_id as int,
                    )->StableSwapPool_0.spec_c_amounts().len()))
                    &&& (e == ExchangeError::UnregisteredToken ==> !old(self).has_account(
                        sender_id,
                    ) || exists|k: int|
                        0 <= k < old(self).pool_at(pool_id as int).spec_tokens().len()
                            && !old(self).token_registered(
                            sender_id,
                            #[trigger] old(self).pool_at(pool_id as int).spec_tokens()[k],
                        ))
                },
            },
    {
        if let Err(e) = self.check_running() {
            return Err(e);
        }
        if pool_id >= self.pools.len() as u64 {
            return Err(ExchangeError::UnknownPool);
        }
        let pid = pool_id as usize;
        let work = self.pools[pid].duplicate();
        let mut sp = match work {
            Pool::StableSwapPool(sp) => sp,
            Pool::SimplePool(_) => {
                return Err(ExchangeError::NotAllowed);
            },
        };
        proof {
            sp.lemma_wf();
        }
        let tokens = sp.tokens();
        let ghost po = old(self).pool_at(pid as int)->StableSwapPool_0;
        let fees = AdminFees::new(self.exchange_fee, self.exchange_id);
        proof {
            assert(fees == old(self).spec_liquidity_fees());
            crate::stable_swap::lemma_stable_specs_model_eq(po, sp, sender_id, amounts@, fees);
        }
        let burned = match sp.remove_liquidity_by_tokens(sender_id, amounts, max_burn_shares,
            &fees) {
            Ok(v) => v,
            Err(e) => {
                return Err(e);
            },
        };
        // credit the withdrawn amounts to the caller's ledger record
        let mut acct = match self.accounts.get(sender_id) {
            Some(a) => {
                proof {
                    self.accounts.lemma_idx_of(sender_id);
                }
                let dup = a.duplicate();
                proof {
                    assert(!dup.spec_auto_register());
                }
                dup
            },
            None => {
                return Err(ExchangeError::UnregisteredToken);
            },
        };
        let n = tokens.len();
        let ghost acct0 = acct;
        let mut i: usize = 0;
        while i < n
            invariant
                old(self).wf(),
                old(self).running(),
                *self == *old(self),
                self.accounts.has(sender_id),
                pool_id < old(self).num_pools(),
                old(self).pool_at(pool_id as int) is StableSwapPool,
                amounts@.len() == old(self).pool_at(
                    pool_id as int,
                )->StableSwapPool_0.spec_c_amounts().len(),
                tokens@ == old(self).pool_at(pool_id as int).spec_tokens(),
                acct.wf(),
                !acct.spec_auto_register(),
                i <= n == tokens@.len(),
                amounts@.len() == n,
                forall|a: int, b: int|
                    0 <= a < b < tokens@.len() ==> tokens@[a] != tokens@[b],
                forall|t: u64| acct0.balance_of(t) == old(self).deposit_of(sender_id, t),
                forall|t: u64|
                    acct0.registered(t) == old(self).token_registered(sender_id, t),
                forall|t: u64| acct0.registered(t) ==> acct.registered(t),
                forall|t: u64|
                    acct.balance_of(t) == acct0.balance_of(t) + sum_withdrawn(
                        tokens@,
                        amounts@,
                        t,
                        i as int,
                    ),
            decreases n - i,
        {
            proof {
                lemma_sum_withdrawn_step(tokens@, amounts@, i as int);
            }
            if let Err(e) = acct.deposit(tokens[i], amounts[i]) {
                proof {
                    let gi = i as int;
                    if e == ExchangeError::UnregisteredToken {
                        assert(!old(self).token_registered(sender_id, tokens@[gi]));
                    }
                    if e == ExchangeError::MathOverflow {
                        lemma_sum_withdrawn_only(tokens@, amounts@, tokens@[gi], gi, gi);
                        assert(old(self).deposit_of(sender_id, tokens@[gi]) + amounts@[gi]
                            >= crate::math::pow128());
                    }
                }
                return Err(e);
            }
            proof {
                assert forall|t: u64|
                    acct.balance_of(t) == acct0.balance_of(t) + sum_withdrawn(
                        tokens@,
                        amounts@,
                        t,
                        i + 1,
                    ) by {
                    lemma_sum_withdrawn_step(tokens@, amounts@, i as int);
                }
            }
            i = i + 1;
        }
        // commit
        let ghost pre_pools = self.pools@;
        let ghost pre_accounts = self.accounts;
        let ghost old_pool = self.pools@[pid as int];
        self.pools.set(pid, Pool::StableSwapPool(sp));
        self.accounts.insert(sender_id, acct);
        proof {
            lemma_ledger_insert(pre_accounts, self.accounts, sender_id);
            lemma_ledger_insert_auto(pre_accounts, self.accounts, sender_id);
            assert forall|t: u64| final(self).token_total(t) == old(self).token_total(t) by {
                lemma_sum_pools_update(pre_pools, pid as int, self.pools@[pid as int], t);
                let po = old_pool->StableSwapPool_0;
                po.lemma_wf();
                (self.pools@[pid as int]->StableSwapPool_0).lemma_wf();
                lemma_stable_reserve_delta_sub(
                    po,
                    self.pools@[pid as int]->StableSwapPool_0,
                    amounts@,
                    t,
                );
            }
            let po2 = old_pool->StableSwapPool_0;
            po2.lemma_wf();
            assert forall|k: int| 0 <= k < po2.spec_tokens().len() implies final(self).deposit_of(
                sender_id,
                po2.spec_tokens()[k],
            ) == old(self).deposit_of(sender_id, po2.spec_tokens()[k]) + amounts@[k] by {
                lemma_sum_withdrawn_only(
                    tokens@,
                    amounts@,
                    tokens@[k],
                    k,
                    tokens@.len() as int,
                );
            }
        }
        Ok(burned)
    }
}

/// A stable pool whose raw reserves each shrank by the withdrawn amount
/// has, for every token, a reserve exactly `sum_withdrawn` lower.
proof fn lemma_stable_reserve_delta_sub(
    before: StableSwapPool,
    after: StableSwapPool,
    amounts: Seq<u128>,
    t: u64,
)
    requires
        before.wf(),
        after.wf(),
        after.spec_tokens() == before.spec_tokens(),
        amounts.len() == before.spec_amounts().len(),
        after.spec_amounts().len() == before.spec_amounts().len(),
        forall|k: int|
            0 <= k < before.spec_amounts().len() ==> after.spec_amounts()[k]
                == before.spec_amounts()[k] - amounts[k],
    ensures
        (Pool::StableSwapPool(after)).reserve_of(t) == (Pool::StableSwapPool(before)).reserve_of(
            t,
        ) - sum_withdrawn(before.spec_tokens(), amounts, t, before.spec_tokens().len() as int),
{
    before.lemma_wf();
    if before.has_token(t) {
        before.lemma_tok_idx(t);
        after.lemma_tok_idx(t);
        let k = before.tok_idx(t);
        lemma_sum_withdrawn_only(
            before.spec_tokens(),
            amounts,
            t,
            k,
            before.spec_tokens().len() as int,
        );
    } else {
        lemma_sum_withdrawn_absent(
            before.spec_tokens(),
            amounts,
            t,
            before.spec_tokens().len() as int,
        );
    }
}

/// A simple pool whose reserves each shrank by the paid amount has, for
/// every token, a reserve exactly `sum_withdrawn` lower.
proof fn lemma_simple_reserve_delta_sub(
    before: SimplePool,
    after: SimplePool,
    paid: Seq<u128>,
    t: u64,
)
    requires
        before.wf(),
        after.wf(),
        after.spec_tokens() == before.spec_tokens(),
        paid.len() == 2,
        forall|k: int|
            0 <= k < 2 ==> after.spec_amounts()[k] == before.spec_amounts()[k] - paid[k],
    ensures
        (Pool::SimplePool(after)).reserve_of(t) == (Pool::SimplePool(before)).reserve_of(t)
            - sum_withdrawn(before.spec_tokens(), paid, t, 2),
{
    before.lemma_wf();
    after.lemma_wf();
    let toks = before.spec_tokens();
    assert(sum_withdrawn(toks, paid, t, 0) == 0);
    assert(sum_withdrawn(toks, paid, t, 1) == sum_withdrawn(toks, paid, t, 0) + (
    if toks[0] == t {
        paid[0] as int
    } else {
        0int
    }));
    assert(sum_withdrawn(toks, paid, t, 2) == sum_withdrawn(toks, paid, t, 1) + (
    if toks[1] == t {
        paid[1] as int
    } else {
        0int
    }));
    if toks[0] == t {
        assert(sum_withdrawn(toks, paid, t, 2) == paid[0]);
    } else if toks[1] == t {
        assert(sum_withdrawn(toks, paid, t, 2) == paid[1]);
    } else {
        assert(sum_withdrawn(toks, paid, t, 2) == 0);
    }
}

/// The amount withdrawn for token `t` among the first `i` positions of a
/// deposit over distinct tokens.
pub open spec fn sum_withdrawn(tokens: Seq<u64>, amounts: Seq<u128>, t: u64, i: int) -> int
    decreases i,
{
    if i <= 0 {
        0
    } else {
        sum_withdrawn(tokens, amounts, t, i - 1) + (
        if tokens[i - 1] == t {
            amounts[i - 1] as int
        } else {
            0int
        })
    }
}

/// One more position adds exactly its own token's amount.
proof fn lemma_sum_withdrawn_step(tokens: Seq<u64>, amounts: Seq<u128>, i: int)
    requires
        0 <= i,
    ensures
        forall|t: u64|
            sum_withdrawn(tokens, amounts, t, i + 1) == sum_withdrawn(tokens, amounts, t, i) + (
            if tokens[i] == t {
                amounts[i] as int
            } else {
                0int
            }),
{
}

/// A stable pool whose raw reserves each grew by the deposited amount has,
/// for every token, a reserve exactly `sum_withdrawn` higher.
proof fn lemma_stable_reserve_delta(
    before: StableSwapPool,
    after: StableSwapPool,
    amounts: Seq<u128>,
    t: u64,
)
    requires
        before.wf(),
        after.wf(),
        after.spec_tokens() == before.spec_tokens(),
        amounts.len() == before.spec_amounts().len(),
        after.spec_amounts().len() == before.spec_amounts().len(),
        forall|k: int|
            0 <= k < before.spec_amounts().len() ==> after.spec_amounts()[k]
                == before.spec_amounts()[k] + amounts[k],
    ensures
        (Pool::StableSwapPool(after)).reserve_of(t) == (Pool::StableSwapPool(before)).reserve_of(
            t,
        ) + sum_withdrawn(before.spec_tokens(), amounts, t, before.spec_tokens().len() as int),
{
    before.lemma_wf();
    if before.has_token(t) {
        before.lemma_tok_idx(t);
        after.lemma_tok_idx(t);
        let k = before.tok_idx(t);
        lemma_sum_withdrawn_only(before.spec_tokens(), amounts, t, k, before.spec_tokens().len() as int);
    } else {
        lemma_sum_withdrawn_absent(before.spec_tokens(), amounts, t, before.spec_tokens().len() as int);
    }
}

/// With distinct tokens, the withdrawal sum for a held token is exactly
/// that token's own amount.
proof fn lemma_sum_withdrawn_only(tokens: Seq<u64>, amounts: Seq<u128>, t: u64, k: int, i: int)
    requires
        0 <= k < tokens.len(),
        tokens[k] == t,
        forall|a: int, b: int| 0 <= a < b < tokens.len() ==> tokens[a] != tokens[b],
        0 <= i <= tokens.len(),
    ensures
        sum_withdrawn(tokens, amounts, t, i) == if k < i {
            amounts[k] as int
        } else {
            0int
        },
    decreases i,
{
    if i > 0 {
        lemma_sum_withdrawn_only(tokens, amounts, t, k, i - 1);
    }
}

/// The withdrawal sum for a token the pool does not hold is zero.
proof fn lemma_sum_withdrawn_absent(tokens: Seq<u64>, amounts: Seq<u128>, t: u64, i: int)
    requires
        !tokens.contains(t),
        0 <= i <= tokens.len(),
    ensures
        sum_withdrawn(tokens, amounts, t, i) == 0,
    decreases i,
{
    if i > 0 {
        lemma_sum_withdrawn_absent(tokens, amounts, t, i - 1);
        assert(tokens[i - 1] != t);
    }
}

/// Pools with pointwise-equal reserves have equal reserve sums.
proof fn lemma_sum_pools_pointwise(a: Seq<Pool>, b: Seq<Pool>)
    requires
        a.len() == b.len(),
        forall|j: int, t: u64|
            0 <= j < a.len() ==> #[trigger] a[j].reserve_of(t) == b[j].reserve_of(t),
    ensures
        forall|t: u64| sum_pools(a, t) == sum_pools(b, t),
    decreases a.len(),
{
    if a.len() > 0 {
        assert forall|j: int, t: u64|
            0 <= j < a.drop_last().len() implies #[trigger] a.drop_last()[j].reserve_of(t)
            == b.drop_last()[j].reserve_of(t) by {
            assert(a.drop_last()[j] == a[j]);
            assert(b.drop_last()[j] == b[j]);
        }
        lemma_sum_pools_pointwise(a.drop_last(), b.drop_last());
        assert forall|t: u64| sum_pools(a, t) == sum_pools(b, t) by {
            assert(sum_pools(a, t) == sum_pools(a.drop_last(), t) + a.last().reserve_of(t));
            assert(sum_pools(b, t) == sum_pools(b.drop_last(), t) + b.last().reserve_of(t));
            assert(sum_pools(a.drop_last(), t) == sum_pools(b.drop_last(), t));
            assert(a.last() == a[a.len() - 1] && b.last() == b[a.len() - 1]);
            assert(a[a.len() - 1].reserve_of(t) == b[a.len() - 1].reserve_of(t));
        }
    }
}

/// The balance a ledger table holds for an account and token.
pub open spec fn ledger_balance(tbl: Table<Account>, a: u64, t: u64) -> int {
    if tbl.has(a) {
        tbl.spec_get(a).balance_of(t)
    } else {
        0
    }
}

/// Storing one account moves each token's ledger sum by exactly that
/// account's balance change and leaves every other account alone.
proof fn lemma_ledger_insert(before: Table<Account>, after: Table<Account>, k: u64)
    requires
        before.wf(),
        after.wf(),
        after.has(k),
        before.has(k) ==> after.keys_seq() == before.keys_seq() && after.vals_seq()
            == before.vals_seq().update(before.idx_of(k), after.spec_get(k)),
        !before.has(k) ==> after.keys_seq() == before.keys_seq().push(k) && after.vals_seq()
            == before.vals_seq().push(after.spec_get(k)),
    ensures
        forall|a: u64, t: u64|
            a != k ==> ledger_balance(after, a, t) == ledger_balance(before, a, t),
        forall|a: u64| a != k ==> after.has(a) == before.has(a),
        forall|a: u64|
            a != k && before.has(a) ==> after.spec_get(a) == before.spec_get(a),
        forall|t: u64|
            sum_acct(after.vals_seq(), t) == sum_acct(before.vals_seq(), t) - ledger_balance(
                before,
                k,
                t,
            ) + after.spec_get(k).balance_of(t),
{
    if before.has(k) {
        before.lemma_idx_of(k);
        assert forall|t: u64|
            sum_acct(after.vals_seq(), t) == sum_acct(before.vals_seq(), t) - ledger_balance(
                before,
                k,
                t,
            ) + after.spec_get(k).balance_of(t) by {
            lemma_sum_acct_update(
                before.vals_seq(),
                before.idx_of(k),
                after.spec_get(k),
                t,
            );
        }
    } else {
        assert forall|t: u64|
            sum_acct(after.vals_seq(), t) == sum_acct(before.vals_seq(), t) - ledger_balance(
                before,
                k,
                t,
            ) + after.spec_get(k).balance_of(t) by {
            lemma_sum_acct_push(before.vals_seq(), after.spec_get(k), t);
        }
    }
    assert forall|a: u64, t: u64| a != k implies ledger_balance(after, a, t) == ledger_balance(
        before,
        a,
        t,
    ) by {
        lemma_other_account(before, after, k, a);
    }
    assert forall|a: u64| a != k implies after.has(a) == before.has(a) by {
        lemma_other_account(before, after, k, a);
    }
    assert forall|a: u64| a != k && before.has(a) implies after.spec_get(a) == before.spec_get(
        a,
    ) by {
        lemma_other_account(before, after, k, a);
    }
}

/// Storing an account that does not auto-register keeps the whole ledger
/// free of auto-registering accounts.
proof fn lemma_ledger_insert_auto(before: Table<Account>, after: Table<Account>, k: u64)
    requires
        before.wf(),
        after.wf(),
        after.has(k),
        before.has(k) ==> after.keys_seq() == before.keys_seq() && after.vals_seq()
            == before.vals_seq().update(before.idx_of(k), after.spec_get(k)),
        !before.has(k) ==> after.keys_seq() == before.keys_seq().push(k) && after.vals_seq()
            == before.vals_seq().push(after.spec_get(k)),
        forall|i: int|
            0 <= i < before.vals_seq().len() ==> !(
            #[trigger] before.vals_seq()[i]).spec_auto_register(),
        !after.spec_get(k).spec_auto_register(),
    ensures
        forall|i: int|
            0 <= i < after.vals_seq().len() ==> !(
            #[trigger] after.vals_seq()[i]).spec_auto_register(),
{
    after.lemma_idx_of(k);
    assert forall|i: int| 0 <= i < after.vals_seq().len() implies !(
    #[trigger] after.vals_seq()[i]).spec_auto_register() by {
        if i != after.idx_of(k) {
            if before.has(k) {
                before.lemma_idx_of(k);
            } else {
                assert(after.vals_seq()[i] == before.vals_seq()[i]);
            }
        }
    }
}

/// Storing under one ledger account leaves every other account's record
/// intact.
proof fn lemma_other_account(before: Table<Account>, after: Table<Account>, k: u64, u: u64)
    requires
        before.wf(),
        after.wf(),
        after.has(k),
        before.has(k) ==> after.keys_seq() == before.keys_seq() && after.vals_seq()
            == before.vals_seq().update(before.idx_of(k), after.spec_get(k)),
        !before.has(k) ==> after.keys_seq() == before.keys_seq().push(k) && after.vals_seq()
            == before.vals_seq().push(after.spec_get(k)),
        u != k,
    ensures
        after.has(u) == before.has(u),
        before.has(u) ==> after.spec_get(u) == before.spec_get(u),
{
    crate::table::lemma_insert_other(before, after, k, after.spec_get(k), u);
}

} // verus!
