//! The internal custody ledger of one account: a balance per registered
//! token.
//!
//! Balances never go negative and never wrap; a withdrawal beyond the
//! available amount fails and leaves the account unchanged.

use vstd::prelude::*;
use crate::errors::ExchangeError;
use crate::math::pow128;
use crate::table::Table;

verus! {

/// One user's token balances.
pub struct Account {
    tokens: Table<u128>,
    auto_register: bool,
}

impl Account {
    /// Well-formed: the balance table is well-formed.
    pub closed spec fn wf(self) -> bool {
        self.tokens.wf()
    }

    /// Whether the account has registered the token.
    pub closed spec fn registered(self, token: u64) -> bool {
        self.tokens.has(token)
    }

    /// Whether deposits may register a token on the fly.
    pub closed spec fn spec_auto_register(self) -> bool {
        self.auto_register
    }

    /// The available balance of a token; an unregistered token counts as zero.
    pub closed spec fn balance_of(self, token: u64) -> int {
        if self.tokens.has(token) {
            self.tokens.spec_get(token) as int
        } else {
            0
        }
    }

    /// A fresh account with no registered tokens.
    pub fn new(auto_register: bool) -> (r: Account)
        ensures
            r.wf(),
            r.spec_auto_register() == auto_register,
            forall|t: u64| !r.registered(t),
            forall|t: u64| r.balance_of(t) == 0,
    {
        Account { tokens: Table::new(), auto_register }
    }

    /// The available balance of a token, zero when unregistered.
    pub fn get_balance(&self, token: u64) -> (r: u128)
        requires
            self.wf(),
        ensures
            r == self.balance_of(token),
    {
        match self.tokens.get(token) {
            Some(b) => *b,
            None => 0,
        }
    }

    /// Whether the token is registered with this account.
    pub fn is_registered(&self, token: u64) -> (r: bool)
        requires
            self.wf(),
        ensures
            r == self.registered(token),
    {
        self.tokens.contains_key(token)
    }

    /// An independent copy with the same balances.
    pub fn duplicate(&self) -> (r: Account)
        requires
            self.wf(),
        ensures
            r.wf(),
            r.spec_auto_register() == self.spec_auto_register(),
            forall|t: u64| r.registered(t) == self.registered(t),
            forall|t: u64| r.balance_of(t) == self.balance_of(t),
    {
        Account { tokens: self.tokens.duplicate(), auto_register: self.auto_register }
    }

    /// Registers every listed token, keeping existing balances.
    pub fn register_tokens(&mut self, tokens: &Vec<u64>)
        requires
            old(self).wf(),
        ensures
            final(self).wf(),
            final(self).spec_auto_register() == old(self).spec_auto_register(),
            forall|t: u64|
                final(self).registered(t) == (old(self).registered(t) || tokens@.contains(t)),
            forall|t: u64| final(self).balance_of(t) == old(self).balance_of(t),
    {
        let n = tokens.len();
        let mut i: usize = 0;
        while i < n
            invariant
                self.wf(),
                self.spec_auto_register() == old(self).spec_auto_register(),
                i <= n == tokens@.len(),
                forall|t: u64|
                    self.registered(t) == (old(self).registered(t) || tokens@.subrange(
                        0,
                        i as int,
                    ).contains(t)),
                forall|t: u64| self.balance_of(t) == old(self).balance_of(t),
            decreases n - i,
        {
            let ghost pre = *self;
            let t = tokens[i];
            if !self.tokens.contains_key(t) {
                self.tokens.insert(t, 0);
            }
            proof {
                lemma_subrange_extend(tokens@, i as int);
                assert forall|u: u64|
                    self.registered(u) == (old(self).registered(u) || tokens@.subrange(
                        0,
                        i + 1,
                    ).contains(u)) by {
                    if u != t {
                        if !pre.tokens.has(t) {
                            crate::table::lemma_insert_other(pre.tokens, self.tokens, t, 0, u);
                        }
                    } else {
                        assert(tokens@.subrange(0, i + 1)[i as int] == t);
                        assert(tokens@.subrange(0, i + 1).contains(t));
                    }
                }
                assert forall|u: u64| self.balance_of(u) == old(self).balance_of(u) by {
                    if u != t {
                        if !pre.tokens.has(t) {
                            crate::table::lemma_insert_other(pre.tokens, self.tokens, t, 0, u);
                        }
                    } else {
                        if !pre.tokens.has(t) {
                            assert(self.balance_of(t) == 0);
                            assert(!old(self).registered(t));
                        }
                    }
                }
            }
            i = i + 1;
        }
        proof {
            assert(tokens@.subrange(0, n as int) =~= tokens@);
        }
    }

    /// Credits a token balance.  Fails with `UnregisteredToken` when the
    /// token is unknown and auto-registration is off, and with
    /// `MathOverflow` when the balance would exceed `u128`.
    pub fn deposit(&mut self, token: u64, amount: u128) -> (r: Result<(), ExchangeError>)
        requires
            old(self).wf(),
        ensures
            final(self).wf(),
            final(self).spec_auto_register() == old(self).spec_auto_register(),
            match r {
                Ok(()) => {
                    &&& old(self).registered(token) || old(self).spec_auto_register()
                    &&& old(self).balance_of(token) + amount < pow128()
                    &&& final(self).balance_of(token) == old(self).balance_of(token) + amount
                    &&& final(self).registered(token)
                    &&& forall|t: u64|
                        t != token ==> final(self).balance_of(t) == old(self).balance_of(t)
                    &&& forall|t: u64|
                        t != token ==> final(self).registered(t) == old(self).registered(t)
                },
                Err(e) => {
                    &&& *final(self) == *old(self)
                    &&& (e == ExchangeError::UnregisteredToken <==> !old(self).registered(token)
                        && !old(self).spec_auto_register())
                    &&& (e == ExchangeError::MathOverflow <==> (old(self).registered(token)
                        || old(self).spec_auto_register()) && old(self).balance_of(token) + amount
                        >= pow128())
                    &&& (e == ExchangeError::UnregisteredToken || e == ExchangeError::MathOverflow)
                },
            },
    {
        let registered = self.tokens.contains_key(token);
        if !registered && !self.auto_register {
            return Err(ExchangeError::UnregisteredToken);
        }
        let bal = self.get_balance(token);
        match bal.checked_add(amount) {
            Some(nb) => {
                self.tokens.insert(token, nb);
                proof {
                    assert forall|t: u64| t != token implies (self.balance_of(t) == old(self).balance_of(t) && self.registered(t) == old(self).registered(t)) by {
                        crate::table::lemma_insert_other(old(self).tokens, self.tokens, token, nb, t);
                    }
                }
                Ok(())
            },
            None => Err(ExchangeError::MathOverflow),
        }
    }

    /// Debits a token balance.  Fails with `UnregisteredToken` for an
    /// unknown token and `InsufficientBalance` when the balance is short.
    pub fn withdraw(&mut self, token: u64, amount: u128) -> (r: Result<(), ExchangeError>)
        requires
            old(self).wf(),
        ensures
            final(self).wf(),
            final(self).spec_auto_register() == old(self).spec_auto_register(),
            match r {
                Ok(()) => {
                    &&& old(self).registered(token)
                    &&& amount <= old(self).balance_of(token)
                    &&& final(self).balance_of(token) == old(self).balance_of(token) - amount
                    &&& forall|t: u64|
                        t != token ==> final(self).balance_of(t) == old(self).balance_of(t)
                    &&& forall|t: u64| final(self).registered(t) == old(self).registered(t)
                },
                Err(e) => {
                    &&& *final(self) == *old(self)
                    &&& (e == ExchangeError::UnregisteredToken <==> !old(self).registered(token))
                    &&& (e == ExchangeError::InsufficientBalance <==> old(self).registered(token)
                        && amount > old(self).balance_of(token))
                    &&& (e == ExchangeError::UnregisteredToken
                        || e == ExchangeError::InsufficientBalance)
                },
            },
    {
        if !self.tokens.contains_key(token) {
            return Err(ExchangeError::UnregisteredToken);
        }
        let bal = self.get_balance(token);
        if amount > bal {
            return Err(ExchangeError::InsufficientBalance);
        }
        self.tokens.insert(token, bal - amount);
        proof {
            assert forall|t: u64| t != token implies (self.balance_of(t) == old(self).balance_of(t)
                && self.registered(t) == old(self).registered(t)) by {
                crate::table::lemma_insert_other(old(self).tokens, self.tokens, token, (bal - amount) as u128, t);
            }
        }
        Ok(())
    }

    /// Drops the listed tokens from the account.  Every listed token must be
    /// registered with a zero balance; otherwise nothing changes.
    pub fn unregister_tokens(&mut self, tokens: &Vec<u64>) -> (r: Result<(), ExchangeError>)
        requires
            old(self).wf(),
        ensures
            final(self).wf(),
            final(self).spec_auto_register() == old(self).spec_auto_register(),
            match r {
                Ok(()) => {
                    &&& forall|t: u64|
                        tokens@.contains(t) ==> old(self).registered(t) && old(self).balance_of(t)
                            == 0
                    &&& forall|t: u64|
                        final(self).registered(t) == (old(self).registered(t)
                            && !tokens@.contains(t))
                    &&& forall|t: u64| final(self).balance_of(t) == if tokens@.contains(t) {
                        0int
                    } else {
                        old(self).balance_of(t)
                    }
                },
                Err(e) => {
                    &&& *final(self) == *old(self)
                    &&& (e == ExchangeError::UnregisteredToken || e
                        == ExchangeError::InsufficientBalance)
                    &&& (e == ExchangeError::UnregisteredToken ==> exists|t: u64|
                        tokens@.contains(t) && !old(self).registered(t))
                    &&& (e == ExchangeError::InsufficientBalance ==> exists|t: u64|
                        tokens@.contains(t) && old(self).balance_of(t) != 0)
                },
            },
    {
        let n = tokens.len();
        let mut i: usize = 0;
        // first pass: check, so that failure changes nothing
        while i < n
            invariant
                self.wf(),
                *self == *old(self),
                i <= n == tokens@.len(),
                forall|j: int|
                    0 <= j < i ==> self.registered(tokens@[j]) && self.balance_of(tokens@[j]) == 0,
            decreases n - i,
        {
            let t = tokens[i];
            if !self.tokens.contains_key(t) {
                proof {
                    assert(tokens@.contains(tokens@[i as int]));
                }
                return Err(ExchangeError::UnregisteredToken);
            }
            if self.get_balance(t) != 0 {
                proof {
                    assert(tokens@.contains(tokens@[i as int]));
                }
                return Err(ExchangeError::InsufficientBalance);
            }
            i = i + 1;
        }
        proof {
            assert forall|t: u64| tokens@.contains(t) implies self.registered(t)
                && self.balance_of(t) == 0 by {
                let w = choose|j: int| 0 <= j < tokens@.len() && tokens@[j] == t;
            }
        }
        // second pass: remove
        let mut i: usize = 0;
        while i < n
            invariant
                self.wf(),
                self.spec_auto_register() == old(self).spec_auto_register(),
                i <= n == tokens@.len(),
                forall|t: u64| tokens@.contains(t) ==> old(self).registered(t)
                    && old(self).balance_of(t) == 0,
                forall|t: u64|
                    self.registered(t) == (old(self).registered(t) && !tokens@.subrange(
                        0,
                        i as int,
                    ).contains(t)),
                forall|t: u64| self.balance_of(t) == if tokens@.subrange(0, i as int).contains(t) {
                    0int
                } else {
                    old(self).balance_of(t)
                },
            decreases n - i,
        {
            let ghost pre = *self;
            let t = tokens[i];
            if self.tokens.contains_key(t) {
                proof {
                    self.tokens.lemma_idx_of(t);
                }
                self.tokens.remove(t);
            }
            proof {
                lemma_subrange_extend(tokens@, i as int);
                assert forall|u: u64|
                    self.registered(u) == (old(self).registered(u) && !tokens@.subrange(
                        0,
                        i + 1,
                    ).contains(u)) by {
                    if u != t {
                        if pre.tokens.has(t) {
                            lemma_remove_other_key(pre.tokens, self.tokens, t, u);
                        }
                    } else {
                        assert(tokens@.subrange(0, i + 1)[i as int] == t);
                        assert(tokens@.subrange(0, i + 1).contains(t));
                        assert(!self.registered(t));
                    }
                }
                assert forall|u: u64| self.balance_of(u) == (
                if tokens@.subrange(0, i + 1).contains(u) {
                    0int
                } else {
                    old(self).balance_of(u)
                }) by {
                    if u != t {
                        if pre.tokens.has(t) {
                            lemma_remove_other_key(pre.tokens, self.tokens, t, u);
                        }
                        assert(self.balance_of(u) == pre.balance_of(u));
                        assert(pre.balance_of(u) == (if tokens@.subrange(0, i as int).contains(u) {
                            0int
                        } else {
                            old(self).balance_of(u)
                        }));
                    } else {
                        assert(tokens@.subrange(0, i + 1)[i as int] == t);
                        assert(tokens@.subrange(0, i + 1).contains(t));
                        assert(self.balance_of(t) == 0);
                    }
                }
            }
            i = i + 1;
        }
        proof {
            assert(tokens@.subrange(0, n as int) =~= tokens@);
        }
        Ok(())
    }
}

/// Extending a prefix by one element adds exactly that element's occurrences.
proof fn lemma_subrange_extend(s: Seq<u64>, i: int)
    requires
        0 <= i < s.len(),
    ensures
        forall|u: u64|
            s.subrange(0, i + 1).contains(u) == (s.subrange(0, i).contains(u) || s[i] == u),
{
    assert forall|u: u64|
        s.subrange(0, i + 1).contains(u) == (s.subrange(0, i).contains(u) || s[i] == u) by {
        let pre = s.subrange(0, i);
        let cur = s.subrange(0, i + 1);
        if cur.contains(u) {
            let w = choose|j: int| 0 <= j < cur.len() && cur[j] == u;
            if w < i {
                assert(pre[w] == u);
            }
        }
        if pre.contains(u) {
            let w = choose|j: int| 0 <= j < pre.len() && pre[j] == u;
            assert(cur[w] == u);
        }
        if s[i] == u {
            assert(cur[i] == u);
        }
    }
}

/// Removing one key of a balance table leaves every other key's row intact.
proof fn lemma_remove_other_key(
    before: Table<u128>,
    after: Table<u128>,
    removed: u64,
    other: u64,
)
    requires
        before.wf(),
        before.has(removed),
        after.keys_seq() == before.keys_seq().remove(before.idx_of(removed)),
        after.vals_seq() == before.vals_seq().remove(before.idx_of(removed)),
        after.wf(),
        other != removed,
    ensures
        after.has(other) == before.has(other),
        after.has(other) ==> after.spec_get(other) == before.spec_get(other),
{
    before.lemma_idx_of(removed);
    let r = before.idx_of(removed);
    if before.has(other) {
        before.lemma_idx_of(other);
        let w = before.idx_of(other);
        if w < r {
            assert(after.keys_seq()[w] == other);
        } else {
            assert(after.keys_seq()[w - 1] == other);
        }
        after.lemma_idx_of(other);
        let w2 = after.idx_of(other);
        if w2 < r {
            assert(before.keys_seq()[w2] == other);
            assert(after.vals_seq()[w2] == before.vals_seq()[w2]);
        } else {
            assert(before.keys_seq()[w2 + 1] == other);
            assert(after.vals_seq()[w2] == before.vals_seq()[w2 + 1]);
        }
    } else {
        if after.has(other) {
            after.lemma_idx_of(other);
            let w2 = after.idx_of(other);
            if w2 < r {
                assert(before.keys_seq()[w2] == other);
            } else {
                assert(before.keys_seq()[w2 + 1] == other);
            }
        }
    }
}

} // verus!
