//! Error kinds shared by the whole accounting core.
//!
//! Every fallible operation returns one of these kinds; an error always means
//! the operation left the exchange state exactly as it found it.

use vstd::prelude::*;

verus! {

/// Semantic failure kinds of the exchange core.
#[derive(Clone, Copy, Debug, PartialEq, Eq, Structural)]
pub enum ExchangeError {
    /// The registry is paused; every mutating entry point fails.
    Paused,
    /// The caller lacks the role required for a governance operation.
    NotAllowed,
    /// The pool id does not name a pool of the registry.
    UnknownPool,
    /// A token id is not one of the pool's tokens.
    UnknownToken,
    /// The same token appears twice in a pool's token list.
    TokenDuplicates,
    /// The token list has the wrong length for the pool kind.
    WrongTokenCount,
    /// A ledger withdrawal exceeds the available balance.
    InsufficientBalance,
    /// A share transfer or burn exceeds the holder's share balance.
    InsufficientLpBalance,
    /// A swap output fell below the caller's minimum (slippage).
    InsufficientOutput,
    /// An amount that must be positive was zero.
    ZeroAmount,
    /// A swap was attempted against an empty reserve.
    ZeroLiquidity,
    /// Input and output token of a swap are the same.
    SameToken,
    /// The stable-swap invariant iteration did not converge.
    ComputeDFailed,
    /// The stable-swap output iteration did not converge.
    ComputeYFailed,
    /// Checked arithmetic exceeded u128 for balances or u256 for intermediates.
    MathOverflow,
    /// The account has not registered the token and auto-registration is off.
    UnregisteredToken,
    /// An LP share transfer names the sender as receiver.
    TransferToSelf,
    /// The account already holds an LP share record for the pool.
    LpAlreadyRegistered,
    /// The first swap action of a chain carries no input amount.
    NoAmount,
}

} // verus!
