//! Accounting core of an automated market maker exchange.
//!
//! The exchange keeps a registry of liquidity pools (constant-product pools of
//! two tokens and Curve-style stable-swap pools of up to four tokens) together
//! with an internal custody ledger of per-account token balances.  Every swap
//! and liquidity operation debits and credits that ledger, and all monetary
//! arithmetic is unsigned 128-bit with 256-bit intermediates, rounded so that
//! the pool never pays out more than it takes in.

pub mod account;
pub mod errors;
pub mod exchange;
pub mod math;
pub mod pool;
pub mod simple_pool;
pub mod stable_swap;
pub mod table;
