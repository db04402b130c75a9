//! A fixed-rate, time-boxed token swap pool.
//!
//! A creator escrows `total0` of one asset against a target of `total1` of a
//! second asset. Until the pool's end block, buyers pay the second asset and
//! receive the first at the fixed rate `total0 / total1`. When the end block
//! is finalized, whatever was not sold is released back to the creator.
//!
//! The modules, leaves first:
//! - [`types`]: the scalar types, the ledger movements and the two error enums;
//! - [`arith`]: clamped arithmetic on balances;
//! - [`pool`]: the record of one pool and its pricing rules;
//! - [`book`]: the mathematical model of a multi-asset ledger;
//! - [`ledger`]: the interface the pools settle against;
//! - [`tokens`]: an in-memory ledger;
//! - [`state`]: the pools as a mathematical state machine, and its laws;
//! - [`module`]: pool storage, the swap engine and the expiry scheduler;
//! - [`runtime`]: a block clock, a ledger and the pools, run together.

pub mod types;
pub mod arith;
pub mod pool;
pub mod book;
pub mod ledger;
pub mod tokens;
pub mod state;
pub mod module;
pub mod runtime;

pub use ledger::{perform, Ledger};
pub use module::FixedSwap;
pub use pool::PoolDetails;
pub use runtime::Runtime;
pub use state::{Event, State};
pub use tokens::Tokens;
pub use types::{
    AccountId, Balance, BlockNumber, Error, LedgerError, Movement, PoolId, TokenId,
};
