//! Scalar types shared by every module, and the errors an operation can end in.

use vstd::prelude::*;

verus! {

/// Identifies an account of the ledger.
pub type AccountId = u64;

/// Identifies an asset of the ledger.
pub type TokenId = u128;

/// An amount of some asset.
pub type Balance = u128;

/// A block height.
pub type BlockNumber = u64;

/// Identifies a pool.
pub type PoolId = u32;

/// One movement on a ledger, as the pools ask for it.
#[derive(Clone, Copy, Debug, PartialEq, Eq, Structural)]
pub enum Movement {
    /// `amount` of `token` goes from the free to the reserved balance of
    /// `who`.
    Reserve { token: TokenId, who: AccountId, amount: Balance },
    /// `amount` of `token` goes from the reserved back to the free balance
    /// of `who`.
    Unreserve { token: TokenId, who: AccountId, amount: Balance },
    /// `amount` of `token` goes from the free balance of `from` to the free
    /// balance of `to`.
    Transfer { token: TokenId, from: AccountId, to: AccountId, amount: Balance },
}

impl Movement {
    /// The movement that takes this one back.
    pub open spec fn undone(self) -> Movement {
        match self {
            Movement::Reserve { token, who, amount } => Movement::Unreserve { token, who, amount },
            Movement::Unreserve { token, who, amount } => Movement::Reserve { token, who, amount },
            Movement::Transfer { token, from, to, amount } => Movement::Transfer {
                token,
                from: to,
                to: from,
                amount,
            },
        }
    }

    /// The movement that takes this one back.
    pub fn undo(&self) -> (back: Movement)
        ensures
            back == self.undone(),
    {
        match *self {
            Movement::Reserve { token, who, amount } => Movement::Unreserve { token, who, amount },
            Movement::Unreserve { token, who, amount } => Movement::Reserve { token, who, amount },
            Movement::Transfer { token, from, to, amount } => Movement::Transfer {
                token,
                from: to,
                to: from,
                amount,
            },
        }
    }
}

/// Why the ledger refused an operation. A refused operation changes nothing.
#[derive(Clone, Copy, Debug, PartialEq, Eq, Structural)]
pub enum LedgerError {
    /// The free balance does not cover the amount.
    InsufficientBalance,
    /// The reserved balance does not cover the amount.
    InsufficientReserved,
}

/// Why a pool operation was rejected. A rejected operation changes nothing.
#[derive(Clone, Copy, Debug, PartialEq, Eq, Structural)]
pub enum Error {
    /// A pool must stay open for at least one block.
    InvalidDuration,
    /// The pool's end block has been reached.
    PoolExpired,
    /// No pool has this identifier.
    PoolNotFound,
    /// The pool's rate has a zero denominator (`total1 == 0`).
    DivisionByZero,
    /// The ledger refused; its error is passed on unchanged.
    Ledger(LedgerError),
}

} // verus!
