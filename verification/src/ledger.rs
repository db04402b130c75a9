//! The interface between the pools and whatever keeps the balances.

use vstd::prelude::*;
use crate::book::Book;
use crate::types::{AccountId, Balance, LedgerError, Movement, TokenId};

verus! {

/// A multi-asset ledger as the pools use it: it can set part of a free
/// balance aside, release it again, and move free balance between accounts.
///
/// Each operation either happens as a whole or is refused and changes
/// nothing. An implementation states its holdings as a [`Book`]; the
/// contracts below say what every operation does to that book and exactly
/// when it is refused.
pub trait Ledger {
    /// The holdings this ledger records.
    spec fn book(&self) -> Book;

    /// The units of `token` in circulation. No operation of this interface
    /// creates or destroys any.
    spec fn issuance(&self, token: TokenId) -> nat;

    /// The implementation's own consistency condition. Every operation
    /// expects and keeps it.
    spec fn wf(&self) -> bool;

    /// Moves `amount` of `token` from the free to the reserved balance of
    /// `who`. Refused with `InsufficientBalance` where the free balance is
    /// smaller than `amount`.
    fn reserve(&mut self, token: TokenId, who: AccountId, amount: Balance) -> (outcome: Result<
        (),
        LedgerError,
    >)
        requires
            old(self).wf(),
        ensures
            final(self).wf(),
            forall|any: TokenId| #[trigger] final(self).issuance(any) == old(self).issuance(any),
            match old(self).book().try_reserve(token, who, amount as nat) {
                Ok(after) => outcome == Ok::<(), LedgerError>(()) && final(self).book() == after,
                Err(e) => outcome == Err::<(), LedgerError>(e) && final(self).book() == old(self)
                    .book(),
            },
    ;

    /// Moves `amount` of `token` from the reserved back to the free balance
    /// of `who`. Refused with `InsufficientReserved` where the reserved
    /// balance is smaller than `amount`.
    fn unreserve(&mut self, token: TokenId, who: AccountId, amount: Balance) -> (outcome: Result<
        (),
        LedgerError,
    >)
        requires
            old(self).wf(),
        ensures
            final(self).wf(),
            forall|any: TokenId| #[trigger] final(self).issuance(any) == old(self).issuance(any),
            match old(self).book().try_unreserve(token, who, amount as nat) {
                Ok(after) => outcome == Ok::<(), LedgerError>(()) && final(self).book() == after,
                Err(e) => outcome == Err::<(), LedgerError>(e) && final(self).book() == old(self)
                    .book(),
            },
    ;

    /// Moves `amount` of `token` from the free balance of `from` to the free
    /// balance of `to`. Refused with `InsufficientBalance` where the free
    /// balance of `from` is smaller than `amount`.
    fn transfer(
        &mut self,
        token: TokenId,
        from: AccountId,
        to: AccountId,
        amount: Balance,
    ) -> (outcome: Result<(), LedgerError>)
        requires
            old(self).wf(),
        ensures
            final(self).wf(),
            forall|any: TokenId| #[trigger] final(self).issuance(any) == old(self).issuance(any),
            match old(self).book().try_transfer(token, from, to, amount as nat) {
                Ok(after) => outcome == Ok::<(), LedgerError>(()) && final(self).book() == after,
                Err(e) => outcome == Err::<(), LedgerError>(e) && final(self).book() == old(self)
                    .book(),
            },
    ;
}

/// Carries out one movement on `ledger`.
pub fn perform<L: Ledger>(ledger: &mut L, movement: Movement) -> (outcome: Result<(), LedgerError>)
    requires
        old(ledger).wf(),
    ensures
        final(ledger).wf(),
        forall|any: TokenId| #[trigger] final(ledger).issuance(any) == old(ledger).issuance(any),
        match old(ledger).book().try_move(movement) {
            Ok(after) => outcome == Ok::<(), LedgerError>(()) && final(ledger).book() == after,
            Err(e) => outcome == Err::<(), LedgerError>(e) && final(ledger).book() == old(ledger)
                .book(),
        },
{
    match movement {
        Movement::Reserve { token, who, amount } => ledger.reserve(token, who, amount),
        Movement::Unreserve { token, who, amount } => ledger.unreserve(token, who, amount),
        Movement::Transfer { token, from, to, amount } => ledger.transfer(token, from, to, amount),
    }
}

} // verus!
