//! The mathematical model of a multi-asset ledger: what every account holds
//! of every asset, free and reserved, and how the three movements that pools
//! need change it.

use vstd::prelude::*;
use crate::types::{AccountId, LedgerError, Movement, TokenId};

verus! {

/// What one account holds of one asset.
pub struct Holding {
    /// What the account can spend.
    pub free: nat,
    /// What is set aside: still the account's own, but not spendable.
    pub reserved: nat,
}

impl Holding {
    /// Free and reserved together.
    pub open spec fn total(self) -> nat {
        self.free + self.reserved
    }
}

/// The holdings of all accounts in all assets. An account that never
/// received anything holds zero.
#[verifier::ext_equal]
pub struct Book {
    pub holdings: spec_fn(TokenId, AccountId) -> Holding,
}

impl Book {
    /// The book in which nobody holds anything.
    pub open spec fn empty() -> Book {
        Book { holdings: |token: TokenId, who: AccountId| Holding { free: 0, reserved: 0 } }
    }

    /// What `who` holds of `token`.
    pub open spec fn holding(self, token: TokenId, who: AccountId) -> Holding {
        (self.holdings)(token, who)
    }

    /// The spendable balance of `who` in `token`.
    pub open spec fn free(self, token: TokenId, who: AccountId) -> nat {
        self.holding(token, who).free
    }

    /// The reserved balance of `who` in `token`.
    pub open spec fn reserved(self, token: TokenId, who: AccountId) -> nat {
        self.holding(token, who).reserved
    }

    /// Everything `who` owns of `token`, spendable or not.
    pub open spec fn total(self, token: TokenId, who: AccountId) -> nat {
        self.holding(token, who).total()
    }

    /// The book with one holding replaced.
    pub open spec fn with(self, token: TokenId, who: AccountId, holding: Holding) -> Book {
        Book {
            holdings: |t: TokenId, w: AccountId|
                if t == token && w == who {
                    holding
                } else {
                    self.holding(t, w)
                },
        }
    }

    /// New units of `token` appear in the free balance of `who`.
    pub open spec fn deposit(self, token: TokenId, who: AccountId, amount: nat) -> Book {
        let h = self.holding(token, who);
        self.with(token, who, Holding { free: h.free + amount, reserved: h.reserved })
    }

    /// `amount` moves from the free to the reserved balance of `who`.
    pub open spec fn reserve(self, token: TokenId, who: AccountId, amount: nat) -> Book
        recommends
            self.free(token, who) >= amount,
    {
        let h = self.holding(token, who);
        self.with(
            token,
            who,
            Holding { free: (h.free - amount) as nat, reserved: h.reserved + amount },
        )
    }

    /// `amount` moves from the reserved back to the free balance of `who`.
    pub open spec fn unreserve(self, token: TokenId, who: AccountId, amount: nat) -> Book
        recommends
            self.reserved(token, who) >= amount,
    {
        let h = self.holding(token, who);
        self.with(
            token,
            who,
            Holding { free: h.free + amount, reserved: (h.reserved - amount) as nat },
        )
    }

    /// `amount` moves from the free balance of `from` to the free balance of
    /// `to`. Where both are the same account, nothing changes.
    pub open spec fn transfer(
        self,
        token: TokenId,
        from: AccountId,
        to: AccountId,
        amount: nat,
    ) -> Book
        recommends
            self.free(token, from) >= amount,
    {
        let source = self.holding(token, from);
        let debited = self.with(
            token,
            from,
            Holding { free: (source.free - amount) as nat, reserved: source.reserved },
        );
        let target = debited.holding(token, to);
        debited.with(token, to, Holding { free: target.free + amount, reserved: target.reserved })
    }

    /// Reserving as a ledger decides it: the book after the move where the
    /// free balance covers `amount`, `InsufficientBalance` otherwise.
    pub open spec fn try_reserve(self, token: TokenId, who: AccountId, amount: nat) -> Result<
        Book,
        LedgerError,
    > {
        if self.free(token, who) >= amount {
            Ok(self.reserve(token, who, amount))
        } else {
            Err(LedgerError::InsufficientBalance)
        }
    }

    /// Releasing as a ledger decides it: the book after the move where the
    /// reserved balance covers `amount`, `InsufficientReserved` otherwise.
    pub open spec fn try_unreserve(self, token: TokenId, who: AccountId, amount: nat) -> Result<
        Book,
        LedgerError,
    > {
        if self.reserved(token, who) >= amount {
            Ok(self.unreserve(token, who, amount))
        } else {
            Err(LedgerError::InsufficientReserved)
        }
    }

    /// Transferring as a ledger decides it: the book after the move where
    /// the sender's free balance covers `amount`, `InsufficientBalance`
    /// otherwise.
    pub open spec fn try_transfer(
        self,
        token: TokenId,
        from: AccountId,
        to: AccountId,
        amount: nat,
    ) -> Result<Book, LedgerError> {
        if self.free(token, from) >= amount {
            Ok(self.transfer(token, from, to, amount))
        } else {
            Err(LedgerError::InsufficientBalance)
        }
    }

    /// One movement as a ledger decides it: the book after it, or the reason
    /// why it is refused.
    pub open spec fn try_move(self, movement: Movement) -> Result<Book, LedgerError> {
        match movement {
            Movement::Reserve { token, who, amount } => self.try_reserve(token, who, amount as nat),
            Movement::Unreserve { token, who, amount } => self.try_unreserve(
                token,
                who,
                amount as nat,
            ),
            Movement::Transfer { token, from, to, amount } => self.try_transfer(
                token,
                from,
                to,
                amount as nat,
            ),
        }
    }

    /// Three movements in order, as a ledger decides them: the book after
    /// all three, or the reason why the first refused one is refused.
    pub open spec fn try_moves(self, movements: (Movement, Movement, Movement)) -> Result<
        Book,
        LedgerError,
    > {
        match self.try_move(movements.0) {
            Err(e) => Err(e),
            Ok(first) => match first.try_move(movements.1) {
                Err(e) => Err(e),
                Ok(second) => second.try_move(movements.2),
            },
        }
    }

    /// What the accounts listed in `holders` own of `token`, all together.
    pub open spec fn held_by(self, token: TokenId, holders: Seq<AccountId>) -> nat
        decreases holders.len(),
    {
        if holders.len() == 0 {
            0
        } else {
            self.held_by(token, holders.drop_last()) + self.total(token, holders.last())
        }
    }

    /// Replacing the holding of `who` in `token` changes what a group of
    /// distinct accounts holds of `token` by the change in that one holding
    /// if `who` is in the group, and not at all otherwise. Holdings of other
    /// assets are not touched.
    pub proof fn lemma_held_by_with(
        self,
        token: TokenId,
        who: AccountId,
        holding: Holding,
        any_token: TokenId,
        holders: Seq<AccountId>,
    )
        requires
            holders.no_duplicates(),
        ensures
            self.with(token, who, holding).held_by(any_token, holders) == self.held_by(
                any_token,
                holders,
            ) + (if any_token == token && holders.contains(who) {
                holding.total() - self.total(token, who)
            } else {
                0
            }),
        decreases holders.len(),
    {
        if holders.len() > 0 {
            let front = holders.drop_last();
            assert(front.no_duplicates());
            self.lemma_held_by_with(token, who, holding, any_token, front);
            assert(holders.contains(who) <==> (front.contains(who) || holders.last() == who)) by {
                if front.contains(who) {
                    let i = choose|i: int| 0 <= i < front.len() && front[i] == who;
                    assert(holders[i] == who);
                }
                if holders.last() == who {
                    assert(holders[holders.len() - 1] == who);
                }
                if holders.contains(who) {
                    let i = choose|i: int| 0 <= i < holders.len() && holders[i] == who;
                    if i < holders.len() - 1 {
                        assert(front[i] == who);
                    }
                }
            }
            if holders.last() == who && front.contains(who) {
                let i = choose|i: int| 0 <= i < front.len() && front[i] == who;
                assert(holders[i] == holders[holders.len() - 1]);
            }
        }
    }

    /// Reserving moves value inside one account: every account owns after it
    /// what it owned before.
    pub proof fn lemma_reserve_keeps_totals(self, token: TokenId, who: AccountId, amount: nat)
        requires
            self.free(token, who) >= amount,
        ensures
            forall|t: TokenId, w: AccountId| #[trigger]
                self.reserve(token, who, amount).total(t, w) == self.total(t, w),
            self.reserve(token, who, amount).reserved(token, who) == self.reserved(token, who)
                + amount,
            self.reserve(token, who, amount).free(token, who) == self.free(token, who) - amount,
    {
    }

    /// Releasing a reservation moves value inside one account: every account
    /// owns after it what it owned before.
    pub proof fn lemma_unreserve_keeps_totals(self, token: TokenId, who: AccountId, amount: nat)
        requires
            self.reserved(token, who) >= amount,
        ensures
            forall|t: TokenId, w: AccountId| #[trigger]
                self.unreserve(token, who, amount).total(t, w) == self.total(t, w),
            self.unreserve(token, who, amount).reserved(token, who) == self.reserved(token, who)
                - amount,
            self.unreserve(token, who, amount).free(token, who) == self.free(token, who) + amount,
    {
    }

    /// A group of accounts owns the same before and after a movement that
    /// leaves every single account's total as it was.
    pub proof fn lemma_held_by_same_totals(
        self,
        other: Book,
        token: TokenId,
        holders: Seq<AccountId>,
    )
        requires
            forall|w: AccountId| #[trigger] other.total(token, w) == self.total(token, w),
        ensures
            other.held_by(token, holders) == self.held_by(token, holders),
        decreases holders.len(),
    {
        if holders.len() > 0 {
            self.lemma_held_by_same_totals(other, token, holders.drop_last());
        }
    }

    /// A transfer creates and destroys nothing: a group of distinct accounts
    /// that includes both ends owns of every asset the same before and
    /// after.
    pub proof fn lemma_transfer_conserves(
        self,
        token: TokenId,
        from: AccountId,
        to: AccountId,
        amount: nat,
        any_token: TokenId,
        holders: Seq<AccountId>,
    )
        requires
            self.free(token, from) >= amount,
            holders.no_duplicates(),
            holders.contains(from),
            holders.contains(to),
        ensures
            self.transfer(token, from, to, amount).held_by(any_token, holders) == self.held_by(
                any_token,
                holders,
            ),
    {
        let source = self.holding(token, from);
        let debit = Holding { free: (source.free - amount) as nat, reserved: source.reserved };
        let debited = self.with(token, from, debit);
        let target = debited.holding(token, to);
        let credit = Holding { free: target.free + amount, reserved: target.reserved };
        self.lemma_held_by_with(token, from, debit, any_token, holders);
        debited.lemma_held_by_with(token, to, credit, any_token, holders);
    }

    /// Reserving what was just released restores the book.
    pub proof fn lemma_reserve_undoes_unreserve(self, token: TokenId, who: AccountId, amount: nat)
        requires
            self.reserved(token, who) >= amount,
        ensures
            self.unreserve(token, who, amount).free(token, who) >= amount,
            self.unreserve(token, who, amount).reserve(token, who, amount) == self,
    {
        let back = self.unreserve(token, who, amount).reserve(token, who, amount);
        assert forall|t: TokenId, w: AccountId| #[trigger]
            (back.holdings)(t, w) == (self.holdings)(t, w) by {
            assert(back.holding(t, w) == self.holding(t, w));
        }
        assert(back =~= self);
    }

    /// Releasing what was just reserved restores the book.
    pub proof fn lemma_unreserve_undoes_reserve(self, token: TokenId, who: AccountId, amount: nat)
        requires
            self.free(token, who) >= amount,
        ensures
            self.reserve(token, who, amount).reserved(token, who) >= amount,
            self.reserve(token, who, amount).unreserve(token, who, amount) == self,
    {
        let back = self.reserve(token, who, amount).unreserve(token, who, amount);
        assert forall|t: TokenId, w: AccountId| #[trigger]
            (back.holdings)(t, w) == (self.holdings)(t, w) by {
            assert(back.holding(t, w) == self.holding(t, w));
        }
        assert(back =~= self);
    }

    /// Sending back what was just transferred restores the book.
    pub proof fn lemma_transfer_back(
        self,
        token: TokenId,
        from: AccountId,
        to: AccountId,
        amount: nat,
    )
        requires
            self.free(token, from) >= amount,
        ensures
            self.transfer(token, from, to, amount).free(token, to) >= amount,
            self.transfer(token, from, to, amount).transfer(token, to, from, amount) == self,
    {
        let there = self.transfer(token, from, to, amount);
        let back = there.transfer(token, to, from, amount);
        assert forall|t: TokenId, w: AccountId| #[trigger]
            (back.holdings)(t, w) == (self.holdings)(t, w) by {
            assert(back.holding(t, w) == self.holding(t, w));
        }
        assert(back =~= self);
    }

    /// A movement that was carried out can be taken back, and taking it
    /// back restores the book.
    pub proof fn lemma_undo(self, movement: Movement)
        requires
            self.try_move(movement) is Ok,
        ensures
            self.try_move(movement)->Ok_0.try_move(movement.undone()) == Ok::<Book, LedgerError>(
                self,
            ),
    {
        match movement {
            Movement::Reserve { token, who, amount } => {
                self.lemma_unreserve_undoes_reserve(token, who, amount as nat);
            },
            Movement::Unreserve { token, who, amount } => {
                self.lemma_reserve_undoes_unreserve(token, who, amount as nat);
            },
            Movement::Transfer { token, from, to, amount } => {
                self.lemma_transfer_back(token, from, to, amount as nat);
            },
        }
    }
}

} // verus!
